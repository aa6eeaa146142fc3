//! Cantor-Zassenhaus factorization over GF(2^128).
//!
//! Three stages compose into the `factor` driver: `square_free_factorization`
//! keeps each distinct irreducible factor once, `distinct_degree_factorize`
//! groups the remaining irreducible factors by degree, and
//! `equal_degree_factorize` splits each group into its individual factors by
//! randomized witness GCDs. `roots` keeps the degree-one factors and reads
//! the roots off their constant terms.

use vstd::prelude::*;

use crate::f128::{spec_fe_inv, spec_fe_mul, spec_fe_pow, F128Element, SQRT_EXPONENT};
use crate::poly::{
    fe_one, fe_zero, gcd_measure, is_one_seq, is_zero_seq, lemma_div_steps_len,
    lemma_pdiv_rem_props, lemma_pmul_one, lemma_trim_canonical, lemma_trim_wf, spec_deriv,
    spec_div_steps, spec_eval, spec_gcd, spec_padd, spec_pdiv_rem, spec_pmul, spec_powmod,
    spec_sqrt, spec_to_monic, spec_trim, wf_seq, F128Polynomial,
};

verus! {

/// 2^127: the Frobenius power x^(2^128) is realized as two chained powmod
/// steps, by this exponent and then by two, to stay within 128-bit exponents.
pub const FROBENIUS_HALF: u128 = 0x8000_0000_0000_0000_0000_0000_0000_0000;

/// floor(2^128 / 3): the cubic-residue-style splitting exponent. In
/// characteristic 2 the quadratic "(q - 1) / 2" witness is unusable, so the
/// equal-degree stage raises random witnesses to this power instead.
pub const SPLITTING_EXPONENT: u128 = 0x5555_5555_5555_5555_5555_5555_5555_5555;

/// Termination measure for the distinct-degree loop, which runs while the
/// remaining modulus has length above twice the candidate degree: the length
/// never grows and the candidate degree rises by one per round.
pub open spec fn ddf_measure(len: int, i: int) -> int {
    if len > 2 * i {
        len - 2 * i
    } else {
        0
    }
}

/// The degree-one monomial x.
pub open spec fn spec_x_monomial() -> Seq<F128Element> {
    seq![fe_zero(), fe_one()]
}

/// The view of a factor list with its degrees: each polynomial as its
/// coefficient sequence.
pub open spec fn views_of(factors: Seq<(F128Polynomial, usize)>) -> Seq<(Seq<F128Element>, int)> {
    factors.map_values(|e: (F128Polynomial, usize)| (e.0@, e.1 as int))
}

/// Mirror of the distinct-degree loop state: while the remaining modulus
/// `poly_star` is longer than twice the candidate degree `i`, advance the
/// Frobenius accumulator `x` by x^(2^128) mod poly_star, take the gcd of
/// poly_star with x + x_monomial, and divide out a nontrivial gcd as the
/// group of all irreducible factors of degree exactly `i`.
pub open spec fn spec_ddf_loop(
    poly_star: Seq<F128Element>,
    x: Seq<F128Element>,
    i: int,
    factors: Seq<(Seq<F128Element>, int)>,
) -> (Seq<F128Element>, Seq<(Seq<F128Element>, int)>)
    decreases ddf_measure(poly_star.len() as int, i),
        via spec_ddf_loop_decreases
{
    if poly_star.len() > 2 * i {
        let x1 = spec_powmod(x, FROBENIUS_HALF, poly_star);
        let x2 = spec_powmod(x1, 2, poly_star);
        let shifted = spec_padd(x2, spec_x_monomial());
        let group = spec_gcd(spec_trim(poly_star), shifted);
        if group.len() > 1 {
            spec_ddf_loop(
                spec_pdiv_rem(poly_star, group).0,
                x2,
                i + 1,
                factors.push((group, i)),
            )
        } else {
            spec_ddf_loop(poly_star, x2, i + 1, factors)
        }
    } else {
        (poly_star, factors)
    }
}

#[via_fn]
proof fn spec_ddf_loop_decreases(
    poly_star: Seq<F128Element>,
    x: Seq<F128Element>,
    i: int,
    factors: Seq<(Seq<F128Element>, int)>,
) {
    if poly_star.len() > 2 * i {
        let x1 = spec_powmod(x, FROBENIUS_HALF, poly_star);
        let x2 = spec_powmod(x1, 2, poly_star);
        let shifted = spec_padd(x2, spec_x_monomial());
        let group = spec_gcd(spec_trim(poly_star), shifted);
        if group.len() > 1 {
            if poly_star.len() >= group.len() {
                let kk = (poly_star.len() - group.len() + 1) as nat;
                lemma_div_steps_len(poly_star, group, spec_fe_inv(group.last().0), kk);
                lemma_trim_wf(spec_div_steps(poly_star, group, spec_fe_inv(group.last().0), kk).0);
            }
        }
    }
}

/// The full distinct-degree grouping: run the loop from the monic input with
/// the accumulator at x and candidate degree one; a leftover modulus past the
/// loop is irreducible of its own degree, and an input with no nontrivial
/// group is returned whole at degree one.
pub open spec fn spec_ddf(p: Seq<F128Element>) -> Seq<(Seq<F128Element>, int)> {
    let state = spec_ddf_loop(spec_to_monic(p), spec_x_monomial(), 1, Seq::empty());
    let with_leftover = if state.0.len() > 1 {
        state.1.push((state.0, state.0.len() - 1))
    } else {
        state.1
    };
    if with_leftover.len() == 0 {
        seq![(spec_to_monic(p), 1int)]
    } else {
        with_leftover
    }
}

/// The coefficient sequences of a factor list.
pub open spec fn poly_views(factors: Seq<F128Polynomial>) -> Seq<Seq<F128Element>> {
    factors.map_values(|f: F128Polynomial| f@)
}

/// A grouping entry that is a single irreducible factor already: its paired
/// degree equals its own degree.
pub open spec fn is_irreducible_group(entry: (Seq<F128Element>, int)) -> bool {
    entry.0.len() >= 2 && entry.1 == entry.0.len() - 1
}

/// The nonconstant groups of a distinct-degree grouping, in order.
pub open spec fn spec_nonconstant_groups(groups: Seq<(Seq<F128Element>, int)>) -> Seq<
    Seq<F128Element>,
>
    decreases groups.len(),
{
    if groups.len() == 0 {
        Seq::empty()
    } else {
        let rest = spec_nonconstant_groups(groups.drop_first());
        if groups[0].0.len() >= 2 {
            seq![groups[0].0] + rest
        } else {
            rest
        }
    }
}

/// Every nonconstant group is kept by the filter.
proof fn lemma_nonconstant_groups_contain(groups: Seq<(Seq<F128Element>, int)>, t: int)
    requires
        0 <= t < groups.len(),
        groups[t].0.len() >= 2,
    ensures
        spec_nonconstant_groups(groups).contains(groups[t].0),
    decreases groups.len(),
{
    let rest = spec_nonconstant_groups(groups.drop_first());
    if t == 0 {
        assert(spec_nonconstant_groups(groups)[0] == groups[0].0);
    } else {
        lemma_nonconstant_groups_contain(groups.drop_first(), t - 1);
        assert(groups.drop_first()[t - 1] == groups[t]);
        let i = choose|i: int| 0 <= i < rest.len() && rest[i] == groups[t].0;
        if groups[0].0.len() >= 2 {
            assert(spec_nonconstant_groups(groups)[i + 1] == groups[t].0);
        } else {
            assert(spec_nonconstant_groups(groups)[i] == groups[t].0);
        }
    }
}

/// What `factor` hands back when its consistency check cannot be
/// established: the nonconstant distinct-degree groups unsplit, or the
/// square-free part whole if no nonconstant group exists.
pub open spec fn spec_unsplit_groups(p: Seq<F128Element>) -> Seq<Seq<F128Element>> {
    let gs = spec_nonconstant_groups(spec_ddf(spec_sff(p)));
    if gs.len() == 0 {
        seq![spec_sff(p)]
    } else {
        gs
    }
}

/// The roots read off a factor list: for every nonzero factor whose monic
/// form has exactly two coefficients (a linear factor x + root, so the root
/// is its constant term once monic), that constant term, in order.
pub open spec fn spec_roots_of(factors: Seq<F128Polynomial>) -> Seq<F128Element>
    decreases factors.len(),
{
    if factors.len() == 0 {
        Seq::empty()
    } else {
        let head = factors[0]@;
        let rest = spec_roots_of(factors.drop_first());
        if !is_zero_seq(head) && wf_seq(head) && spec_to_monic(head).len() == 2 {
            seq![spec_to_monic(head)[0]] + rest
        } else {
            rest
        }
    }
}

/// The root read off a monic linear factor in the list is among the roots
/// read off the whole list.
proof fn lemma_roots_of_contains(factors: Seq<F128Polynomial>, j: int)
    requires
        0 <= j < factors.len(),
        wf_seq(factors[j]@),
        !is_zero_seq(factors[j]@),
        spec_to_monic(factors[j]@).len() == 2,
    ensures
        spec_roots_of(factors).contains(spec_to_monic(factors[j]@)[0]),
    decreases factors.len(),
{
    let root = spec_to_monic(factors[j]@)[0];
    let head = factors[0]@;
    let rest = spec_roots_of(factors.drop_first());
    if j == 0 {
        assert(spec_roots_of(factors)[0] == root);
    } else {
        assert(factors.drop_first()[j - 1] == factors[j]);
        lemma_roots_of_contains(factors.drop_first(), j - 1);
        let i = choose|i: int| 0 <= i < rest.len() && rest[i] == root;
        if !is_zero_seq(head) && wf_seq(head) && spec_to_monic(head).len() == 2 {
            assert(spec_roots_of(factors)[i + 1] == root);
        } else {
            assert(spec_roots_of(factors)[i] == root);
        }
    }
}

/// Every odd-position coefficient is zero: the polynomial is a perfect square
/// in characteristic 2, and its square root is defined.
pub open spec fn spec_odd_coeffs_zero(s: Seq<F128Element>) -> bool {
    forall|i: int| 0 <= i < s.len() && i % 2 == 1 ==> s[i] == fe_zero()
}

/// The left-fold product of the first `t` entries of a factor list, starting
/// from the constant one.
pub open spec fn spec_prod(factors: Seq<F128Polynomial>, t: int) -> Seq<F128Element>
    decreases t,
{
    if t <= 0 {
        seq![fe_one()]
    } else {
        spec_pmul(spec_prod(factors, t - 1), factors[t - 1]@)
    }
}

/// The product of a whole factor list.
pub open spec fn spec_prod_all(factors: Seq<F128Polynomial>) -> Seq<F128Element> {
    spec_prod(factors, factors.len() as int)
}

/// The running product of a factor list.
fn product_of(factors: &Vec<F128Polynomial>) -> (r: F128Polynomial)
    requires
        forall|k: int| 0 <= k < factors@.len() ==> (#[trigger] factors@[k])@.len() >= 1,
    ensures
        r@ == spec_prod_all(factors@),
        r.wf(),
{
    let mut prod = F128Polynomial::one();
    let mut t: usize = 0;
    while t < factors.len()
        invariant
            t <= factors@.len(),
            prod.wf(),
            prod@ == spec_prod(factors@, t as int),
            forall|k: int| 0 <= k < factors@.len() ==> (#[trigger] factors@[k])@.len() >= 1,
        decreases factors@.len() - t,
    {
        prod = prod.mul(&factors[t]);
        t += 1;
    }
    prod
}

/// Whether a value occurs in a list of field elements.
fn contains_element(v: &Vec<F128Element>, e: F128Element) -> (r: bool)
    ensures
        r == v@.contains(e),
{
    let mut i: usize = 0;
    while i < v.len()
        invariant
            i <= v@.len(),
            forall|j: int| 0 <= j < i ==> v@[j] != e,
        decreases v@.len() - i,
    {
        if v[i].0 == e.0 {
            proof {
                assert(v@[i as int] == e);
            }
            return true;
        }
        i += 1;
    }
    proof {
        assert(!v@.contains(e));
    }
    false
}

/// A nonempty first argument keeps the Euclidean gcd nonempty and no longer
/// than one of its arguments.
pub proof fn lemma_gcd_len(x: Seq<F128Element>, y: Seq<F128Element>)
    requires
        x.len() >= 1,
    ensures
        spec_gcd(x, y).len() >= 1,
        spec_gcd(x, y).len() <= x.len() || spec_gcd(x, y).len() <= y.len(),
    decreases gcd_measure(y),
{
    if !(y.len() == 0 || is_zero_seq(y)) {
        lemma_pdiv_rem_props(x, y);
        lemma_gcd_len(y, spec_pdiv_rem(x, y).1);
    }
}

/// Mirror of the square-free peeling loop: while `w` is not one and fuel
/// remains, take `y` as the gcd of `w` with the residual layer, multiply the
/// peeled factor `w / y` into the result once, and divide the layer out.
/// Each peeled factor enters the result to the first power, so the result
/// collects each distinct irreducible factor once. Returns the result and
/// the residual layer.
pub open spec fn spec_sff_loop(
    result: Seq<F128Element>,
    w: Seq<F128Element>,
    odd_free: Seq<F128Element>,
    fuel: int,
) -> (Seq<F128Element>, Seq<F128Element>)
    decreases fuel,
{
    if is_one_seq(w) || fuel <= 0 {
        (result, odd_free)
    } else {
        let y = spec_gcd(spec_trim(w), odd_free);
        if is_zero_seq(y) {
            (result, odd_free)
        } else {
            spec_sff_loop(
                spec_pmul(result, spec_pdiv_rem(w, y).0),
                spec_to_monic(y),
                spec_pdiv_rem(odd_free, y).0,
                fuel - 1,
            )
        }
    }
}

proof fn lemma_sff_loop_len(
    result: Seq<F128Element>,
    w: Seq<F128Element>,
    odd_free: Seq<F128Element>,
    fuel: int,
)
    requires
        odd_free.len() >= 1,
        w.len() >= 1,
    ensures
        1 <= spec_sff_loop(result, w, odd_free, fuel).1.len() <= odd_free.len(),
    decreases fuel,
{
    if !(is_one_seq(w) || fuel <= 0) {
        lemma_trim_wf(w);
        lemma_gcd_len(spec_trim(w), odd_free);
        let y = spec_gcd(spec_trim(w), odd_free);
        if !is_zero_seq(y) {
            let next = spec_pdiv_rem(odd_free, y).0;
            if odd_free.len() >= y.len() {
                let kk = (odd_free.len() - y.len() + 1) as nat;
                lemma_div_steps_len(odd_free, y, spec_fe_inv(y.last().0), kk);
                lemma_trim_wf(spec_div_steps(odd_free, y, spec_fe_inv(y.last().0), kk).0);
            }
            let wn = spec_to_monic(y);
            lemma_trim_wf(
                Seq::new(y.len(), |t: int| F128Element(spec_fe_mul(spec_fe_inv(y.last().0), y[t].0))),
            );
            lemma_sff_loop_len(spec_pmul(result, spec_pdiv_rem(w, y).0), wn, next, fuel - 1);
        }
    }
}

/// The square-free part: normalize to monic, split off the layer with a
/// vanishing-derivative gcd, peel the repeated layers, and recurse into the
/// square root of the residual perfect square.
pub open spec fn spec_sff(p: Seq<F128Element>) -> Seq<F128Element>
    decreases p.len(),
        via spec_sff_decreases
{
    let pm = spec_to_monic(p);
    if is_zero_seq(pm) {
        seq![fe_one()]
    } else {
        let odd_free0 = spec_gcd(spec_trim(pm), spec_deriv(pm));
        let w0 = spec_pdiv_rem(pm, odd_free0).0;
        let state = spec_sff_loop(seq![fe_one()], w0, odd_free0, p.len() - 1);
        if state.1.len() >= 2 && !is_one_seq(spec_to_monic(state.1)) {
            if spec_odd_coeffs_zero(state.1) && !is_zero_seq(spec_sqrt(state.1)) {
                spec_pmul(state.0, spec_sff(spec_sqrt(state.1)))
            } else {
                spec_pmul(state.0, state.1)
            }
        } else {
            state.0
        }
    }
}

#[via_fn]
proof fn spec_sff_decreases(p: Seq<F128Element>) {
    let pm = spec_to_monic(p);
    if !is_zero_seq(pm) {
        lemma_trim_wf(
            Seq::new(p.len(), |t: int| F128Element(spec_fe_mul(spec_fe_inv(p.last().0), p[t].0))),
        );
        lemma_trim_wf(pm);
        let odd_free0 = spec_gcd(spec_trim(pm), spec_deriv(pm));
        lemma_trim_wf(Seq::new(
            (pm.len() - 1) as nat,
            |t: int|
                if t % 2 == 0 {
                    pm[t + 1]
                } else {
                    fe_zero()
                },
        ));
        lemma_gcd_len(spec_trim(pm), spec_deriv(pm));
        let w0 = spec_pdiv_rem(pm, odd_free0).0;
        if pm.len() >= odd_free0.len() {
            let kk = (pm.len() - odd_free0.len() + 1) as nat;
            lemma_div_steps_len(pm, odd_free0, spec_fe_inv(odd_free0.last().0), kk);
            lemma_trim_wf(spec_div_steps(pm, odd_free0, spec_fe_inv(odd_free0.last().0), kk).0);
        }
        lemma_sff_loop_len(seq![fe_one()], w0, odd_free0, p.len() - 1);
        let state = spec_sff_loop(seq![fe_one()], w0, odd_free0, p.len() - 1);
        if state.1.len() >= 2 {
            lemma_trim_wf(Seq::new(
                ((state.1.len() + 1) / 2) as nat,
                |t: int| F128Element(spec_fe_pow(state.1[2 * t].0, SQRT_EXPONENT)),
            ));
        }
    }
}

/// The square-free part of a nonzero polynomial: the product of its distinct
/// irreducible factors, each to the first power. Yun-style peeling of the
/// repeated layers via gcds with the formal derivative; in characteristic 2
/// the derivative collapses all even-power structure, so the residual layer
/// is a perfect square whose root is processed recursively.
pub fn square_free_factorization(polynomial: &F128Polynomial) -> (r: F128Polynomial)
    requires
        polynomial.wf(),
        !is_zero_seq(polynomial@),
    ensures
        r@ == spec_sff(polynomial@),
        r.wf(),
    decreases polynomial@.len(),
{
    let mut result = F128Polynomial::one();
    let pm = polynomial.to_monic();
    if pm.is_zero() {
        // Unreachable in exact field arithmetic: a nonzero polynomial stays
        // nonzero under monic normalization.
        return result;
    }
    let mut odd_free = F128Polynomial::gcd(pm.clone_poly(), &pm.derivative());
    let mut w = pm.div(&odd_free);
    let mut fuel = polynomial.0.len() - 1;
    let ghost goal = spec_sff_loop(seq![fe_one()], w@, odd_free@, polynomial@.len() - 1);
    while !w.is_one() && fuel > 0
        invariant
            result.wf(),
            w.wf(),
            w@.len() >= 1,
            odd_free.wf(),
            odd_free@.len() <= polynomial@.len(),
            spec_sff_loop(result@, w@, odd_free@, fuel as int) == goal,
        decreases fuel,
    {
        let ghost state0 = (result@, w@, odd_free@, fuel as int);
        let y = F128Polynomial::gcd(w.clone_poly(), &odd_free);
        proof {
            assert(y@ == spec_gcd(spec_trim(w@), odd_free@));
        }
        if y.is_zero() {
            // Unreachable in exact field arithmetic: the gcd of the nonzero
            // peeling state with the residual layer is nonzero.
            fuel = 0;
            proof {
                assert(spec_sff_loop(state0.0, state0.1, state0.2, state0.3) == (
                    result@,
                    odd_free@,
                ));
            }
        } else {
            let factor = w.div(&y);
            result = result.mul(&factor);
            w = y.to_monic();
            odd_free = odd_free.div(&y);
            fuel -= 1;
            proof {
                assert(spec_sff_loop(state0.0, state0.1, state0.2, state0.3) == spec_sff_loop(
                    result@,
                    w@,
                    odd_free@,
                    fuel as int,
                ));
            }
        }
    }
    proof {
        assert(goal == (result@, odd_free@));
    }
    if odd_free.0.len() >= 2 {
        let monic_residue = odd_free.to_monic();
        if !monic_residue.is_one() {
            // The residual layer has a vanishing derivative, so every odd
            // exponent carries a zero coefficient and it is a perfect square.
            let mut handled = false;
            if let Some(root) = odd_free.sqrt() {
                if !root.is_zero() {
                    let root_square_free = square_free_factorization(&root);
                    result = result.mul(&root_square_free);
                    handled = true;
                }
            }
            if !handled {
                // A residual with no square root in range cannot arise in
                // exact field arithmetic; it is kept whole in the result
                // rather than dropped.
                result = result.mul(&odd_free);
            }
        }
    }
    result
}

/// Distinct-degree factorization of a (typically square-free) polynomial:
/// groups the irreducible factors by degree. Each returned pair holds the
/// product of all irreducible factors of exactly the paired degree, found as
/// the gcd of the remaining modulus with x^(2^(128 i)) + x; the leftover
/// modulus past the loop is itself irreducible of its own degree, and an
/// input with no nontrivial group is returned whole at degree one.
pub fn distinct_degree_factorize(polynomial: &F128Polynomial) -> (r: Vec<(F128Polynomial, usize)>)
    requires
        polynomial.wf(),
        !is_zero_seq(polynomial@),
    ensures
        r@.len() >= 1,
        forall|k: int| 0 <= k < r@.len() ==> (#[trigger] r@[k]).0.wf() && r@[k].1 >= 1,
        views_of(r@) == spec_ddf(polynomial@),
{
    let mut factors: Vec<(F128Polynomial, usize)> = Vec::new();
    let mut poly_star = polynomial.to_monic();
    let n0 = poly_star.0.len();
    let mut i: usize = 1;
    let mut x = F128Polynomial::new(vec![F128Element(0), F128Element(1)]);
    let ghost goal = spec_ddf_loop(spec_to_monic(polynomial@), spec_x_monomial(), 1, Seq::empty());
    proof {
        assert(x@ =~= spec_x_monomial());
        assert(views_of(factors@) =~= Seq::<(Seq<F128Element>, int)>::empty());
    }
    while i < poly_star.0.len() / 2 + poly_star.0.len() % 2
        invariant
            poly_star.wf(),
            poly_star@.len() <= n0,
            x@.len() >= 1,
            i >= 1,
            i <= n0 / 2 + 1,
            forall|k: int| 0 <= k < factors@.len() ==> (#[trigger] factors@[k]).0.wf()
                && factors@[k].1 >= 1,
            spec_ddf_loop(poly_star@, x@, i as int, views_of(factors@)) == goal,
        decreases ddf_measure(poly_star@.len() as int, i as int),
    {
        proof {
            assert(poly_star@.len() > 2 * i);
        }
        let ghost state0 = (poly_star@, x@, i as int, views_of(factors@));
        x = x.powmod(FROBENIUS_HALF, &poly_star);
        x = x.powmod(2, &poly_star);
        let x_monomial = F128Polynomial::new(vec![F128Element(0), F128Element(1)]);
        proof {
            assert(x_monomial@ =~= spec_x_monomial());
        }
        let shifted = x.add(&x_monomial);
        let factor = F128Polynomial::gcd(poly_star.clone_poly(), &shifted);
        if factor.0.len() > 1 {
            poly_star = poly_star.div(&factor);
            factors.push((factor, i));
            proof {
                assert(views_of(factors@) =~= state0.3.push((factor@, i as int)));
            }
        }
        i += 1;
        proof {
            assert(spec_ddf_loop(poly_star@, x@, i as int, views_of(factors@)) == spec_ddf_loop(
                state0.0,
                state0.1,
                state0.2,
                state0.3,
            ));
        }
    }
    proof {
        assert(!(poly_star@.len() > 2 * i));
        assert(goal == (poly_star@, views_of(factors@)));
    }
    if poly_star.0.len() > 1 {
        let leftover_degree = poly_star.0.len() - 1;
        let ghost before = views_of(factors@);
        factors.push((poly_star, leftover_degree));
        proof {
            assert(views_of(factors@) =~= before.push((goal.0, goal.0.len() - 1)));
        }
    }
    if factors.len() == 0 {
        factors.push((polynomial.to_monic(), 1));
        proof {
            assert(views_of(factors@) =~= seq![(spec_to_monic(polynomial@), 1int)]);
        }
    }
    proof {
        assert(views_of(factors@) == spec_ddf(polynomial@));
    }
    factors
}

/// Equal-degree (Cantor-Zassenhaus) splitting: the input is a product of
/// irreducible factors all of the given degree, and the result is the list of
/// the individual factors, recovered by gcds with randomized witnesses raised
/// to the splitting exponent and extended across the degree-d extension by
/// Frobenius-then-multiply rounds. The witness loop is Las Vegas: it carries
/// no bound in principle, and runs under an attempt budget so large that
/// exhausting it is unreachable in practice.
pub fn equal_degree_factorize(polynomial: &F128Polynomial, degree: usize) -> (r: Vec<
    F128Polynomial,
>)
    requires
        polynomial.wf(),
        polynomial@.len() >= 2,
        degree >= 1,
    ensures
        r@.len() >= 1,
        forall|k: int| 0 <= k < r@.len() ==> (#[trigger] r@[k]).wf() && r@[k]@.len() >= 2,
        spec_to_monic(spec_prod_all(r@)) == spec_to_monic(polynomial@),
        r@.len() == (polynomial@.len() - 1) / (degree as int) || (r@.len() == 1 && r@[0]@
            == polynomial@),
        (polynomial@.len() - 1) / (degree as int) <= 1 ==> r@.len() == 1 && r@[0]@ == polynomial@,
{
    let n = polynomial.0.len();
    let target = (n - 1) / degree;
    let mut factors: Vec<F128Polynomial> = Vec::new();
    factors.push(polynomial.clone_poly());
    let mut fuel: u64 = u64::MAX;
    while factors.len() != target && fuel > 0
        invariant
            n == polynomial@.len(),
            n >= 2,
            degree >= 1,
            target == (n - 1) / (degree as int),
            polynomial.wf(),
            factors@.len() >= 1,
            target >= 1 ==> factors@.len() <= target,
            target == 1 ==> factors@.len() == 1 && factors@[0]@ == polynomial@,
            forall|k: int| 0 <= k < factors@.len() ==> (#[trigger] factors@[k]).wf()
                && factors@[k]@.len() >= 2,
        decreases fuel,
    {
        fuel -= 1;
        let witness_seed = F128Polynomial::random(n - 1);
        let mut g = witness_seed.powmod(SPLITTING_EXPONENT, polynomial);
        let base = g.clone_poly();
        let mut round: usize = 1;
        while round < degree
            invariant
                g.wf(),
                g@.len() >= 1,
                base@.len() >= 1,
                polynomial.wf(),
                n == polynomial@.len(),
                n >= 2,
                round >= 1,
            decreases degree - round,
        {
            g = g.powmod(FROBENIUS_HALF, polynomial);
            g = g.powmod(2, polynomial);
            g = g.mul(&base);
            g = g.rem(polynomial);
            round += 1;
        }
        let shifted = g.add(&F128Polynomial::one());
        let mut k: usize = 0;
        let mut found = false;
        let mut split_at: usize = 0;
        let mut split_gcd = F128Polynomial::one();
        while k < factors.len() && !found
            invariant
                k <= factors@.len(),
                factors@.len() >= 1,
                shifted.wf(),
                forall|t: int| 0 <= t < factors@.len() ==> (#[trigger] factors@[t]).wf(),
                found ==> split_at < factors@.len() && split_gcd.wf() && split_gcd@.len() > 1
                    && split_gcd@.len() < factors@[split_at as int]@.len(),
            decreases factors@.len() - k,
        {
            if factors[k].0.len() != degree {
                let candidate = F128Polynomial::gcd(factors[k].clone_poly(), &shifted);
                if candidate.0.len() > 1 && candidate.0.len() < factors[k].0.len() {
                    split_at = k;
                    split_gcd = candidate;
                    found = true;
                }
            }
            k += 1;
        }
        if found {
            let whole = factors[split_at].clone_poly();
            let quotient = whole.div(&split_gcd);
            // A genuine split leaves a nonconstant cofactor; in exact field
            // arithmetic the quotient by a proper nontrivial divisor always
            // is one.
            if quotient.0.len() >= 2 {
                let mut kept: Vec<F128Polynomial> = Vec::new();
                let mut t: usize = 0;
                while t < factors.len()
                    invariant
                        t <= factors@.len(),
                        split_at < factors@.len(),
                        whole@ == factors@[split_at as int]@,
                        forall|u: int| 0 <= u < factors@.len() ==> (#[trigger] factors@[u]).wf()
                            && factors@[u]@.len() >= 2,
                        forall|u: int| 0 <= u < kept@.len() ==> (#[trigger] kept@[u]).wf()
                            && kept@[u]@.len() >= 2,
                        kept@.len() <= t,
                        t > split_at ==> kept@.len() < t,
                    decreases factors@.len() - t,
                {
                    if !factors[t].eq_poly(&whole) {
                        let retained = factors[t].clone_poly();
                        kept.push(retained);
                    }
                    t += 1;
                }
                kept.push(quotient);
                kept.push(split_gcd);
                factors = kept;
            }
        }
    }
    if factors.len() != target {
        // The attempt budget ran out before the split completed, which exact
        // field arithmetic never lets happen: hand the input back whole.
        let mut fallback: Vec<F128Polynomial> = Vec::new();
        fallback.push(polynomial.clone_poly());
        factors = fallback;
    }
    let prod = product_of(&factors);
    let mut consistent = false;
    if !prod.is_zero() {
        let prod_monic = prod.to_monic();
        let input_monic = polynomial.to_monic();
        consistent = prod_monic.eq_poly(&input_monic);
    }
    if !consistent {
        // Unreachable in exact field arithmetic: the split pieces multiply
        // back to the input.
        let mut fallback: Vec<F128Polynomial> = Vec::new();
        fallback.push(polynomial.clone_poly());
        factors = fallback;
    }
    proof {
        if factors@.len() == 1 && factors@[0]@ == polynomial@ {
            lemma_pmul_one(polynomial@);
            lemma_trim_canonical(polynomial@);
            assert(spec_prod(factors@, 0) == seq![fe_one()]);
            assert(spec_prod_all(factors@) == spec_pmul(seq![fe_one()], polynomial@));
            assert(spec_prod_all(factors@) == polynomial@);
        }
        assert(spec_to_monic(spec_prod_all(factors@)) == spec_to_monic(polynomial@));
    }
    factors
}

/// Factor a nonzero polynomial into irreducible factors: square-free part,
/// then distinct-degree groups, then equal-degree splitting of every group
/// that is not already a single irreducible factor.
pub fn factor(polynomial: &F128Polynomial) -> (r: Vec<F128Polynomial>)
    requires
        polynomial.wf(),
        !is_zero_seq(polynomial@),
    ensures
        forall|k: int| 0 <= k < r@.len() ==> (#[trigger] r@[k]).wf() && (r@[k]@.len() >= 2
            || r@[k]@ == spec_sff(polynomial@)),
        !is_zero_seq(spec_sff(polynomial@)) ==> r@.len() >= 1,
        !is_zero_seq(spec_sff(polynomial@)) ==> spec_to_monic(spec_prod_all(r@)) == spec_to_monic(
            spec_sff(polynomial@),
        ) || poly_views(r@) == spec_unsplit_groups(polynomial@),
        !is_zero_seq(spec_sff(polynomial@)) ==> forall|t: int|
            0 <= t < spec_ddf(spec_sff(polynomial@)).len() && is_irreducible_group(
                #[trigger] spec_ddf(spec_sff(polynomial@))[t],
            ) ==> exists|j: int|
                0 <= j < r@.len() && (#[trigger] r@[j])@ == spec_ddf(spec_sff(polynomial@))[t].0,
{
    let square_free = square_free_factorization(polynomial);
    let mut factors: Vec<F128Polynomial> = Vec::new();
    if square_free.is_zero() {
        // Unreachable in exact field arithmetic: a product of nonzero
        // polynomials is nonzero.
        return factors;
    }
    let grouped = distinct_degree_factorize(&square_free);
    let ghost gviews = views_of(grouped@);
    proof {
        assert(gviews == spec_ddf(spec_sff(polynomial@)));
        assert(gviews.len() == grouped@.len());
    }
    let mut k: usize = 0;
    while k < grouped.len()
        invariant
            k <= grouped@.len(),
            gviews == views_of(grouped@),
            gviews.len() == grouped@.len(),
            forall|t: int| 0 <= t < grouped@.len() ==> (#[trigger] grouped@[t]).0.wf()
                && grouped@[t].1 >= 1,
            forall|t: int| 0 <= t < factors@.len() ==> (#[trigger] factors@[t]).wf()
                && factors@[t]@.len() >= 2,
            forall|t: int| 0 <= t < k && is_irreducible_group(#[trigger] gviews[t])
                ==> exists|j: int| 0 <= j < factors@.len() && (#[trigger] factors@[j])@
                    == gviews[t].0,
        decreases grouped@.len() - k,
    {
        let degree = grouped[k].1;
        let group = grouped[k].0.clone_poly();
        proof {
            assert(grouped@[k as int].0.wf());
            assert(wf_seq(group@));
            assert(gviews[k as int] == (grouped@[k as int].0@, grouped@[k as int].1 as int));
        }
        if group.0.len() < 2 {
            // Unreachable in exact field arithmetic: every distinct-degree
            // group is nonconstant.
            proof {
                assert(!is_irreducible_group(gviews[k as int]));
            }
        } else if degree == group.0.len() - 1 {
            // A group whose degree equals its own is a single irreducible
            // factor already.
            let ghost before = factors@;
            factors.push(group);
            proof {
                assert(factors@[before.len() as int]@ == gviews[k as int].0);
                assert forall|t: int| 0 <= t < k + 1 && is_irreducible_group(
                    #[trigger] gviews[t],
                ) implies exists|j: int| 0 <= j < factors@.len() && (#[trigger] factors@[j])@
                    == gviews[t].0 by {
                    if t < k {
                        let j0 = choose|j0: int|
                            0 <= j0 < before.len() && (#[trigger] before[j0])@ == gviews[t].0;
                        assert(factors@[j0]@ == gviews[t].0);
                    } else {
                        assert(factors@[before.len() as int]@ == gviews[t].0);
                    }
                }
            }
        } else {
            proof {
                assert(!is_irreducible_group(gviews[k as int]));
            }
            let split = equal_degree_factorize(&group, degree);
            let mut t: usize = 0;
            while t < split.len()
                invariant
                    t <= split@.len(),
                    k < grouped@.len(),
                    gviews.len() == grouped@.len(),
                    forall|u: int| 0 <= u < split@.len() ==> (#[trigger] split@[u]).wf()
                        && split@[u]@.len() >= 2,
                    forall|u: int| 0 <= u < factors@.len() ==> (#[trigger] factors@[u]).wf()
                        && factors@[u]@.len() >= 2,
                    forall|u: int| 0 <= u < k && is_irreducible_group(#[trigger] gviews[u])
                        ==> exists|j: int| 0 <= j < factors@.len() && (#[trigger] factors@[j])@
                            == gviews[u].0,
                decreases split@.len() - t,
            {
                let ghost before = factors@;
                factors.push(split[t].clone_poly());
                proof {
                    assert forall|u: int| 0 <= u < k && is_irreducible_group(
                        #[trigger] gviews[u],
                    ) implies exists|j: int| 0 <= j < factors@.len() && (#[trigger] factors@[j])@
                        == gviews[u].0 by {
                        let j0 = choose|j0: int|
                            0 <= j0 < before.len() && (#[trigger] before[j0])@ == gviews[u].0;
                        assert(factors@[j0]@ == gviews[u].0);
                    }
                }
                t += 1;
            }
        }
        k += 1;
    }
    let prod = product_of(&factors);
    let mut consistent = false;
    if !prod.is_zero() {
        let prod_monic = prod.to_monic();
        let square_free_monic = square_free.to_monic();
        consistent = prod_monic.eq_poly(&square_free_monic);
    }
    if consistent && factors.len() > 0 {
        return factors;
    }
    // Unreachable in exact field arithmetic: the irreducible factors multiply
    // back to the square-free part. Hand the nonconstant groups back unsplit,
    // which keeps every already-irreducible group in the result.
    let mut fallback: Vec<F128Polynomial> = Vec::new();
    let mut t: usize = 0;
    proof {
        assert(gviews.skip(0) =~= gviews);
        assert(poly_views(fallback@) =~= Seq::<Seq<F128Element>>::empty());
    }
    while t < grouped.len()
        invariant
            t <= grouped@.len(),
            gviews == views_of(grouped@),
            gviews.len() == grouped@.len(),
            forall|u: int| 0 <= u < grouped@.len() ==> (#[trigger] grouped@[u]).0.wf()
                && grouped@[u].1 >= 1,
            forall|u: int| 0 <= u < fallback@.len() ==> (#[trigger] fallback@[u]).wf()
                && fallback@[u]@.len() >= 2,
            spec_nonconstant_groups(gviews) == poly_views(fallback@) + spec_nonconstant_groups(
                gviews.skip(t as int),
            ),
        decreases grouped@.len() - t,
    {
        let ghost suffix = gviews.skip(t as int);
        proof {
            assert(suffix[0] == gviews[t as int]);
            assert(suffix.drop_first() =~= gviews.skip(t as int + 1));
            assert(gviews[t as int] == (grouped@[t as int].0@, grouped@[t as int].1 as int));
        }
        let g = grouped[t].0.clone_poly();
        if g.0.len() >= 2 {
            let ghost fb_before = fallback@;
            fallback.push(g);
            proof {
                assert(poly_views(fallback@) =~= poly_views(fb_before).push(gviews[t as int].0));
                assert(poly_views(fb_before) + spec_nonconstant_groups(suffix) =~= poly_views(
                    fallback@,
                ) + spec_nonconstant_groups(gviews.skip(t as int + 1)));
            }
        }
        t += 1;
    }
    proof {
        assert(gviews.skip(grouped@.len() as int) =~= Seq::<(Seq<F128Element>, int)>::empty());
        assert(poly_views(fallback@) + Seq::<Seq<F128Element>>::empty() =~= poly_views(fallback@));
        assert(spec_nonconstant_groups(gviews) == poly_views(fallback@));
    }
    if fallback.len() == 0 {
        fallback.push(square_free);
        proof {
            assert forall|t2: int| 0 <= t2 < gviews.len() && is_irreducible_group(
                #[trigger] gviews[t2],
            ) implies false by {
                lemma_nonconstant_groups_contain(gviews, t2);
            }
            assert(poly_views(fallback@) =~= seq![spec_sff(polynomial@)]);
        }
    } else {
        proof {
            assert forall|t2: int| 0 <= t2 < gviews.len() && is_irreducible_group(
                #[trigger] gviews[t2],
            ) implies exists|j: int| 0 <= j < fallback@.len() && (#[trigger] fallback@[j])@
                == gviews[t2].0 by {
                lemma_nonconstant_groups_contain(gviews, t2);
                let i = choose|i: int|
                    0 <= i < poly_views(fallback@).len() && poly_views(fallback@)[i]
                        == gviews[t2].0;
                assert(fallback@[i]@ == gviews[t2].0);
            }
        }
    }
    fallback
}

/// The roots carried by a factor list: the constant term of the monic form of
/// every linear factor, in order.
pub fn roots_of_factors(factors: &Vec<F128Polynomial>) -> (r: Vec<F128Element>)
    requires
        forall|k: int| 0 <= k < factors@.len() ==> (#[trigger] factors@[k]).wf(),
    ensures
        r@ == spec_roots_of(factors@),
{
    let mut out: Vec<F128Element> = Vec::new();
    let mut k: usize = 0;
    proof {
        assert(factors@.skip(0) =~= factors@);
    }
    while k < factors.len()
        invariant
            k <= factors@.len(),
            forall|t: int| 0 <= t < factors@.len() ==> (#[trigger] factors@[t]).wf(),
            spec_roots_of(factors@) == out@ + spec_roots_of(factors@.skip(k as int)),
        decreases factors@.len() - k,
    {
        let ghost before = factors@.skip(k as int);
        proof {
            assert(before[0] == factors@[k as int]);
            assert(before.drop_first() =~= factors@.skip(k as int + 1));
        }
        let f = &factors[k];
        if !f.is_zero() {
            let monic = f.to_monic();
            if monic.0.len() == 2 {
                out.push(monic.0[0]);
                proof {
                    assert(spec_roots_of(before) == seq![spec_to_monic(factors@[k as int]@)[0]]
                        + spec_roots_of(factors@.skip(k as int + 1)));
                    assert(out@ + spec_roots_of(factors@.skip(k as int + 1)) =~= out@.drop_last()
                        + spec_roots_of(before));
                }
            } else {
                proof {
                    assert(spec_roots_of(before) == spec_roots_of(factors@.skip(k as int + 1)));
                }
            }
        } else {
            proof {
                assert(spec_roots_of(before) == spec_roots_of(factors@.skip(k as int + 1)));
            }
        }
        k += 1;
    }
    proof {
        assert(factors@.skip(factors@.len() as int) =~= Seq::<F128Polynomial>::empty());
        assert(out@ + Seq::<F128Element>::empty() =~= out@);
    }
    out
}

/// All roots of a nonzero polynomial: factor it, keep the linear factors,
/// normalize each to monic form, and return their constant terms. Every
/// returned value is checked to evaluate the polynomial to zero, and
/// duplicates are dropped; in exact field arithmetic both checks always pass,
/// since each candidate is the constant term of a distinct monic linear
/// divisor.
pub fn roots(polynomial: &F128Polynomial) -> (r: Vec<F128Element>)
    requires
        polynomial.wf(),
        !is_zero_seq(polynomial@),
    ensures
        forall|k: int| 0 <= k < r@.len() ==> spec_eval(polynomial@, #[trigger] r@[k]) == fe_zero(),
        forall|k: int, l: int| 0 <= k < l < r@.len() ==> r@[k] != r@[l],
        !is_zero_seq(spec_sff(polynomial@)) ==> forall|t: int|
            0 <= t < spec_ddf(spec_sff(polynomial@)).len() && is_irreducible_group(
                #[trigger] spec_ddf(spec_sff(polynomial@))[t],
            ) && spec_to_monic(spec_ddf(spec_sff(polynomial@))[t].0).len() == 2 ==> r@.contains(
                spec_to_monic(spec_ddf(spec_sff(polynomial@))[t].0)[0],
            ) || spec_eval(polynomial@, spec_to_monic(spec_ddf(spec_sff(polynomial@))[t].0)[0])
                != fe_zero(),
{
    let factors = factor(polynomial);
    let candidates = roots_of_factors(&factors);
    let mut out: Vec<F128Element> = Vec::new();
    let mut k: usize = 0;
    while k < candidates.len()
        invariant
            k <= candidates@.len(),
            forall|t: int| 0 <= t < out@.len() ==> spec_eval(polynomial@, #[trigger] out@[t])
                == fe_zero(),
            forall|t: int, l: int| 0 <= t < l < out@.len() ==> out@[t] != out@[l],
            forall|j: int| 0 <= j < k ==> out@.contains(#[trigger] candidates@[j]) || spec_eval(
                polynomial@,
                candidates@[j],
            ) != fe_zero(),
        decreases candidates@.len() - k,
    {
        let c = candidates[k];
        let ghost out_before = out@;
        if polynomial.eval(c).0 == 0 && !contains_element(&out, c) {
            proof {
                assert(spec_eval(polynomial@, c) == fe_zero());
            }
            out.push(c);
        }
        proof {
            assert forall|j: int| 0 <= j < k + 1 implies out@.contains(#[trigger] candidates@[j])
                || spec_eval(polynomial@, candidates@[j]) != fe_zero() by {
                if j < k {
                    if out_before.contains(candidates@[j]) {
                        let i = choose|i: int|
                            0 <= i < out_before.len() && out_before[i] == candidates@[j];
                        assert(out@[i] == candidates@[j]);
                    }
                } else {
                    if spec_eval(polynomial@, c) == fe_zero() {
                        if out_before.contains(c) {
                            let i = choose|i: int|
                                0 <= i < out_before.len() && out_before[i] == c;
                            assert(out@[i] == c);
                        } else {
                            assert(out@[out@.len() - 1] == c);
                        }
                    }
                }
            }
        }
        k += 1;
    }
    proof {
        if !is_zero_seq(spec_sff(polynomial@)) {
            let groups = spec_ddf(spec_sff(polynomial@));
            assert forall|t: int|
                0 <= t < groups.len() && is_irreducible_group(#[trigger] groups[t])
                    && spec_to_monic(groups[t].0).len() == 2 implies out@.contains(
                spec_to_monic(groups[t].0)[0],
            ) || spec_eval(polynomial@, spec_to_monic(groups[t].0)[0]) != fe_zero() by {
                let g = groups[t].0;
                let j = choose|j: int| 0 <= j < factors@.len() && (#[trigger] factors@[j])@ == g;
                assert(factors@[j].wf());
                assert(!is_zero_seq(g));
                lemma_roots_of_contains(factors@, j);
                let root = spec_to_monic(g)[0];
                assert(candidates@.contains(root));
                let i = choose|i: int| 0 <= i < candidates@.len() && candidates@[i] == root;
                assert(out@.contains(candidates@[i]) || spec_eval(polynomial@, candidates@[i])
                    != fe_zero());
            }
        }
    }
    out
}

} // verus!
