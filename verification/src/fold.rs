//! The FRI fold: splitting a polynomial into even- and odd-indexed
//! coefficients and recombining them with a challenge scalar, plus the
//! recursive layer generation that folds until a constant remains.

use vstd::prelude::*;

use crate::arith::{divides, exact_quot, in_i64, lemma_exact_quot_unique};
use crate::errors::FriError;
use crate::poly::{add_coeffs, add_fits, lemma_poly_eval_step, poly_eval, Polynomial};
use vstd::arithmetic::power2::pow2;

verus! {

/// The even-indexed coefficients of `s` (positions 0, 2, 4, ...),
/// relative order preserved.
pub open spec fn even_coeffs(s: Seq<int>) -> Seq<int> {
    Seq::new(((s.len() + 1) / 2) as nat, |i: int| s[2 * i])
}

/// The odd-indexed coefficients of `s` (positions 1, 3, 5, ...),
/// relative order preserved.
pub open spec fn odd_coeffs(s: Seq<int>) -> Seq<int> {
    Seq::new((s.len() / 2) as nat, |i: int| s[2 * i + 1])
}

/// Every coefficient of `s` multiplied by the scalar `beta`.
pub open spec fn scale_coeffs(beta: int, s: Seq<int>) -> Seq<int> {
    Seq::new(s.len(), |i: int| beta * s[i])
}

/// The coefficients of the fold of `s` by `beta`: the even-indexed
/// subsequence plus `beta` times the odd-indexed subsequence, aligned
/// position by position.
pub open spec fn fold_spec(s: Seq<int>, beta: int) -> Seq<int> {
    add_coeffs(even_coeffs(s), scale_coeffs(beta, odd_coeffs(s)))
}

/// Every machine-integer step of [`fold_polynomial`] fits in an
/// `i64`: each scaled odd coefficient, and each coefficient sum.
pub open spec fn fold_fits(s: Seq<int>, beta: int) -> bool {
    &&& forall|i: int|
        0 <= i < odd_coeffs(s).len() ==> in_i64(beta * #[trigger] odd_coeffs(s)[i])
    &&& add_fits(even_coeffs(s), scale_coeffs(beta, odd_coeffs(s)))
}

/// Every fold along the way from `s` down to a constant fits in
/// machine integers.  This is exactly the condition under which
/// [`recursively_fold_polynomials`] succeeds.
pub open spec fn chain_fits(s: Seq<int>, beta: int) -> bool
    decreases s.len(),
{
    s.len() <= 1 || (fold_fits(s, beta) && chain_fits(fold_spec(s, beta), beta))
}

/// `ls` is the full fold sequence of `p` by `beta`: layer 0 is `p`
/// itself, each next layer is the fold of the previous one, every
/// layer but the last has at least two coefficients, and the last has
/// at most one.
pub open spec fn layer_chain(p: Seq<int>, beta: int, ls: Seq<Seq<int>>) -> bool {
    &&& ls.len() >= 1
    &&& ls[0] == p
    &&& forall|i: int|
        0 <= i < ls.len() - 1 ==> (#[trigger] ls[i]).len() > 1 && ls[i + 1] == fold_spec(
            ls[i],
            beta,
        )
    &&& ls.last().len() <= 1
}

/// How many layers folding a polynomial of `n` coefficients produces:
/// one for the polynomial itself, plus one per halving.
pub open spec fn layer_count(n: nat) -> nat
    decreases n,
{
    if n <= 1 {
        1
    } else {
        1 + layer_count(((n + 1) / 2) as nat)
    }
}

/// The ceiling of the base-2 logarithm of `n` (0 for `n <= 1`).
pub open spec fn log2_ceil(n: nat) -> nat
    decreases n,
{
    if n <= 1 {
        0
    } else {
        1 + log2_ceil(((n + 1) / 2) as nat)
    }
}

/// The views of a sequence of polynomials.
pub open spec fn layer_views(v: Seq<Polynomial>) -> Seq<Seq<int>> {
    v.map_values(|p: Polynomial| p@)
}

/// Folds `poly` once: partitions its coefficients into the
/// even-indexed and odd-indexed subsequences, multiplies every odd
/// coefficient by `beta`, and adds the two half-length polynomials.
/// The result has `⌈n/2⌉` coefficients for an input of `n`.
pub fn fold_polynomial(poly: &Polynomial, beta: i64) -> (r: Result<Polynomial, FriError>)
    ensures
        r is Ok <==> fold_fits(poly@, beta as int),
        r is Ok ==> r->Ok_0@ == fold_spec(poly@, beta as int),
        r is Ok ==> r->Ok_0@.len() == (poly@.len() + 1) / 2,
        r is Err ==> r->Err_0 == FriError::ArithmeticOverflow,
{
    let ghost s = poly@;
    let ghost bi = beta as int;
    let n = poly.coefficient_count();
    let even_len = n - n / 2;
    let odd_len = n / 2;
    assert(even_len == (n + 1) / 2);

    let mut even: Vec<i64> = Vec::new();
    let mut i: usize = 0;
    while i < even_len
        invariant
            0 <= i <= even_len,
            s == poly@,
            n == s.len(),
            even_len == (n + 1) / 2,
            even@.len() == i,
            forall|k: int| 0 <= k < i ==> even@[k] == even_coeffs(s)[k],
        decreases even_len - i,
    {
        even.push(poly.coefficient(2 * i));
        i = i + 1;
    }

    let mut odd: Vec<i64> = Vec::new();
    let mut j: usize = 0;
    while j < odd_len
        invariant
            0 <= j <= odd_len,
            s == poly@,
            bi == beta as int,
            n == s.len(),
            odd_len == n / 2,
            odd@.len() == j,
            forall|k: int|
                0 <= k < j ==> odd@[k] == scale_coeffs(bi, odd_coeffs(s))[k] && in_i64(
                    bi * #[trigger] odd_coeffs(s)[k],
                ),
        decreases odd_len - j,
    {
        let c = poly.coefficient(2 * j + 1);
        let v = match c.checked_mul(beta) {
            Some(v) => v,
            None => {
                assert(c as int * bi == bi * odd_coeffs(s)[j as int]) by (nonlinear_arith)
                    requires
                        c as int == odd_coeffs(s)[j as int],
                ;
                assert(!fold_fits(s, bi));
                return Err(FriError::ArithmeticOverflow);
            },
        };
        assert(c as int * bi == bi * odd_coeffs(s)[j as int]) by (nonlinear_arith)
            requires
                c as int == odd_coeffs(s)[j as int],
        ;
        odd.push(v);
        j = j + 1;
    }

    let even_poly = Polynomial::new(even);
    let odd_poly = Polynomial::new(odd);
    assert(even_poly@ =~= even_coeffs(s));
    assert(odd_poly@ =~= scale_coeffs(bi, odd_coeffs(s)));

    match even_poly.add(&odd_poly) {
        Ok(p) => {
            assert(p@.len() == (s.len() + 1) / 2);
            Ok(p)
        },
        Err(e) => {
            assert(!fold_fits(s, bi));
            Err(e)
        },
    }
}

/// Repeatedly folds `poly` by `beta`, collecting every intermediate
/// polynomial — the original included, as layer 0 — until a layer has
/// at most one coefficient.  Produces exactly
/// `layer_count(n) == log2_ceil(n) + 1` layers for `n` coefficients.
pub fn recursively_fold_polynomials(poly: Polynomial, beta: i64) -> (r: Result<
    Vec<Polynomial>,
    FriError,
>)
    ensures
        r is Ok <==> chain_fits(poly@, beta as int),
        r is Ok ==> layer_chain(poly@, beta as int, layer_views(r->Ok_0@)),
        r is Ok ==> r->Ok_0@.len() == layer_count(poly@.len()),
        r is Ok && poly@.len() >= 1 ==> layer_views(r->Ok_0@).last().len() == 1,
        r is Err ==> r->Err_0 == FriError::ArithmeticOverflow,
{
    let ghost p0 = poly@;
    let ghost bi = beta as int;
    let mut layers: Vec<Polynomial> = Vec::new();
    let ghost mut vs: Seq<Seq<int>> = Seq::empty();
    let mut current = poly;
    loop
        invariant_except_break
            bi == beta as int,
            p0 == poly@,
            vs == layer_views(layers@),
            vs.len() == 0 ==> current@ == p0,
            vs.len() >= 1 ==> vs[0] == p0,
            forall|i: int|
                0 <= i < vs.len() - 1 ==> (#[trigger] vs[i]).len() > 1 && vs[i + 1] == fold_spec(
                    vs[i],
                    bi,
                ),
            vs.len() >= 1 ==> vs.last().len() > 1 && current@ == fold_spec(vs.last(), bi),
            chain_fits(p0, bi) <==> chain_fits(current@, bi),
            layer_count(p0.len()) == vs.len() + layer_count(current@.len()),
        ensures
            chain_fits(p0, bi),
            layer_chain(p0, bi, layer_views(layers@)),
            layers@.len() == layer_count(p0.len()),
        decreases current@.len(),
    {
        let n = current.coefficient_count();
        if n <= 1 {
            let ghost before = layers@;
            proof {
                vs = vs.push(current@);
            }
            layers.push(current);
            proof {
                assert(vs =~= layer_views(layers@)) by {
                    assert(forall|i: int|
                        0 <= i < before.len() ==> layer_views(layers@)[i] == #[trigger] layer_views(
                            before,
                        )[i]);
                }
                assert(layer_chain(p0, bi, vs));
            }
            break ;
        }
        let next = match fold_polynomial(&current, beta) {
            Ok(p) => p,
            Err(e) => {
                assert(!chain_fits(current@, bi));
                return Err(e);
            },
        };
        let ghost before = layers@;
        proof {
            vs = vs.push(current@);
        }
        layers.push(current);
        current = next;
        proof {
            assert(vs =~= layer_views(layers@)) by {
                assert(forall|i: int|
                    0 <= i < before.len() ==> layer_views(layers@)[i] == #[trigger] layer_views(
                        before,
                    )[i]);
            }
        }
    }
    proof {
        if p0.len() >= 1 {
            lemma_chain_nonempty_terminal(p0, bi, layer_views(layers@));
        }
    }
    Ok(layers)
}

/// A full fold sequence for a polynomial of `n` coefficients has
/// exactly `layer_count(n)` layers.
pub proof fn lemma_chain_length(p: Seq<int>, beta: int, ls: Seq<Seq<int>>)
    requires
        layer_chain(p, beta, ls),
    ensures
        ls.len() == layer_count(p.len()),
    decreases ls.len(),
{
    if p.len() <= 1 {
        if ls.len() >= 2 {
            assert(ls[0].len() > 1);
        }
    } else {
        assert(ls[0].len() == p.len());
        assert(ls.len() >= 2) by {
            if ls.len() == 1 {
                assert(ls.last() == p);
            }
        }
        let tail = ls.skip(1);
        assert(ls[1] == fold_spec(p, beta));
        assert(layer_chain(fold_spec(p, beta), beta, tail)) by {
            assert(tail[0] == ls[1]);
            assert(forall|i: int|
                0 <= i < tail.len() - 1 ==> (#[trigger] tail[i]).len() > 1 && tail[i + 1]
                    == fold_spec(tail[i], beta)) by {
                assert(forall|i: int| 0 <= i < tail.len() ==> tail[i] == ls[i + 1]);
            }
            assert(tail.last() == ls.last());
        }
        lemma_chain_length(fold_spec(p, beta), beta, tail);
    }
}

/// A nonempty polynomial's fold sequence ends in exactly one
/// coefficient: the terminal layer is a constant.
pub proof fn lemma_chain_nonempty_terminal(p: Seq<int>, beta: int, ls: Seq<Seq<int>>)
    requires
        layer_chain(p, beta, ls),
        p.len() >= 1,
    ensures
        ls.last().len() == 1,
    decreases ls.len(),
{
    if p.len() == 1 {
        if ls.len() >= 2 {
            assert(ls[0].len() > 1);
        }
        assert(ls.last() == p);
    } else {
        assert(ls.len() >= 2) by {
            if ls.len() == 1 {
                assert(ls.last() == p);
            }
        }
        let tail = ls.skip(1);
        assert(layer_chain(fold_spec(p, beta), beta, tail)) by {
            assert(forall|i: int| 0 <= i < tail.len() ==> tail[i] == ls[i + 1]);
            assert(tail.last() == ls.last());
        }
        lemma_chain_nonempty_terminal(fold_spec(p, beta), beta, tail);
        assert(tail.last() == ls.last());
    }
}

/// The fold sequence of `p` by `beta` is unique: the whole layer
/// generation is deterministic in its inputs.
pub proof fn lemma_chain_deterministic(p: Seq<int>, beta: int, l1: Seq<Seq<int>>, l2: Seq<
    Seq<int>,
>)
    requires
        layer_chain(p, beta, l1),
        layer_chain(p, beta, l2),
    ensures
        l1 == l2,
    decreases l1.len(),
{
    lemma_chain_length(p, beta, l1);
    lemma_chain_length(p, beta, l2);
    if p.len() <= 1 {
        assert(l1 =~= l2);
    } else {
        assert(l1.len() >= 2 && l2.len() >= 2) by {
            if l1.len() == 1 {
                assert(l1.last() == p);
            }
            if l2.len() == 1 {
                assert(l2.last() == p);
            }
        }
        let t1 = l1.skip(1);
        let t2 = l2.skip(1);
        assert(layer_chain(fold_spec(p, beta), beta, t1)) by {
            assert(forall|i: int| 0 <= i < t1.len() ==> t1[i] == l1[i + 1]);
            assert(t1.last() == l1.last());
        }
        assert(layer_chain(fold_spec(p, beta), beta, t2)) by {
            assert(forall|i: int| 0 <= i < t2.len() ==> t2[i] == l2[i + 1]);
            assert(t2.last() == l2.last());
        }
        lemma_chain_deterministic(fold_spec(p, beta), beta, t1, t2);
        assert(l1 =~= l2) by {
            assert(forall|i: int| 1 <= i < l1.len() ==> l1[i] == t1[i - 1] && l2[i] == t2[i - 1]);
        }
    }
}

/// Evaluation is additive: the padded coefficient-wise sum of two
/// polynomials evaluates to the sum of their evaluations.
pub proof fn lemma_eval_add(a: Seq<int>, b: Seq<int>, x: int)
    ensures
        poly_eval(add_coeffs(a, b), x) == poly_eval(a, x) + poly_eval(b, x),
    decreases a.len() + b.len(),
{
    if a.len() == 0 {
        assert(add_coeffs(a, b) =~= b);
    } else if b.len() == 0 {
        assert(add_coeffs(a, b) =~= a);
    } else {
        let ab = add_coeffs(a, b);
        assert(ab.skip(1) =~= add_coeffs(a.skip(1), b.skip(1)));
        lemma_eval_add(a.skip(1), b.skip(1), x);
        let ea = poly_eval(a.skip(1), x);
        let eb = poly_eval(b.skip(1), x);
        assert(x * (ea + eb) == x * ea + x * eb) by (nonlinear_arith);
    }
}

/// Evaluation is homogeneous: scaling every coefficient by `beta`
/// scales the evaluation by `beta`.
pub proof fn lemma_eval_scale(beta: int, s: Seq<int>, x: int)
    ensures
        poly_eval(scale_coeffs(beta, s), x) == beta * poly_eval(s, x),
    decreases s.len(),
{
    if s.len() == 0 {
        assert(scale_coeffs(beta, s) =~= Seq::<int>::empty());
    } else {
        assert(scale_coeffs(beta, s).skip(1) =~= scale_coeffs(beta, s.skip(1)));
        lemma_eval_scale(beta, s.skip(1), x);
        let e = poly_eval(s.skip(1), x);
        assert(beta * s[0] + x * (beta * e) == beta * (s[0] + x * e)) by (nonlinear_arith);
    }
}

/// The even/odd decomposition identity:
/// `p(x) == p_even(x^2) + x * p_odd(x^2)` for every point `x`.
pub proof fn lemma_even_odd_split(s: Seq<int>, x: int)
    ensures
        poly_eval(s, x) == poly_eval(even_coeffs(s), x * x) + x * poly_eval(
            odd_coeffs(s),
            x * x,
        ),
    decreases s.len(),
{
    let y = x * x;
    if s.len() == 0 {
        assert(even_coeffs(s) =~= Seq::<int>::empty());
        assert(odd_coeffs(s) =~= Seq::<int>::empty());
    } else if s.len() == 1 {
        assert(odd_coeffs(s) =~= Seq::<int>::empty());
        assert(even_coeffs(s).skip(1) =~= Seq::<int>::empty());
        assert(s.skip(1) =~= Seq::<int>::empty());
        assert(poly_eval(s, x) == s[0] + x * poly_eval(s.skip(1), x));
        assert(poly_eval(s, x) == s[0]);
        assert(even_coeffs(s).len() == 1 && even_coeffs(s)[0] == s[0]);
        assert(poly_eval(even_coeffs(s), y) == even_coeffs(s)[0] + y * poly_eval(
            even_coeffs(s).skip(1),
            y,
        ));
        assert(poly_eval(even_coeffs(s), y) == s[0]);
        assert(poly_eval(odd_coeffs(s), y) == 0);
    } else {
        let t = s.skip(2);
        assert(even_coeffs(s).skip(1) =~= even_coeffs(t));
        assert(odd_coeffs(s).skip(1) =~= odd_coeffs(t));
        lemma_even_odd_split(t, x);
        lemma_poly_eval_step(s, x, 0);
        lemma_poly_eval_step(s, x, 1);
        assert(s.skip(0) =~= s);
        let et = poly_eval(even_coeffs(t), y);
        let ot = poly_eval(odd_coeffs(t), y);
        assert(even_coeffs(s)[0] == s[0]);
        assert(odd_coeffs(s)[0] == s[1]);
        assert(poly_eval(even_coeffs(s), y) == even_coeffs(s)[0] + y * poly_eval(
            even_coeffs(s).skip(1),
            y,
        ));
        assert(poly_eval(odd_coeffs(s), y) == odd_coeffs(s)[0] + y * poly_eval(
            odd_coeffs(s).skip(1),
            y,
        ));
        assert(poly_eval(even_coeffs(s), y) == s[0] + y * et);
        assert(poly_eval(odd_coeffs(s), y) == s[1] + y * ot);
        assert(poly_eval(s, x) == s[0] + x * (s[1] + x * poly_eval(t, x)));
        assert(poly_eval(t, x) == et + x * ot);
        assert(s[0] + x * (s[1] + x * (et + x * ot)) == (s[0] + y * et) + x * (s[1] + y * ot))
            by (nonlinear_arith)
            requires
                y == x * x,
        ;
        assert(poly_eval(s, x) == poly_eval(even_coeffs(s), y) + x * poly_eval(
            odd_coeffs(s),
            y,
        ));
    }
}

/// Evaluating a folded polynomial: at any point `y`,
/// `fold(p, beta)(y) == p_even(y) + beta * p_odd(y)`.
pub proof fn lemma_fold_eval(s: Seq<int>, beta: int, y: int)
    ensures
        poly_eval(fold_spec(s, beta), y) == poly_eval(even_coeffs(s), y) + beta * poly_eval(
            odd_coeffs(s),
            y,
        ),
{
    lemma_eval_add(even_coeffs(s), scale_coeffs(beta, odd_coeffs(s)), y);
    lemma_eval_scale(beta, odd_coeffs(s), y);
}

/// The FRI consistency equation.  For any polynomial `s`, challenge
/// `beta` and nonzero point `x`, with `a = s(x)` and `b = s(-x)`:
/// `a + b` is even, `beta * (a - b)` is an exact multiple of `2x`, and
/// the fold evaluated at `x^2` equals
/// `(a + b) / 2 + beta * (a - b) / (2x)` — the inverse of the fold
/// transform at a point, which the layer-consistency check relies on.
pub proof fn lemma_fold_consistency(s: Seq<int>, beta: int, x: int)
    ensures
        poly_eval(s, x) + poly_eval(s, -x) == 2 * poly_eval(even_coeffs(s), x * x),
        poly_eval(s, x) - poly_eval(s, -x) == 2 * x * poly_eval(odd_coeffs(s), x * x),
        x != 0 ==> divides(2, poly_eval(s, x) + poly_eval(s, -x)),
        x != 0 ==> divides(2 * x, beta * (poly_eval(s, x) - poly_eval(s, -x))),
        x != 0 ==> poly_eval(fold_spec(s, beta), x * x) == exact_quot(
            poly_eval(s, x) + poly_eval(s, -x),
            2,
        ) + exact_quot(beta * (poly_eval(s, x) - poly_eval(s, -x)), 2 * x),
{
    let y = x * x;
    let e = poly_eval(even_coeffs(s), y);
    let o = poly_eval(odd_coeffs(s), y);
    lemma_even_odd_split(s, x);
    lemma_even_odd_split(s, -x);
    assert((-x) * (-x) == x * x) by (nonlinear_arith);
    let a = poly_eval(s, x);
    let b = poly_eval(s, -x);
    assert(a == e + x * o);
    assert(b == e + (-x) * o);
    assert((e + x * o) + (e + (-x) * o) == 2 * e) by (nonlinear_arith);
    assert((e + x * o) - (e + (-x) * o) == 2 * x * o) by (nonlinear_arith);
    lemma_fold_eval(s, beta, y);
    if x != 0 {
        lemma_exact_quot_unique(a + b, 2, e);
        assert(beta * (a - b) == (2 * x) * (beta * o)) by (nonlinear_arith)
            requires
                a - b == 2 * x * o,
        ;
        lemma_exact_quot_unique(beta * (a - b), 2 * x, beta * o);
    }
}

/// The layer count is the ceiling of log2, plus one for layer 0.
pub proof fn lemma_layer_count_is_log2_ceil(n: nat)
    ensures
        layer_count(n) == log2_ceil(n) + 1,
    decreases n,
{
    if n > 1 {
        lemma_layer_count_is_log2_ceil(((n + 1) / 2) as nat);
    }
}

/// `log2_ceil` really is the ceiling of the base-2 logarithm:
/// `2^log2_ceil(n)` reaches `n`, and no smaller power of two does.
pub proof fn lemma_log2_ceil_bounds(n: nat)
    requires
        n >= 1,
    ensures
        pow2(log2_ceil(n)) >= n,
        n >= 2 ==> pow2((log2_ceil(n) - 1) as nat) < n,
    decreases n,
{
    vstd::arithmetic::power2::lemma2_to64();
    if n >= 2 {
        let m = ((n + 1) / 2) as nat;
        lemma_log2_ceil_bounds(m);
        let k = log2_ceil(m);
        vstd::arithmetic::power2::lemma_pow2_adds(1, k);
        assert(pow2(1 + k) == 2 * pow2(k));
        if m >= 2 {
            vstd::arithmetic::power2::lemma_pow2_adds(1, (k - 1) as nat);
            assert(pow2(k) == 2 * pow2((k - 1) as nat));
        }
    }
}

} // verus!
