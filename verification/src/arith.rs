//! Shared integer-arithmetic specifications: range predicates and
//! exact (remainder-free) division.

use vstd::prelude::*;

verus! {

/// `v` fits in an `i64`.
pub open spec fn in_i64(v: int) -> bool {
    i64::MIN <= v <= i64::MAX
}

/// `v` fits in an `i128`.
pub open spec fn in_i128(v: int) -> bool {
    i128::MIN <= v <= i128::MAX
}

/// `d` divides `a` exactly.
pub open spec fn divides(d: int, a: int) -> bool {
    exists|q: int| a == #[trigger] (d * q)
}

/// The exact quotient of `a` by `d`; meaningful only when
/// `divides(d, a)` holds and `d != 0`.
pub open spec fn exact_quot(a: int, d: int) -> int {
    choose|q: int| a == #[trigger] (d * q)
}

/// A nonzero divisor determines the exact quotient uniquely.
pub proof fn lemma_exact_quot_unique(a: int, d: int, q: int)
    requires
        d != 0,
        a == d * q,
    ensures
        divides(d, a),
        exact_quot(a, d) == q,
{
    assert(divides(d, a));
    let q2 = exact_quot(a, d);
    assert(a == d * q2);
    assert(d * (q - q2) == 0) by (nonlinear_arith)
        requires
            d * q == d * q2,
    ;
    assert(q == q2) by (nonlinear_arith)
        requires
            d * (q - q2) == 0,
            d != 0,
    ;
}

/// An exact quotient is no larger in magnitude than the dividend,
/// and at most half of it when the divisor's magnitude is at least 2.
pub proof fn lemma_exact_quot_bound(a: int, d: int, q: int)
    requires
        d != 0,
        a == d * q,
    ensures
        -abs_int(a) <= q <= abs_int(a),
        abs_int(d) >= 2 ==> 2 * abs_int(q) <= abs_int(a),
{
    assert(abs_int(d) * abs_int(q) == abs_int(a)) by (nonlinear_arith)
        requires
            a == d * q,
            abs_int(d) == if d >= 0 { d } else { -d },
            abs_int(q) == if q >= 0 { q } else { -q },
            abs_int(a) == if a >= 0 { a } else { -a },
    ;
    assert(abs_int(q) <= abs_int(d) * abs_int(q)) by (nonlinear_arith)
        requires
            abs_int(d) >= 1,
            abs_int(q) >= 0,
    ;
    assert(abs_int(d) >= 2 ==> 2 * abs_int(q) <= abs_int(d) * abs_int(q)) by (nonlinear_arith)
        requires
            abs_int(q) >= 0,
    ;
}

/// The magnitude of `v`.
pub open spec fn abs_int(v: int) -> int {
    if v >= 0 {
        v
    } else {
        -v
    }
}

/// Negating the divisor does not change divisibility.
pub proof fn lemma_divides_neg(d: int, a: int)
    ensures
        divides(d, a) <==> divides(-d, a),
{
    if divides(d, a) {
        let q = choose|q: int| a == #[trigger] (d * q);
        assert(a == (-d) * (-q)) by (nonlinear_arith)
            requires
                a == d * q,
        ;
    }
    if divides(-d, a) {
        let q = choose|q: int| a == #[trigger] ((-d) * q);
        assert(a == d * (-q)) by (nonlinear_arith)
            requires
                a == (-d) * q,
        ;
    }
}

} // verus!
