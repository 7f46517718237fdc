//! Dense coefficient-vector polynomials over machine integers, with
//! evaluation and addition.

use vstd::prelude::*;

use crate::arith::in_i64;
use crate::errors::FriError;

verus! {

/// A polynomial as an ordered sequence of `i64` coefficients; the
/// coefficient at index `i` belongs to the power `x^i`.  The degree is
/// `length - 1`: trailing zero coefficients are kept, never trimmed.
#[derive(Clone, Debug)]
pub struct Polynomial {
    pub(crate) coefficients: Vec<i64>,
}

/// An `i64` sequence as mathematical integers.
pub open spec fn int_seq(s: Seq<i64>) -> Seq<int> {
    s.map_values(|c: i64| c as int)
}

/// The value of the polynomial with coefficients `s` at the point `x`,
/// in Horner form: an empty polynomial evaluates to zero, and otherwise
/// `s[0] + x * (the rest, shifted down one power)`.
pub open spec fn poly_eval(s: Seq<int>, x: int) -> int
    decreases s.len(),
{
    if s.len() == 0 {
        0
    } else {
        s[0] + x * poly_eval(s.skip(1), x)
    }
}

/// Every intermediate value of the Horner evaluation of `s` at `x`
/// fits in an `i64`.  This is exactly the condition under which
/// [`Polynomial::evaluate`] succeeds.
pub open spec fn eval_fits(s: Seq<int>, x: int) -> bool {
    forall|j: int|
        0 <= j < s.len() ==> in_i64(poly_eval(#[trigger] s.skip(j), x)) && in_i64(
            x * poly_eval(s.skip(j + 1), x),
        )
}

/// One Horner step: dropping the first `j` coefficients and evaluating
/// equals the `j`-th coefficient plus `x` times the evaluation one
/// power further in.
pub proof fn lemma_poly_eval_step(s: Seq<int>, x: int, j: int)
    requires
        0 <= j < s.len(),
    ensures
        poly_eval(s.skip(j), x) == s[j] + x * poly_eval(s.skip(j + 1), x),
{
    let t = s.skip(j);
    assert(t.skip(1) =~= s.skip(j + 1));
    assert(t[0] == s[j]);
}

/// The coefficient of `s` at index `i`, or zero past the end.
pub open spec fn coeff_or_zero(s: Seq<int>, i: int) -> int {
    if 0 <= i < s.len() {
        s[i]
    } else {
        0
    }
}

/// The pairwise sum of two coefficient sequences, the shorter one
/// padded with zeros up to the longer one's length.
pub open spec fn add_coeffs(a: Seq<int>, b: Seq<int>) -> Seq<int> {
    Seq::new(
        if a.len() >= b.len() {
            a.len()
        } else {
            b.len()
        },
        |i: int| coeff_or_zero(a, i) + coeff_or_zero(b, i),
    )
}

/// Every pairwise coefficient sum fits in an `i64`.  This is exactly
/// the condition under which [`Polynomial::add`] succeeds.
pub open spec fn add_fits(a: Seq<int>, b: Seq<int>) -> bool {
    forall|i: int|
        0 <= i < add_coeffs(a, b).len() ==> in_i64(
            #[trigger] coeff_or_zero(a, i) + coeff_or_zero(b, i),
        )
}

impl View for Polynomial {
    type V = Seq<int>;

    closed spec fn view(&self) -> Seq<int> {
        int_seq(self.coefficients@)
    }
}

impl Polynomial {
    /// Wraps a coefficient vector as a polynomial; index 0 is the
    /// constant term.
    pub fn new(coefficients: Vec<i64>) -> (r: Polynomial)
        ensures
            r@ == int_seq(coefficients@),
    {
        Polynomial { coefficients }
    }

    /// How many coefficients the polynomial has (its degree plus one,
    /// counting trailing zeros literally).
    pub fn coefficient_count(&self) -> (n: usize)
        ensures
            n == self@.len(),
    {
        self.coefficients.len()
    }

    /// The coefficient at index `i`.
    pub fn coefficient(&self, i: usize) -> (c: i64)
        requires
            i < self@.len(),
        ensures
            c == self@[i as int],
    {
        self.coefficients[i]
    }

    /// Evaluates the polynomial at `x` by Horner's rule.  Returns the
    /// exact value `poly_eval(self@, x)` whenever every intermediate
    /// step fits in an `i64`, and reports the overflow otherwise.
    pub fn evaluate(&self, x: i64) -> (r: Result<i64, FriError>)
        ensures
            r is Ok <==> eval_fits(self@, x as int),
            r is Ok ==> r->Ok_0 as int == poly_eval(self@, x as int),
            r is Err ==> r->Err_0 == FriError::ArithmeticOverflow,
    {
        let ghost s = self@;
        let ghost xi = x as int;
        let n = self.coefficients.len();
        let mut acc: i64 = 0;
        let mut j: usize = n;
        assert(s.skip(n as int) =~= Seq::<int>::empty());
        while j > 0
            invariant
                0 <= j <= n,
                n == s.len(),
                s == self@,
                xi == x as int,
                acc as int == poly_eval(s.skip(j as int), xi),
                forall|k: int|
                    j <= k < n ==> in_i64(poly_eval(#[trigger] s.skip(k), xi)) && in_i64(
                        xi * poly_eval(s.skip(k + 1), xi),
                    ),
            decreases j,
        {
            j = j - 1;
            proof {
                lemma_poly_eval_step(s, xi, j as int);
            }
            let t = match x.checked_mul(acc) {
                Some(t) => t,
                None => {
                    assert(!eval_fits(s, xi));
                    return Err(FriError::ArithmeticOverflow);
                },
            };
            acc = match self.coefficients[j].checked_add(t) {
                Some(a) => a,
                None => {
                    assert(!in_i64(poly_eval(s.skip(j as int), xi)));
                    assert(!eval_fits(s, xi));
                    return Err(FriError::ArithmeticOverflow);
                },
            };
        }
        assert(s.skip(0) =~= s);
        Ok(acc)
    }

    /// Adds two polynomials coefficient-wise, padding the shorter one
    /// with zeros; the result has the longer operand's length.  Reports
    /// an overflow if some coefficient sum does not fit in an `i64`.
    pub fn add(&self, other: &Polynomial) -> (r: Result<Polynomial, FriError>)
        ensures
            r is Ok <==> add_fits(self@, other@),
            r is Ok ==> r->Ok_0@ == add_coeffs(self@, other@),
            r is Err ==> r->Err_0 == FriError::ArithmeticOverflow,
    {
        let ghost a = self@;
        let ghost b = other@;
        let len_a = self.coefficients.len();
        let len_b = other.coefficients.len();
        let max_len = if len_a >= len_b {
            len_a
        } else {
            len_b
        };
        let mut result: Vec<i64> = Vec::new();
        let mut i: usize = 0;
        while i < max_len
            invariant
                0 <= i <= max_len,
                len_a == a.len(),
                len_b == b.len(),
                a == self@,
                b == other@,
                max_len == add_coeffs(a, b).len(),
                result@.len() == i,
                forall|k: int|
                    0 <= k < i ==> result@.map_values(|c: i64| c as int)[k] == add_coeffs(a, b)[k]
                        && in_i64(#[trigger] coeff_or_zero(a, k) + coeff_or_zero(b, k)),
            decreases max_len - i,
        {
            let ca: i64 = if i < len_a {
                self.coefficients[i]
            } else {
                0
            };
            let cb: i64 = if i < len_b {
                other.coefficients[i]
            } else {
                0
            };
            let sum = match ca.checked_add(cb) {
                Some(s) => s,
                None => {
                    assert(!in_i64(coeff_or_zero(a, i as int) + coeff_or_zero(b, i as int)));
                    return Err(FriError::ArithmeticOverflow);
                },
            };
            result.push(sum);
            i = i + 1;
        }
        let p = Polynomial { coefficients: result };
        assert(p@ =~= add_coeffs(a, b));
        Ok(p)
    }
}

impl PartialEq for Polynomial {
    /// Two polynomials are equal exactly when their coefficient
    /// sequences are equal element-wise and in length.
    fn eq(&self, other: &Self) -> (r: bool) {
        if self.coefficients.len() != other.coefficients.len() {
            assert(self@.len() != other@.len());
            return false;
        }
        let n = self.coefficients.len();
        let mut i: usize = 0;
        while i < n
            invariant
                0 <= i <= n,
                n == self@.len() == other@.len(),
                forall|k: int| 0 <= k < i ==> self@[k] == other@[k],
            decreases n - i,
        {
            if self.coefficients[i] != other.coefficients[i] {
                assert(self@[i as int] != other@[i as int]);
                return false;
            }
            i = i + 1;
        }
        assert(self@ =~= other@);
        true
    }
}

impl vstd::std_specs::cmp::PartialEqSpecImpl for Polynomial {
    open spec fn obeys_eq_spec() -> bool {
        true
    }

    open spec fn eq_spec(&self, other: &Polynomial) -> bool {
        self@ == other@
    }
}

} // verus!
