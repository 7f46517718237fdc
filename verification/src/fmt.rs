//! A human-readable rendering of a polynomial: "c0 + c1x^1 + c2x^2",
//! with zero terms omitted, unit coefficients written without their
//! magnitude, and negative terms joined by " - ".

use vstd::prelude::*;

use crate::arith::abs_int;
use crate::poly::Polynomial;

verus! {

/// The decimal digit character for `d` (0 through 9).
pub open spec fn digit_char(d: int) -> char {
    if d == 0 {
        '0'
    } else if d == 1 {
        '1'
    } else if d == 2 {
        '2'
    } else if d == 3 {
        '3'
    } else if d == 4 {
        '4'
    } else if d == 5 {
        '5'
    } else if d == 6 {
        '6'
    } else if d == 7 {
        '7'
    } else if d == 8 {
        '8'
    } else {
        '9'
    }
}

/// The decimal digits of `n`, most significant first.
pub open spec fn dec_digits(n: nat) -> Seq<char>
    decreases n,
{
    if n < 10 {
        seq![digit_char(n as int)]
    } else {
        dec_digits(n / 10) + seq![digit_char((n % 10) as int)]
    }
}

/// The decimal rendering of `v`, a minus sign first when negative.
pub open spec fn int_dec(v: int) -> Seq<char> {
    if v < 0 {
        seq!['-'] + dec_digits((-v) as nat)
    } else {
        dec_digits(v as nat)
    }
}

/// One term appended to the text built so far: nothing for a zero
/// coefficient; the bare constant for index 0; otherwise a separator
/// (" + " after earlier text for a positive term, " - " for a
/// negative one), the magnitude unless it is 1, and "x^i".
pub open spec fn term_chars(acc: Seq<char>, c: int, i: int) -> Seq<char> {
    if c == 0 {
        acc
    } else if i == 0 {
        acc + int_dec(c)
    } else {
        let sep = if acc.len() > 0 && c > 0 {
            seq![' ', '+', ' ']
        } else if c < 0 {
            seq![' ', '-', ' ']
        } else {
            Seq::<char>::empty()
        };
        let mag = if c != 1 && c != -1 {
            dec_digits(abs_int(c) as nat)
        } else {
            Seq::<char>::empty()
        };
        acc + sep + mag + seq!['x', '^'] + dec_digits(i as nat)
    }
}

/// The text for the first `i` coefficients of `s`.
pub open spec fn format_prefix(s: Seq<int>, i: int) -> Seq<char>
    decreases i,
{
    if i <= 0 {
        Seq::empty()
    } else {
        term_chars(format_prefix(s, i - 1), s[i - 1], i - 1)
    }
}

/// The full rendering of the coefficient sequence `s`.
pub open spec fn format_spec(s: Seq<int>) -> Seq<char> {
    format_prefix(s, s.len() as int)
}

/// A decimal rendering has at least one character.
proof fn lemma_dec_digits_nonempty(n: nat)
    ensures
        dec_digits(n).len() >= 1,
    decreases n,
{
    if n >= 10 {
        lemma_dec_digits_nonempty(n / 10);
    }
}

/// Relies on `String::push`: appends exactly the one character at the
/// end of the string.
#[verifier::external_body]
fn push_char(s: &mut String, c: char)
    ensures
        final (s)@ == old(s)@.push(c),
{
    s.push(c);
}

/// The digit character for `d` (0 through 9).
fn digit_char_of(d: u64) -> (c: char)
    requires
        d < 10,
    ensures
        c == digit_char(d as int),
{
    if d == 0 {
        '0'
    } else if d == 1 {
        '1'
    } else if d == 2 {
        '2'
    } else if d == 3 {
        '3'
    } else if d == 4 {
        '4'
    } else if d == 5 {
        '5'
    } else if d == 6 {
        '6'
    } else if d == 7 {
        '7'
    } else if d == 8 {
        '8'
    } else {
        '9'
    }
}

/// Appends the decimal digits of `n` to `out`.
fn push_digits(out: &mut String, n: u64)
    ensures
        final (out)@ == old(out)@ + dec_digits(n as nat),
    decreases n,
{
    if n < 10 {
        push_char(out, digit_char_of(n));
        assert(final (out)@ =~= old(out)@ + dec_digits(n as nat));
    } else {
        push_digits(out, n / 10);
        push_char(out, digit_char_of(n % 10));
        assert(final (out)@ =~= old(out)@ + dec_digits(n as nat));
    }
}

/// The magnitude of `v` as a `u64` (total, also for `i64::MIN`).
fn magnitude_u64(v: i64) -> (m: u64)
    ensures
        m as int == abs_int(v as int),
{
    if v >= 0 {
        v as u64
    } else {
        ((-(v + 1)) as u64) + 1
    }
}

/// Appends the decimal rendering of `v` to `out`, sign included.
fn push_int(out: &mut String, v: i64)
    ensures
        final (out)@ == old(out)@ + int_dec(v as int),
{
    if v < 0 {
        push_char(out, '-');
    }
    push_digits(out, magnitude_u64(v));
    assert(final (out)@ =~= old(out)@ + int_dec(v as int));
}

impl Polynomial {
    /// Renders the polynomial as text, a diagnostic form with no
    /// protocol meaning: zero terms are skipped, the constant term is
    /// printed bare, and every other term appears as
    /// `[separator][magnitude]x^i`.
    #[verifier::rlimit(50)]
    pub fn format(&self) -> (r: String)
        ensures
            r@ == format_spec(self@),
    {
        let mut out = String::new();
        let n = self.coefficient_count();
        let mut nonempty = false;
        let mut i: usize = 0;
        while i < n
            invariant
                0 <= i <= n,
                n == self@.len(),
                out@ == format_prefix(self@, i as int),
                nonempty <==> out@.len() > 0,
            decreases n - i,
        {
            let ghost acc = out@;
            let c = self.coefficient(i);
            if c != 0 {
                if i == 0 {
                    push_int(&mut out, c);
                    proof {
                        if c as int >= 0 {
                            lemma_dec_digits_nonempty((c as int) as nat);
                        } else {
                            lemma_dec_digits_nonempty((-(c as int)) as nat);
                        }
                    }
                    nonempty = true;
                } else {
                    let ghost sep: Seq<char> = if acc.len() > 0 && (c as int) > 0 {
                        seq![' ', '+', ' ']
                    } else if (c as int) < 0 {
                        seq![' ', '-', ' ']
                    } else {
                        Seq::<char>::empty()
                    };
                    if nonempty && c > 0 {
                        push_char(&mut out, ' ');
                        push_char(&mut out, '+');
                        push_char(&mut out, ' ');
                    } else if c < 0 {
                        push_char(&mut out, ' ');
                        push_char(&mut out, '-');
                        push_char(&mut out, ' ');
                    }
                    assert(out@ =~= acc + sep);
                    let ghost mag: Seq<char> = if (c as int) != 1 && (c as int) != -1 {
                        dec_digits(abs_int(c as int) as nat)
                    } else {
                        Seq::<char>::empty()
                    };
                    if c != 1 && c != -1 {
                        push_digits(&mut out, magnitude_u64(c));
                    }
                    assert(out@ =~= (acc + sep) + mag);
                    push_char(&mut out, 'x');
                    push_char(&mut out, '^');
                    push_digits(&mut out, i as u64);
                    assert(out@ =~= ((acc + sep) + mag + seq!['x', '^']) + dec_digits(
                        i as nat,
                    ));
                    proof {
                        lemma_dec_digits_nonempty((i as u64) as nat);
                    }
                    nonempty = true;
                }
                assert(out@ =~= term_chars(acc, self@[i as int], i as int));
            }
            i = i + 1;
        }
        out
    }
}

} // verus!
