//! The layer-consistency check: verifies that a query point's
//! recorded evaluations propagate across all folding layers according
//! to the FRI consistency equation, and that the terminal layer
//! records a single value.

use vstd::prelude::*;

use crate::arith::{
    divides, exact_quot, in_i128, in_i64, lemma_divides_neg, lemma_exact_quot_bound,
    lemma_exact_quot_unique,
};
use crate::errors::FriError;
use crate::layers::{chain_point, lemma_chain_point_square, lemma_chain_point_zero,
    lemma_layer_table_props, table_views, tables_spec};
use crate::table::{terminal_unique, EvalTable};

verus! {

/// The three table entries layer `i` needs: the previous layer at the
/// derived point `p` and its negation, and the current layer at `p^2`.
pub open spec fn link_keys_present(prev: Map<int, int>, cur: Map<int, int>, p: int) -> bool {
    prev.contains_key(p) && prev.contains_key(-p) && cur.contains_key(p * p)
}

/// Both divisions of the consistency equation are exact: the divisor
/// `2 * p` is nonzero, `2` divides the sum of the two previous
/// values, and `2 * p` divides `beta` times their difference.
pub open spec fn link_divisions_exact(prev: Map<int, int>, p: int, beta: int) -> bool {
    &&& p != 0
    &&& divides(2, prev[p] + prev[-p])
    &&& divides(2 * p, beta * (prev[p] - prev[-p]))
}

/// The FRI consistency equation between two consecutive layers at the
/// derived point `p`:
/// `cur[p^2] == (prev[p] + prev[-p]) / 2 + beta * (prev[p] - prev[-p]) / (2p)`.
pub open spec fn link_value_consistent(
    prev: Map<int, int>,
    cur: Map<int, int>,
    p: int,
    beta: int,
) -> bool {
    cur[p * p] == exact_quot(prev[p] + prev[-p], 2) + exact_quot(
        beta * (prev[p] - prev[-p]),
        2 * p,
    )
}

/// Everything the check demands of one pair of consecutive layers.
pub open spec fn link_pass(prev: Map<int, int>, cur: Map<int, int>, p: int, beta: int) -> bool {
    &&& in_i64(p * p)
    &&& in_i64(-p)
    &&& link_keys_present(prev, cur, p)
    &&& link_divisions_exact(prev, p, beta)
    &&& link_value_consistent(prev, cur, p, beta)
}

/// Every pair of consecutive layers passes at the query's derived
/// point chain.
pub open spec fn all_links(tables: Seq<Map<int, int>>, q: int, beta: int) -> bool {
    forall|i: int|
        1 <= i < tables.len() ==> #[trigger] link_pass(
            tables[i - 1],
            tables[i],
            chain_point(q, i - 1),
            beta,
        )
}

/// Divides `a` by a positive `b` only when the division is exact,
/// distinguishing a remainder from a quotient that does not fit.
fn div_exact(a: i128, b: i128) -> (r: Result<i128, FriError>)
    requires
        b > 0,
    ensures
        r is Ok <==> divides(b as int, a as int) && in_i128(exact_quot(a as int, b as int)),
        r is Ok ==> a as int == b as int * (r->Ok_0 as int) && r->Ok_0 as int == exact_quot(
            a as int,
            b as int,
        ),
        r is Err ==> r->Err_0 == FriError::InexactDivision || r->Err_0
            == FriError::ArithmeticOverflow,
        r == Result::<i128, FriError>::Err(FriError::InexactDivision) <==> !divides(
            b as int,
            a as int,
        ),
        r == Result::<i128, FriError>::Err(FriError::ArithmeticOverflow) <==> divides(
            b as int,
            a as int,
        ) && !in_i128(exact_quot(a as int, b as int)),
{
    let ghost ai = a as int;
    let ghost bi = b as int;
    proof {
        vstd::arithmetic::div_mod::lemma_mod_division_less_than_divisor(ai, bi);
    }
    let rem = a.checked_rem_euclid(b).unwrap();
    if rem != 0 {
        proof {
            if divides(bi, ai) {
                let q = choose|q: int| ai == #[trigger] (bi * q);
                vstd::arithmetic::div_mod::lemma_mod_multiples_basic(q, bi);
                assert(q * bi == bi * q) by (nonlinear_arith);
            }
        }
        return Err(FriError::InexactDivision);
    }
    proof {
        vstd::arithmetic::div_mod::lemma_fundamental_div_mod(ai, bi);
        lemma_exact_quot_unique(ai, bi, ai / bi);
    }
    match a.checked_div_euclid(b) {
        Some(q) => Ok(q),
        None => Err(FriError::ArithmeticOverflow),
    }
}

/// Walks the layer tables along the query's derived point chain.  For
/// every layer after the first it looks the previous layer up at the
/// point and its negation and the current layer up at the squared
/// point, recomputes the folded value by the consistency equation
/// with exact divisions, and compares.  After the walk it demands
/// that the terminal layer record exactly one distinct value.
pub fn check_layers(layer_evals: &Vec<EvalTable>, query: i64, beta: i64) -> (r: Result<
    (),
    FriError,
>)
    requires
        layer_evals@.len() >= 1,
        forall|i: int| 0 <= i < layer_evals@.len() ==> (#[trigger] layer_evals@[i]).wf(),
    ensures
        r is Ok <==> all_links(table_views(layer_evals@), query as int, beta as int)
            && terminal_unique(table_views(layer_evals@).last()),
        r == Result::<(), FriError>::Err(FriError::NonUniqueTerminal) <==> all_links(
            table_views(layer_evals@),
            query as int,
            beta as int,
        ) && !terminal_unique(table_views(layer_evals@).last()),
        r == Result::<(), FriError>::Err(FriError::LookupMiss) ==> exists|i: int|
            1 <= i < layer_evals@.len() && !link_keys_present(
                table_views(layer_evals@)[i - 1],
                table_views(layer_evals@)[i],
                #[trigger] chain_point(query as int, i - 1),
            ),
        r == Result::<(), FriError>::Err(FriError::InexactDivision) ==> exists|i: int|
            1 <= i < layer_evals@.len() && !link_divisions_exact(
                table_views(layer_evals@)[i - 1],
                #[trigger] chain_point(query as int, i - 1),
                beta as int,
            ),
        r == Result::<(), FriError>::Err(FriError::ConsistencyViolation) ==> exists|i: int|
            1 <= i < layer_evals@.len() && link_keys_present(
                table_views(layer_evals@)[i - 1],
                table_views(layer_evals@)[i],
                #[trigger] chain_point(query as int, i - 1),
            ) && link_divisions_exact(
                table_views(layer_evals@)[i - 1],
                chain_point(query as int, i - 1),
                beta as int,
            ) && !link_value_consistent(
                table_views(layer_evals@)[i - 1],
                table_views(layer_evals@)[i],
                chain_point(query as int, i - 1),
                beta as int,
            ),
        r == Result::<(), FriError>::Err(FriError::ArithmeticOverflow) ==> exists|i: int|
            1 <= i < layer_evals@.len() && (!in_i64(
                #[trigger] chain_point(query as int, i - 1) * chain_point(query as int, i - 1),
            ) || !in_i64(-chain_point(query as int, i - 1))),
{
    let ghost tbls = table_views(layer_evals@);
    let ghost qi = query as int;
    let ghost bt = beta as int;
    let n = layer_evals.len();
    let mut pp: i64 = query;
    proof {
        lemma_chain_point_zero(qi);
    }
    let mut i: usize = 1;
    while i < n
        invariant
            1 <= i <= n,
            n == layer_evals@.len(),
            tbls == table_views(layer_evals@),
            qi == query as int,
            bt == beta as int,
            forall|i2: int| 0 <= i2 < n ==> (#[trigger] layer_evals@[i2]).wf(),
            pp as int == chain_point(qi, i - 1),
            forall|i2: int|
                1 <= i2 < i ==> #[trigger] link_pass(
                    tbls[i2 - 1],
                    tbls[i2],
                    chain_point(qi, i2 - 1),
                    bt,
                ),
        decreases n - i,
    {
        let ghost p = chain_point(qi, i - 1);
        let sym: i64 = if pp == i64::MIN {
            assert(!in_i64(-p));
            assert(!link_pass(tbls[i - 1], tbls[i as int], p, bt));
            return Err(FriError::ArithmeticOverflow);
        } else {
            -pp
        };
        let a = match layer_evals[i - 1].get(pp) {
            Some(v) => v,
            None => {
                assert(!link_keys_present(tbls[i - 1], tbls[i as int], p));
                assert(!link_pass(tbls[i - 1], tbls[i as int], p, bt));
                return Err(FriError::LookupMiss);
            },
        };
        let b = match layer_evals[i - 1].get(sym) {
            Some(v) => v,
            None => {
                assert(!link_keys_present(tbls[i - 1], tbls[i as int], p));
                assert(!link_pass(tbls[i - 1], tbls[i as int], p, bt));
                return Err(FriError::LookupMiss);
            },
        };
        proof {
            lemma_chain_point_square(qi, i as int);
        }
        let cur_pt = match pp.checked_mul(pp) {
            Some(v) => v,
            None => {
                assert(!in_i64(p * p));
                assert(!link_pass(tbls[i - 1], tbls[i as int], p, bt));
                return Err(FriError::ArithmeticOverflow);
            },
        };
        let c = match layer_evals[i].get(cur_pt) {
            Some(v) => v,
            None => {
                assert(!link_keys_present(tbls[i - 1], tbls[i as int], p));
                assert(!link_pass(tbls[i - 1], tbls[i as int], p, bt));
                return Err(FriError::LookupMiss);
            },
        };
        if pp == 0 {
            assert(!link_divisions_exact(tbls[i - 1], p, bt));
            assert(!link_pass(tbls[i - 1], tbls[i as int], p, bt));
            return Err(FriError::InexactDivision);
        }
        let s128: i128 = a as i128 + b as i128;
        let diff: i128 = a as i128 - b as i128;
        proof {
            let b63: int = 0x8000_0000_0000_0000;
            let d64: int = 0xffff_ffff_ffff_ffff;
            assert(-(b63 * d64) <= bt * (diff as int) <= b63 * d64) by (nonlinear_arith)
                requires
                    -b63 <= bt < b63,
                    -d64 <= diff as int <= d64,
            ;
        }
        let num: i128 = (beta as i128) * diff;
        let q1 = match div_exact(s128, 2) {
            Ok(v) => v,
            Err(e) => {
                proof {
                    if e == FriError::ArithmeticOverflow {
                        let qv = choose|q: int| s128 as int == #[trigger] (2 * q);
                        lemma_exact_quot_unique(s128 as int, 2, qv);
                        lemma_exact_quot_bound(s128 as int, 2, qv);
                        assert(false);
                    }
                    assert(!link_divisions_exact(tbls[i - 1], p, bt));
                    assert(!link_pass(tbls[i - 1], tbls[i as int], p, bt));
                }
                return Err(e);
            },
        };
        let d2: i128 = 2 * (pp as i128);
        assert(d2 as int == 2 * p && d2 != 0);
        let q2: i128 = if d2 < 0 {
            let qq = match div_exact(num, -d2) {
                Ok(v) => v,
                Err(e) => {
                    proof {
                        lemma_divides_neg(2 * p, num as int);
                        if e == FriError::ArithmeticOverflow {
                            let qv = choose|q: int| num as int == #[trigger] ((-(2 * p)) * q);
                            lemma_exact_quot_unique(num as int, -(2 * p), qv);
                            lemma_exact_quot_bound(num as int, -(2 * p), qv);
                            assert(false);
                        }
                        assert(!link_divisions_exact(tbls[i - 1], p, bt));
                        assert(!link_pass(tbls[i - 1], tbls[i as int], p, bt));
                    }
                    return Err(e);
                },
            };
            proof {
                lemma_exact_quot_bound(num as int, -(2 * p), qq as int);
                assert((-(2 * p)) * (qq as int) == (2 * p) * (-(qq as int))) by (nonlinear_arith);
                lemma_exact_quot_unique(num as int, 2 * p, -(qq as int));
            }
            -qq
        } else {
            match div_exact(num, d2) {
                Ok(v) => v,
                Err(e) => {
                    proof {
                        if e == FriError::ArithmeticOverflow {
                            let qv = choose|q: int| num as int == #[trigger] ((2 * p) * q);
                            lemma_exact_quot_unique(num as int, 2 * p, qv);
                            lemma_exact_quot_bound(num as int, 2 * p, qv);
                            assert(false);
                        }
                        assert(!link_divisions_exact(tbls[i - 1], p, bt));
                        assert(!link_pass(tbls[i - 1], tbls[i as int], p, bt));
                    }
                    return Err(e);
                },
            }
        };
        proof {
            lemma_exact_quot_bound(s128 as int, 2, q1 as int);
            lemma_exact_quot_bound(num as int, 2 * p, q2 as int);
        }
        let expected = q1 + q2;
        if expected != c as i128 {
            assert(link_keys_present(tbls[i - 1], tbls[i as int], p));
            assert(link_divisions_exact(tbls[i - 1], p, bt));
            assert(!link_value_consistent(tbls[i - 1], tbls[i as int], p, bt));
            assert(!link_pass(tbls[i - 1], tbls[i as int], p, bt));
            return Err(FriError::ConsistencyViolation);
        }
        assert(link_pass(tbls[i - 1], tbls[i as int], p, bt));
        pp = cur_pt;
        i = i + 1;
    }
    let terminal_ok = layer_evals[n - 1].has_unique_value();
    proof {
        assert(tbls.last() == layer_evals@[n - 1]@);
    }
    if terminal_ok {
        Ok(())
    } else {
        Err(FriError::NonUniqueTerminal)
    }
}

/// An honestly built pipeline satisfies the checker.  When layer `i`
/// really is the fold of layer `i - 1` and both tables were built by
/// the layer evaluator, then at any nonzero derived point whose keys
/// the tables cover, the divisions are exact and the consistency
/// equation holds — the folding identity the checker indirectly
/// verifies.
pub proof fn lemma_honest_tables_pass(
    points: Seq<int>,
    polys: Seq<Seq<int>>,
    beta: int,
    q: int,
    i: int,
)
    requires
        1 <= i < polys.len(),
        polys[i] == crate::fold::fold_spec(polys[i - 1], beta),
        chain_point(q, i - 1) != 0,
    ensures
        link_keys_present(
            crate::layers::layer_table(points, polys[i - 1], i - 1),
            crate::layers::layer_table(points, polys[i], i),
            chain_point(q, i - 1),
        ) ==> link_divisions_exact(
            crate::layers::layer_table(points, polys[i - 1], i - 1),
            chain_point(q, i - 1),
            beta,
        ) && link_value_consistent(
            crate::layers::layer_table(points, polys[i - 1], i - 1),
            crate::layers::layer_table(points, polys[i], i),
            chain_point(q, i - 1),
            beta,
        ),
{
    let p = chain_point(q, i - 1);
    let prev_t = crate::layers::layer_table(points, polys[i - 1], i - 1);
    let cur_t = crate::layers::layer_table(points, polys[i], i);
    lemma_layer_table_props(points, polys[i - 1], i - 1);
    lemma_layer_table_props(points, polys[i], i);
    if link_keys_present(prev_t, cur_t, p) {
        assert(prev_t[p] == crate::poly::poly_eval(polys[i - 1], p));
        assert(prev_t[-p] == crate::poly::poly_eval(polys[i - 1], -p));
        assert(cur_t[p * p] == crate::poly::poly_eval(polys[i], p * p));
        crate::fold::lemma_fold_consistency(polys[i - 1], beta, p);
    }
}

/// Terminal uniqueness: when the last layer polynomial is a constant
/// — as every full fold sequence guarantees — the last evaluation
/// table built from any nonempty sample-point set records the same
/// value at every key.
pub proof fn lemma_terminal_uniqueness(points: Seq<int>, polys: Seq<Seq<int>>)
    requires
        points.len() >= 1,
        polys.len() >= 1,
        polys.last().len() <= 1,
    ensures
        terminal_unique(tables_spec(points, polys).last()),
{
    let li = polys.len() - 1;
    let poly = polys[li];
    let t = tables_spec(points, polys).last();
    assert(t == crate::layers::layer_table(points, poly, li));
    lemma_layer_table_props(points, poly, li);
    assert(t.contains_key(chain_point(points[0], li)));
    assert forall|k1: int, k2: int| t.contains_key(k1) && t.contains_key(k2) implies #[trigger] t[k1]
        == #[trigger] t[k2] by {
        assert(t[k1] == crate::poly::poly_eval(poly, k1));
        assert(t[k2] == crate::poly::poly_eval(poly, k2));
        if poly.len() == 1 {
            assert(poly.skip(1) =~= Seq::<int>::empty());
            assert(crate::poly::poly_eval(poly.skip(1), k1) == 0);
            assert(crate::poly::poly_eval(poly.skip(1), k2) == 0);
            assert(crate::poly::poly_eval(poly, k1) == poly[0] + k1 * 0);
            assert(crate::poly::poly_eval(poly, k2) == poly[0] + k2 * 0);
        }
    }
}

} // verus!
