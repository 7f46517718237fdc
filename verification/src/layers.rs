//! Building the per-layer evaluation tables: every layer polynomial is
//! evaluated at each sample point raised to the layer's power of two,
//! and at its negation, and both results are recorded point-to-value.

use vstd::prelude::*;

use crate::arith::in_i64;
use crate::errors::FriError;
use crate::fold::layer_views;
use crate::poly::{eval_fits, int_seq, poly_eval, Polynomial};
use crate::table::EvalTable;
use vstd::arithmetic::power::pow;
use vstd::arithmetic::power2::pow2;

verus! {

/// The point a sample `x` derives at layer `i`: `x` raised to `2^i`.
pub open spec fn chain_point(x: int, i: int) -> int {
    pow(x, pow2(i as nat))
}

/// The evaluation table of layer `i` for the layer polynomial `poly`
/// and the given sample points: each point's derived value and its
/// negation, mapped to the polynomial's value there.
pub open spec fn layer_table(points: Seq<int>, poly: Seq<int>, i: int) -> Map<int, int>
    decreases points.len(),
{
    if points.len() == 0 {
        Map::empty()
    } else {
        let p = chain_point(points.last(), i);
        layer_table(points.drop_last(), poly, i).insert(p, poly_eval(poly, p)).insert(
            -p,
            poly_eval(poly, -p),
        )
    }
}

/// The full table sequence [`create_layers`] produces: one table per
/// layer, or none at all when there are no sample points.
pub open spec fn tables_spec(points: Seq<int>, polys: Seq<Seq<int>>) -> Seq<Map<int, int>> {
    if points.len() == 0 {
        Seq::empty()
    } else {
        Seq::new(polys.len(), |i: int| layer_table(points, polys[i], i))
    }
}

/// Every machine-integer step layer `i` takes for the sample `x`
/// fits: the squaring chain up to the layer's derived point, its
/// negation, and both polynomial evaluations.
pub open spec fn layer_fits(polys: Seq<Seq<int>>, i: int, x: int) -> bool {
    &&& forall|k: int| 0 <= k <= i ==> in_i64(#[trigger] chain_point(x, k))
    &&& in_i64(-chain_point(x, i))
    &&& eval_fits(polys[i], chain_point(x, i))
    &&& eval_fits(polys[i], -chain_point(x, i))
}

/// The whole evaluation of the sample `x` across all layers fits in
/// machine integers.  This is exactly the condition under which
/// [`create_layers`] succeeds for `x`.
pub open spec fn sample_ok(polys: Seq<Seq<int>>, x: int) -> bool {
    forall|i: int| 0 <= i < polys.len() ==> #[trigger] layer_fits(polys, i, x)
}

/// The views of a sequence of evaluation tables.
pub open spec fn table_views(ts: Seq<EvalTable>) -> Seq<Map<int, int>> {
    ts.map_values(|t: EvalTable| t@)
}

/// A sample's derived point at layer 0 is the sample itself.
pub proof fn lemma_chain_point_zero(x: int)
    ensures
        chain_point(x, 0) == x,
{
    vstd::arithmetic::power2::lemma2_to64();
    vstd::arithmetic::power::lemma_pow1(x);
}

/// Each layer's derived point is the square of the previous one.
pub proof fn lemma_chain_point_square(x: int, i: int)
    requires
        i >= 1,
    ensures
        chain_point(x, i) == chain_point(x, i - 1) * chain_point(x, i - 1),
{
    vstd::arithmetic::power2::lemma_pow2_adds((i - 1) as nat, 1);
    vstd::arithmetic::power2::lemma2_to64();
    assert(pow2(i as nat) == pow2((i - 1) as nat) + pow2((i - 1) as nat));
    vstd::arithmetic::power::lemma_pow_adds(x, pow2((i - 1) as nat), pow2((i - 1) as nat));
}

/// What a layer table holds: exactly the derived points of the
/// samples and their negations, each mapped to the layer polynomial's
/// value at that key.
pub proof fn lemma_layer_table_props(points: Seq<int>, poly: Seq<int>, i: int)
    ensures
        forall|k: int|
            #[trigger] layer_table(points, poly, i).contains_key(k) ==> (exists|j: int|
                0 <= j < points.len() && (k == chain_point(#[trigger] points[j], i) || k
                    == -chain_point(points[j], i))),
        forall|j: int|
            0 <= j < points.len() ==> layer_table(points, poly, i).contains_key(
                chain_point(#[trigger] points[j], i),
            ) && layer_table(points, poly, i).contains_key(-chain_point(points[j], i)),
        forall|k: int|
            #[trigger] layer_table(points, poly, i).contains_key(k) ==> layer_table(
                points,
                poly,
                i,
            )[k] == poly_eval(poly, k),
    decreases points.len(),
{
    if points.len() > 0 {
        let prefix = points.drop_last();
        lemma_layer_table_props(prefix, poly, i);
        assert(forall|j: int| 0 <= j < prefix.len() ==> prefix[j] == #[trigger] points[j]);
        let m = layer_table(points, poly, i);
        let last = points.last();
        assert forall|k: int| #[trigger] m.contains_key(k) implies (exists|j: int|
            0 <= j < points.len() && (k == chain_point(#[trigger] points[j], i) || k
                == -chain_point(points[j], i))) by {
            if k == chain_point(last, i) || k == -chain_point(last, i) {
                assert(points[points.len() - 1] == last);
                assert(0 <= points.len() - 1 < points.len() && (k == chain_point(
                    points[points.len() - 1],
                    i,
                ) || k == -chain_point(points[points.len() - 1], i)));
            } else {
                assert(layer_table(prefix, poly, i).contains_key(k));
                let j = choose|j: int|
                    0 <= j < prefix.len() && (k == chain_point(#[trigger] prefix[j], i) || k
                        == -chain_point(prefix[j], i));
                assert(0 <= j < points.len() && (k == chain_point(points[j], i) || k
                    == -chain_point(points[j], i)));
            }
        }
    }
}

/// Determinism of the pipeline: the fold sequence of a polynomial is
/// unique, so re-running layer generation and table building on
/// identical inputs yields identical layers and identical tables.
/// The consistency check's outcome is likewise pinned by
/// [`crate::check::check_layers`]'s contract as a function of the
/// tables, the query and the challenge.
pub proof fn lemma_pipeline_deterministic(
    p: Seq<int>,
    beta: int,
    l1: Seq<Seq<int>>,
    l2: Seq<Seq<int>>,
    points: Seq<int>,
)
    requires
        crate::fold::layer_chain(p, beta, l1),
        crate::fold::layer_chain(p, beta, l2),
    ensures
        l1 == l2,
        tables_spec(points, l1) == tables_spec(points, l2),
{
    crate::fold::lemma_chain_deterministic(p, beta, l1, l2);
}

/// For each sample point and each layer, evaluates the layer's
/// polynomial at the point raised to `2^layer` and at that value's
/// negation, and records both results in the layer's table.  Produces
/// one table per layer (none when `x_values` is empty); a derived
/// point two samples share is recorded once, with the one value the
/// polynomial gives it.
pub fn create_layers(x_values: &Vec<i64>, poly_by_layer: Vec<Polynomial>) -> (r: Result<
    Vec<EvalTable>,
    FriError,
>)
    ensures
        r is Ok <==> (forall|j: int|
            0 <= j < x_values@.len() ==> sample_ok(
                layer_views(poly_by_layer@),
                #[trigger] int_seq(x_values@)[j],
            )),
        r is Ok ==> table_views(r->Ok_0@) == tables_spec(
            int_seq(x_values@),
            layer_views(poly_by_layer@),
        ),
        r is Ok ==> forall|i: int| 0 <= i < r->Ok_0@.len() ==> (#[trigger] r->Ok_0@[i]).wf(),
        r is Err ==> r->Err_0 == FriError::ArithmeticOverflow,
{
    let ghost polys = layer_views(poly_by_layer@);
    let ghost pts = int_seq(x_values@);
    let num_layers = poly_by_layer.len();
    let num_points = x_values.len();
    if num_points == 0 {
        let empty: Vec<EvalTable> = Vec::new();
        assert(table_views(empty@) =~= tables_spec(pts, polys));
        return Ok(empty);
    }
    let mut tables: Vec<EvalTable> = Vec::new();
    let mut i: usize = 0;
    while i < num_layers
        invariant
            0 <= i <= num_layers,
            polys == layer_views(poly_by_layer@),
            pts == int_seq(x_values@),
            num_layers == polys.len(),
            num_points == pts.len(),
            num_points >= 1,
            tables@.len() == i,
            forall|i2: int| 0 <= i2 < i ==> (#[trigger] tables@[i2]).wf(),
            forall|i2: int|
                0 <= i2 < i ==> (#[trigger] tables@[i2])@ == layer_table(pts, polys[i2], i2),
            forall|i2: int, j: int|
                0 <= i2 < i && 0 <= j < pts.len() ==> #[trigger] layer_fits(
                    polys,
                    i2,
                    #[trigger] pts[j],
                ),
        decreases num_layers - i,
    {
        let mut table = EvalTable::new();
        let mut j: usize = 0;
        while j < num_points
            invariant
                0 <= j <= num_points,
                0 <= i < num_layers,
                polys == layer_views(poly_by_layer@),
                pts == int_seq(x_values@),
                num_layers == polys.len(),
                num_points == pts.len(),
                num_layers == poly_by_layer@.len(),
                num_points == x_values@.len(),
                table.wf(),
                table@ == layer_table(pts.take(j as int), polys[i as int], i as int),
                forall|j2: int| 0 <= j2 < j ==> layer_fits(polys, i as int, #[trigger] pts[j2]),
            decreases num_points - j,
        {
            let x = x_values[j];
            let ghost xi = pts[j as int];
            let mut pt: i64 = x;
            proof {
                lemma_chain_point_zero(xi);
            }
            let mut k: usize = 0;
            while k < i
                invariant
                    0 <= k <= i,
                    0 <= i < num_layers,
                    0 <= j < num_points,
                    polys == layer_views(poly_by_layer@),
                    pts == int_seq(x_values@),
                    num_layers == polys.len(),
                    num_points == pts.len(),
                    num_points == x_values@.len(),
                    xi == x as int,
                    xi == pts[j as int],
                    pt as int == chain_point(xi, k as int),
                    forall|k2: int| 0 <= k2 <= k ==> in_i64(#[trigger] chain_point(xi, k2)),
                decreases i - k,
            {
                proof {
                    lemma_chain_point_square(xi, (k + 1) as int);
                }
                pt = match pt.checked_mul(pt) {
                    Some(v) => v,
                    None => {
                        assert(!in_i64(chain_point(xi, k + 1)));
                        assert(!layer_fits(polys, i as int, xi));
                        return Err(FriError::ArithmeticOverflow);
                    },
                };
                k = k + 1;
            }
            let sym: i64 = if pt == i64::MIN {
                assert(!in_i64(-chain_point(xi, i as int)));
                assert(!layer_fits(polys, i as int, xi));
                return Err(FriError::ArithmeticOverflow);
            } else {
                -pt
            };
            let elm = match poly_by_layer[i].evaluate(pt) {
                Ok(v) => v,
                Err(e) => {
                    assert(!eval_fits(polys[i as int], chain_point(xi, i as int)));
                    assert(!layer_fits(polys, i as int, xi));
                    return Err(e);
                },
            };
            let sym_elm = match poly_by_layer[i].evaluate(sym) {
                Ok(v) => v,
                Err(e) => {
                    assert(!eval_fits(polys[i as int], -chain_point(xi, i as int)));
                    assert(!layer_fits(polys, i as int, xi));
                    return Err(e);
                },
            };
            proof {
                lemma_layer_table_props(pts.take(j as int), polys[i as int], i as int);
            }
            let insert_first = table.insert(pt, elm);
            proof {
                lemma_layer_table_props(pts.take(j as int), polys[i as int], i as int);
            }
            insert_first.unwrap();
            let ghost mid = table@;
            let insert_second = table.insert(sym, sym_elm);
            proof {
                if mid.contains_key(sym as int) {
                    if sym as int == pt as int {
                        assert(mid[sym as int] == elm as int);
                        assert(elm as int == sym_elm as int);
                    } else {
                        lemma_layer_table_props(pts.take(j as int), polys[i as int], i as int);
                    }
                }
            }
            insert_second.unwrap();
            proof {
                assert(pts.take(j + 1 as int).drop_last() =~= pts.take(j as int));
                assert(pts.take(j + 1 as int).last() == pts[j as int]);
                assert(table@ == layer_table(pts.take(j + 1 as int), polys[i as int], i as int));
            }
            j = j + 1;
        }
        let ghost before = tables@;
        tables.push(table);
        proof {
            assert(pts.take(pts.len() as int) =~= pts);
            assert(forall|i2: int|
                0 <= i2 < before.len() ==> tables@[i2] == #[trigger] before[i2]);
        }
        i = i + 1;
    }
    proof {
        assert(table_views(tables@) =~= tables_spec(pts, polys));
    }
    Ok(tables)
}

} // verus!
