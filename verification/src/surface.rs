use vstd::prelude::*;

use crate::bucket::{bucket, bucket_order, lemma_bucket_members};
use crate::error::TopologyError;
use crate::incidence::{Csr, NativeBoundary64};

verus! {

/// One signed incidence of a boundary under construction.
#[derive(Clone, Copy, Debug)]
pub struct BoundaryEntry {
    pub row: usize,
    pub column: usize,
    pub coefficient: i64,
}

/// The row of every entry.
pub open spec fn entry_rows(entries: Seq<BoundaryEntry>) -> Seq<usize> {
    entries.map_values(|e: BoundaryEntry| e.row)
}

/// The `(column, coefficient)` terms of row `r`, in entry order.
pub open spec fn row_terms(entries: Seq<BoundaryEntry>, r: int) -> Seq<(usize, int)> {
    bucket(entry_rows(entries), entries.len() as int, r).map_values(
        |q: usize| (entries[q as int].column, entries[q as int].coefficient as int),
    )
}

/// Consecutive terms of one column merged into their sum.
pub open spec fn coalesce(terms: Seq<(usize, int)>) -> Seq<(usize, int)>
    decreases terms.len(),
{
    if terms.len() == 0 {
        Seq::empty()
    } else {
        let rest = coalesce(terms.drop_last());
        let last = terms.last();
        if rest.len() > 0 && rest.last().0 == last.0 {
            rest.drop_last().push((last.0, rest.last().1 + last.1))
        } else {
            rest.push(last)
        }
    }
}

/// The terms with a nonzero coefficient, in order.
pub open spec fn nonzero(terms: Seq<(usize, int)>) -> Seq<(usize, int)>
    decreases terms.len(),
{
    if terms.len() == 0 {
        Seq::empty()
    } else if terms.last().1 != 0 {
        nonzero(terms.drop_last()).push(terms.last())
    } else {
        nonzero(terms.drop_last())
    }
}

/// Row `r` of the matrix that sums the entries: each column of the row once,
/// with the sum of its coefficients, zeros dropped.
pub open spec fn merged_row(entries: Seq<BoundaryEntry>, r: int) -> Seq<(usize, int)> {
    nonzero(coalesce(row_terms(entries, r)))
}

/// Whether compressed rows hold the summed entries, row by row.
pub open spec fn holds_entries(
    indptr: Seq<usize>,
    indices: Seq<usize>,
    data: Seq<i64>,
    entries: Seq<BoundaryEntry>,
    rows: int,
) -> bool {
    forall|r: int|
        0 <= r < rows ==> {
            let terms = #[trigger] merged_row(entries, r);
            let lo = indptr[r] as int;
            &&& indptr[r + 1] - lo == terms.len()
            &&& forall|k: int|
                0 <= k < terms.len() ==> indices[lo + k] == terms[k].0 && data[lo + k] as int == terms[k].1
        }
}

/// Whether the entries are ordered by column.
pub open spec fn columns_sorted(entries: Seq<BoundaryEntry>) -> bool {
    forall|i: int, j: int| 0 <= i < j < entries.len() ==> #[trigger] entries[i].column <= #[trigger] entries[j].column
}

/// Whether every entry lies in a matrix of the given shape.
pub open spec fn within_shape(entries: Seq<BoundaryEntry>, rows: int, columns: int) -> bool {
    forall|i: int| 0 <= i < entries.len() ==> #[trigger] entries[i].row < rows && entries[i].column < columns
}

/// Adds one coefficient to a running sum; `CountOverflow` when the sum
/// leaves `i64` or exceeds `halfedge_count` in magnitude.
pub fn checked_coefficient_sum(current: i64, contribution: i64, halfedge_count: usize) -> (r: Result<
    i64,
    TopologyError,
>)
    ensures
        ({
            let sum = current + contribution;
            if i64::MIN <= sum <= i64::MAX && -(halfedge_count as int) <= sum <= halfedge_count {
                r == Ok::<i64, TopologyError>(sum as i64)
            } else {
                r == Err::<i64, TopologyError>(TopologyError::CountOverflow)
            }
        }),
{
    let sum = match current.checked_add(contribution) {
        Some(s) => s,
        None => return Err(TopologyError::CountOverflow),
    };
    let wide = sum as i128;
    let bound = halfedge_count as i128;
    if wide > bound || wide < -bound {
        return Err(TopologyError::CountOverflow);
    }
    Ok(sum)
}

proof fn lemma_coalesce_last(terms: Seq<(usize, int)>)
    requires
        terms.len() > 0,
    ensures
        coalesce(terms).len() > 0,
        coalesce(terms).last().0 == terms.last().0,
{
}

proof fn lemma_nonzero_push(terms: Seq<(usize, int)>, t: (usize, int))
    ensures
        nonzero(terms.push(t)) == if t.1 != 0 {
            nonzero(terms).push(t)
        } else {
            nonzero(terms)
        },
{
    assert(terms.push(t).drop_last() =~= terms);
}

proof fn lemma_coalesce_push(terms: Seq<(usize, int)>, t: (usize, int))
    ensures
        coalesce(terms.push(t)) == if coalesce(terms).len() > 0 && coalesce(terms).last().0 == t.0 {
            coalesce(terms).drop_last().push((t.0, coalesce(terms).last().1 + t.1))
        } else {
            coalesce(terms).push(t)
        },
{
    assert(terms.push(t).drop_last() =~= terms);
}

} // verus!

verus! {

/// Whether every coefficient is a unit.
pub open spec fn unit_entries(entries: Seq<BoundaryEntry>) -> bool {
    forall|i: int| 0 <= i < entries.len() ==> #[trigger] entries[i].coefficient == 1 || entries[i].coefficient == -1
}

/// The compressed rows of the summed unit entries of a boundary of the given
/// shape: `InternalInvariant` when the entries are not ordered by column or
/// leave the shape.
pub fn build_boundary(degree: usize, shape: (usize, usize), entries: Vec<BoundaryEntry>, halfedge_count: usize) -> (r:
    Result<NativeBoundary64, TopologyError>)
    requires
        unit_entries(entries@),
        entries@.len() <= halfedge_count <= 0x7fff_ffff_ffff_ffff,
        shape.0 < usize::MAX,
    ensures
        !columns_sorted(entries@) ==> r == Err::<NativeBoundary64, TopologyError>(TopologyError::InternalInvariant),
        !within_shape(entries@, shape.0 as int, shape.1 as int) ==> r == Err::<NativeBoundary64, TopologyError>(
            TopologyError::InternalInvariant,
        ),
        columns_sorted(entries@) && within_shape(entries@, shape.0 as int, shape.1 as int) ==> (r matches Ok(b)
            && b.spec_degree() == degree && b.spec_storage().spec_rows() == shape.0
            && b.spec_storage().spec_columns() == shape.1 && holds_entries(
            b.spec_storage().spec_indptr(),
            b.spec_storage().spec_indices(),
            b.spec_storage().spec_values(),
            entries@,
            shape.0 as int,
        )),
{
    let count = entries.len();
    let mut i: usize = 1;
    while i < count
        invariant
            1 <= i,
            count == entries@.len(),
            forall|a: int, b: int| 0 <= a < b < i && b < count ==> #[trigger] entries@[a].column <= #[trigger] entries@[b].column,
        decreases count - i,
    {
        if entries[i - 1].column > entries[i].column {
            proof {
                assert(!columns_sorted(entries@)) by {
                    assert(entries@[i - 1].column > entries@[i as int].column);
                }
            }
            return Err(TopologyError::InternalInvariant);
        }
        proof {
            assert forall|a: int, b: int| 0 <= a < b < i + 1 && b < count implies #[trigger] entries@[a].column
                <= #[trigger] entries@[b].column by {
                if b == i && a < i - 1 {
                    assert(entries@[a].column <= entries@[i - 1].column);
                }
            }
        }
        i = i + 1;
    }
    proof {
        assert forall|a: int, b: int| 0 <= a < b < entries@.len() implies #[trigger] entries@[a].column
            <= #[trigger] entries@[b].column by {
            assert(b < i);
        }
    }
    let mut rows: Vec<usize> = Vec::new();
    let mut k: usize = 0;
    while k < count
        invariant
            count == entries@.len(),
            k <= count,
            rows@ == entry_rows(entries@).take(k as int),
            forall|q: int| 0 <= q < k ==> #[trigger] entries@[q].row < shape.0 && entries@[q].column < shape.1,
        decreases count - k,
    {
        let entry = entries[k];
        if entry.row >= shape.0 || entry.column >= shape.1 {
            proof {
                assert(!within_shape(entries@, shape.0 as int, shape.1 as int)) by {
                    assert(entries@[k as int] == entry);
                }
            }
            return Err(TopologyError::InternalInvariant);
        }
        rows.push(entry.row);
        k = k + 1;
        proof {
            assert(rows@ =~= entry_rows(entries@).take(k as int));
        }
    }
    proof {
        assert(rows@ =~= entry_rows(entries@));
    }
    let (offsets, order) = bucket_order(&rows, shape.0);
    let mut indptr: Vec<usize> = Vec::new();
    let mut indices: Vec<usize> = Vec::new();
    let mut data: Vec<i64> = Vec::new();
    indptr.push(0);
    let mut r: usize = 0;
    while r < shape.0
        invariant
            count == entries@.len(),
            rows@ == entry_rows(entries@),
            within_shape(entries@, shape.0 as int, shape.1 as int),
            unit_entries(entries@),
            count <= halfedge_count <= 0x7fff_ffff_ffff_ffff,
            offsets@.len() == shape.0 + 1,
            order@.len() == count,
            forall|a: int, b: int| 0 <= a <= b <= shape.0 ==> #[trigger] offsets@[a] <= #[trigger] offsets@[b],
            offsets@[0] == 0,
            offsets@[shape.0 as int] == count,
            forall|x: int|
                0 <= x < shape.0 ==> order@.subrange(offsets@[x] as int, offsets@[x + 1] as int) == #[trigger] bucket(
                    rows@,
                    rows@.len() as int,
                    x,
                ),
            r <= shape.0,
            indptr@.len() == r + 1,
            indptr@[0] == 0,
            indptr@[r as int] == indices@.len(),
            data@.len() == indices@.len(),
            forall|a: int, b: int| 0 <= a <= b <= r ==> #[trigger] indptr@[a] <= #[trigger] indptr@[b],
            forall|q: int| 0 <= q < indices@.len() ==> #[trigger] indices@[q] < shape.1,
            holds_entries(indptr@, indices@, data@, entries@, r as int),
            indices@.len() <= offsets@[r as int],
        decreases shape.0 - r,
    {
        let lo = offsets[r];
        let hi = offsets[r + 1];
        let ghost terms = row_terms(entries@, r as int);
        let ghost start_len = indices@.len() as int;
        let ghost row_indices = indices@;
        let ghost row_data = data@;
        proof {
            assert(lo <= hi <= count);
            lemma_bucket_members(rows@, rows@.len() as int, r as int);
            assert(order@.subrange(lo as int, hi as int) == bucket(rows@, rows@.len() as int, r as int));
            assert(terms.len() == hi - lo);
            assert forall|q: int| 0 <= q < hi - lo implies #[trigger] terms[q] == (
                entries@[order@[lo + q] as int].column,
                entries@[order@[lo + q] as int].coefficient as int,
            ) && order@[lo + q] < count by {
                assert(order@.subrange(lo as int, hi as int)[q] == order@[lo + q]);
            }
            assert(terms.take(0) =~= Seq::<(usize, int)>::empty());
            assert forall|q: int| lo <= q < hi implies #[trigger] order@[q] < count by {
                assert(terms[q - lo] == terms[q - lo]);
            }
        }
        let mut p: usize = lo;
        while p < hi
            invariant
                count == entries@.len(),
                within_shape(entries@, shape.0 as int, shape.1 as int),
                unit_entries(entries@),
                count <= halfedge_count <= 0x7fff_ffff_ffff_ffff,
                order@.len() == count,
                lo <= p <= hi <= count,
                forall|q: int| lo <= q < hi ==> #[trigger] order@[q] < count,
                terms == row_terms(entries@, r as int),
                terms.len() == hi - lo,
                forall|q: int| 0 <= q < hi - lo ==> #[trigger] terms[q] == (
                    entries@[order@[lo + q] as int].column,
                    entries@[order@[lo + q] as int].coefficient as int,
                ) && order@[lo + q] < count,
                start_len <= lo,
                row_indices.len() == start_len,
                row_data.len() == start_len,
                indices@.len() == start_len + nonzero(coalesce(terms.take(p - lo))).len(),
                data@.len() == indices@.len(),
                indices@.len() <= p,
                forall|q: int| 0 <= q < start_len ==> indices@[q] == row_indices[q] && data@[q] == row_data[q],
                forall|q: int| 0 <= q < indices@.len() ==> #[trigger] indices@[q] < shape.1,
                forall|k: int|
                    #![trigger nonzero(coalesce(terms.take(p - lo)))[k]]
                    0 <= k < nonzero(coalesce(terms.take(p - lo))).len() ==> indices@[start_len + k]
                        == nonzero(coalesce(terms.take(p - lo)))[k].0 && data@[start_len + k] as int == nonzero(
                        coalesce(terms.take(p - lo)),
                    )[k].1,
                p == lo || p == hi || terms[p - lo - 1].0 != terms[p - lo].0,
            decreases hi - p,
        {
            let column = entries[order[p]].column;
            let run_start = p;
            let ghost base = coalesce(terms.take(p - lo));
            proof {
                let q = order@[p as int] as int;
                assert(0 <= q < count);
                assert(within_shape(entries@, shape.0 as int, shape.1 as int));
                assert(entries@[q].row < shape.0);
                assert(column == entries@[q].column);
                assert(column < shape.1);
                if p > lo {
                    lemma_coalesce_last(terms.take(p - lo));
                    assert(terms.take(p - lo).last() == terms[p - lo - 1]);
                }
            }
            let mut sum: i64 = 0;
            while p < hi && entries[order[p]].column == column
                invariant
                    count == entries@.len(),
                    unit_entries(entries@),
                    count <= halfedge_count <= 0x7fff_ffff_ffff_ffff,
                    order@.len() == count,
                    lo <= run_start <= p <= hi <= count,
                    forall|q: int| lo <= q < hi ==> #[trigger] order@[q] < count,
                    terms.len() == hi - lo,
                    forall|q: int| 0 <= q < hi - lo ==> #[trigger] terms[q] == (
                        entries@[order@[lo + q] as int].column,
                        entries@[order@[lo + q] as int].coefficient as int,
                    ) && order@[lo + q] < count,
                    base == coalesce(terms.take(run_start - lo)),
                    base.len() == 0 || base.last().0 != column,
                    -(p - run_start) <= sum <= p - run_start,
                    p == run_start ==> sum == 0,
                    p > run_start ==> coalesce(terms.take(p - lo)) == base.push((column, sum as int)),
                decreases hi - p,
            {
                let coefficient = entries[order[p]].coefficient;
                proof {
                    assert(terms[p - lo] == (column, coefficient as int));
                    assert(terms.take(p - lo + 1) =~= terms.take(p - lo).push(terms[p - lo]));
                    lemma_coalesce_push(terms.take(p - lo), terms[p - lo]);
                }
                sum = match checked_coefficient_sum(sum, coefficient, halfedge_count) {
                    Ok(v) => v,
                    Err(e) => {
                        proof {
                            assert(false);
                        }
                        return Err(e);
                    },
                };
                p = p + 1;
            }
            proof {
                assert(p > run_start);
                lemma_nonzero_push(base, (column, sum as int));
            }
            if sum != 0 {
                indices.push(column);
                data.push(sum);
            }
            proof {
                let merged = nonzero(coalesce(terms.take(p - lo)));
                assert forall|k: int| #![trigger merged[k]] 0 <= k < merged.len() implies indices@[start_len + k] == merged[k].0 && data@[
                    start_len + k] as int == merged[k].1 by {
                    if k < nonzero(base).len() {
                        assert(merged[k] == nonzero(base)[k]);
                    }
                }
                if p < hi {
                    assert(terms[p - lo - 1].0 == column);
                }
            }
        }
        proof {
            assert(terms.take(hi - lo) =~= terms);
        }
        indptr.push(indices.len());
        proof {
            assert forall|x: int| 0 <= x < r + 1 implies {
                let t = #[trigger] merged_row(entries@, x);
                let l = indptr@[x] as int;
                &&& indptr@[x + 1] - l == t.len()
                &&& forall|k: int| 0 <= k < t.len() ==> indices@[l + k] == t[k].0 && data@[l + k] as int == t[k].1
            } by {
                if x < r {
                    let t = merged_row(entries@, x);
                    let l = indptr@[x] as int;
                    assert(indptr@[x + 1] <= indptr@[r as int]);
                    assert forall|k: int| 0 <= k < t.len() implies indices@[l + k] == t[k].0 && data@[l + k] as int == t[k].1 by {
                        assert(l + k < start_len);
                        assert(row_indices[l + k] == t[k].0);
                    }
                }
            }
            assert forall|a: int, b: int| 0 <= a <= b <= r + 1 implies #[trigger] indptr@[a] <= #[trigger] indptr@[b] by {
                if b == r + 1 && a <= r {
                    assert(indptr@[a] <= indptr@[r as int]);
                }
            }
            assert(offsets@[r as int] <= offsets@[r + 1]);
        }
        r = r + 1;
    }
    proof {
        assert(offsets@[r as int] == count);
    }
    match NativeBoundary64::try_from_csr(degree, shape, indptr, indices, data) {
        Ok(b) => Ok(b),
        Err(e) => {
            proof {
                assert(Csr::<i64>::parts_wf(shape.0 as int, shape.1 as int, indptr@, indices@, data@));
            }
            Err(e)
        },
    }
}

} // verus!

verus! {

/// The boundary entries of edge `e`: `-1` at the vertex of its representative
/// halfedge and `+1` at the vertex of the twin, none for a loop.
pub open spec fn edge_column(vertex_of: Seq<usize>, twin: Seq<usize>, reps: Seq<usize>, e: int) -> Seq<BoundaryEntry> {
    let h = reps[e] as int;
    let origin = vertex_of[h];
    let terminal = vertex_of[twin[h] as int];
    if origin != terminal {
        seq![
            BoundaryEntry { row: origin, column: e as usize, coefficient: -1i64 },
            BoundaryEntry { row: terminal, column: e as usize, coefficient: 1i64 },
        ]
    } else {
        Seq::empty()
    }
}

/// The boundary entries of the first `n` edges, edge by edge.
pub open spec fn edge_entries(vertex_of: Seq<usize>, twin: Seq<usize>, reps: Seq<usize>, n: int) -> Seq<BoundaryEntry>
    decreases n,
{
    if n <= 0 {
        Seq::empty()
    } else {
        edge_entries(vertex_of, twin, reps, n - 1) + edge_column(vertex_of, twin, reps, n - 1)
    }
}

/// The halfedges of orbit `f` in a packed orbit table.
pub open spec fn orbit_members(offsets: Seq<usize>, halfedges: Seq<usize>, f: int) -> Seq<usize> {
    halfedges.subrange(offsets[f] as int, offsets[f + 1] as int)
}

/// The boundary entry of halfedge `h` of material face `m`: `+1` at its
/// edge when `h` represents the edge, `-1` when its twin does.
pub open spec fn face_entry(edge_of: Seq<usize>, reps: Seq<usize>, m: int, h: usize) -> BoundaryEntry {
    let e = edge_of[h as int];
    BoundaryEntry {
        row: e,
        column: m as usize,
        coefficient: if reps[e as int] == h {
            1i64
        } else {
            -1i64
        },
    }
}

/// The boundary entries of material face `m` with boundary halfedges `members`.
pub open spec fn face_column(edge_of: Seq<usize>, reps: Seq<usize>, members: Seq<usize>, m: int) -> Seq<BoundaryEntry> {
    members.map_values(|h: usize| face_entry(edge_of, reps, m, h))
}

/// The boundary entries of the first `n` material faces, face by face.
pub open spec fn face_entries(
    edge_of: Seq<usize>,
    reps: Seq<usize>,
    offsets: Seq<usize>,
    halfedges: Seq<usize>,
    material: Seq<usize>,
    n: int,
) -> Seq<BoundaryEntry>
    decreases n,
{
    if n <= 0 {
        Seq::empty()
    } else {
        face_entries(edge_of, reps, offsets, halfedges, material, n - 1) + face_column(
            edge_of,
            reps,
            orbit_members(offsets, halfedges, material[n - 1] as int),
            n - 1,
        )
    }
}

/// The vertex-edge boundary entries of a halfedge surface, ordered by edge.
pub fn edge_boundary_entries(vertex_of: &[usize], twin: &[usize], reps: &[usize], vertex_total: usize) -> (v: Vec<
    BoundaryEntry,
>)
    requires
        twin@.len() == vertex_of@.len(),
        forall|e: int| 0 <= e < reps@.len() ==> #[trigger] reps@[e] < twin@.len(),
        forall|h: int| 0 <= h < twin@.len() ==> #[trigger] twin@[h] < twin@.len(),
        forall|h: int| 0 <= h < vertex_of@.len() ==> #[trigger] vertex_of@[h] < vertex_total,
    ensures
        v@ == edge_entries(vertex_of@, twin@, reps@, reps@.len() as int),
        v@.len() <= 2 * reps@.len(),
        columns_sorted(v@),
        within_shape(v@, vertex_total as int, reps@.len() as int),
        unit_entries(v@),
{
    let mut v: Vec<BoundaryEntry> = Vec::new();
    let mut e: usize = 0;
    while e < reps.len()
        invariant
            e <= reps@.len(),
            twin@.len() == vertex_of@.len(),
            forall|k: int| 0 <= k < reps@.len() ==> #[trigger] reps@[k] < twin@.len(),
            forall|h: int| 0 <= h < twin@.len() ==> #[trigger] twin@[h] < twin@.len(),
            forall|h: int| 0 <= h < vertex_of@.len() ==> #[trigger] vertex_of@[h] < vertex_total,
            v@ == edge_entries(vertex_of@, twin@, reps@, e as int),
            v@.len() <= 2 * e,
            columns_sorted(v@),
            forall|i: int| 0 <= i < v@.len() ==> (#[trigger] v@[i]).column < e,
            within_shape(v@, vertex_total as int, reps@.len() as int),
            unit_entries(v@),
        decreases reps@.len() - e,
    {
        let representative = reps[e];
        let origin = vertex_of[representative];
        let terminal = vertex_of[twin[representative]];
        let ghost before = v@;
        if origin != terminal {
            v.push(BoundaryEntry { row: origin, column: e, coefficient: -1 });
            v.push(BoundaryEntry { row: terminal, column: e, coefficient: 1 });
        }
        proof {
            assert(v@ =~= before + edge_column(vertex_of@, twin@, reps@, e as int));
            assert(forall|i: int| before.len() <= i < v@.len() ==> (#[trigger] v@[i]).column == e);
        }
        e = e + 1;
    }
    v
}

/// The edge-face boundary entries of the material faces of a halfedge
/// surface, ordered by material face.
#[verifier::rlimit(100)]
#[verifier::spinoff_prover]
pub fn face_boundary_entries(
    edge_of: &[usize],
    reps: &[usize],
    offsets: &[usize],
    halfedges: &[usize],
    material: &[usize],
) -> (v: Vec<BoundaryEntry>)
    requires
        crate::orbit::segments_wf(offsets@, offsets@.len() - 1, halfedges@.len() as int),
        forall|p: int| 0 <= p < halfedges@.len() ==> #[trigger] halfedges@[p] < edge_of@.len(),
        forall|h: int| 0 <= h < edge_of@.len() ==> #[trigger] edge_of@[h] < reps@.len(),
        forall|i: int| 0 <= i < material@.len() ==> #[trigger] material@[i] < offsets@.len() - 1,
        forall|i: int, j: int| 0 <= i < j < material@.len() ==> #[trigger] material@[i] < #[trigger] material@[j],
    ensures
        v@ == face_entries(edge_of@, reps@, offsets@, halfedges@, material@, material@.len() as int),
        v@.len() <= halfedges@.len(),
        columns_sorted(v@),
        within_shape(v@, reps@.len() as int, material@.len() as int),
        unit_entries(v@),
{
    let ghost count = offsets@.len() - 1;
    let ghost n = halfedges@.len() as int;
    let mut v: Vec<BoundaryEntry> = Vec::new();
    let mut i: usize = 0;
    while i < material.len()
        invariant
            i <= material@.len(),
            crate::orbit::segments_wf(offsets@, count, n),
            count == offsets@.len() - 1,
            n == halfedges@.len(),
            forall|p: int| 0 <= p < halfedges@.len() ==> #[trigger] halfedges@[p] < edge_of@.len(),
            forall|h: int| 0 <= h < edge_of@.len() ==> #[trigger] edge_of@[h] < reps@.len(),
            forall|k: int| 0 <= k < material@.len() ==> #[trigger] material@[k] < count,
            forall|a: int, b: int| 0 <= a < b < material@.len() ==> #[trigger] material@[a] < #[trigger] material@[b],
            v@ == face_entries(edge_of@, reps@, offsets@, halfedges@, material@, i as int),
            i == 0 ==> v@.len() == 0,
            i > 0 ==> v@.len() <= offsets@[material@[i - 1] + 1],
            columns_sorted(v@),
            forall|k: int| 0 <= k < v@.len() ==> (#[trigger] v@[k]).column < i,
            within_shape(v@, reps@.len() as int, material@.len() as int),
            unit_entries(v@),
        decreases material@.len() - i,
    {
        let face = material[i];
        let start = offsets[face];
        let end = offsets[face + 1];
        let ghost members = orbit_members(offsets@, halfedges@, face as int);
        let ghost before = v@;
        proof {
            assert(offsets@[face as int] < offsets@[face + 1]);
            assert(offsets@[face + 1] <= offsets@[count]);
            if i > 0 {
                assert(material@[i - 1] < material@[i as int]);
                assert(offsets@[material@[i - 1] + 1] <= offsets@[face as int]);
            }
            assert(members.take(0) =~= Seq::<usize>::empty());
            assert(before =~= before + face_column(edge_of@, reps@, members.take(0), i as int));
        }
        let mut p: usize = start;
        while p < end
            invariant
                start <= p <= end,
                end <= halfedges@.len(),
                start == offsets@[face as int],
                end == offsets@[face + 1],
                members == halfedges@.subrange(start as int, end as int),
                i < material@.len(),
                forall|q: int| 0 <= q < halfedges@.len() ==> #[trigger] halfedges@[q] < edge_of@.len(),
                forall|h: int| 0 <= h < edge_of@.len() ==> #[trigger] edge_of@[h] < reps@.len(),
                v@ == before + face_column(edge_of@, reps@, members.take(p - start), i as int),
                before.len() <= start,
                v@.len() <= p,
                columns_sorted(before),
                forall|k: int| 0 <= k < before.len() ==> (#[trigger] before[k]).column < i,
                forall|k: int| before.len() <= k < v@.len() ==> (#[trigger] v@[k]).column == i,
                within_shape(v@, reps@.len() as int, material@.len() as int),
                unit_entries(v@),
            decreases end - p,
        {
            let halfedge = halfedges[p];
            let edge = edge_of[halfedge];
            let coefficient: i64 = if reps[edge] == halfedge {
                1
            } else {
                -1
            };
            v.push(BoundaryEntry { row: edge, column: i, coefficient });
            proof {
                let k = p - start;
                assert(members[k] == halfedge);
                assert(members.take(k + 1) =~= members.take(k).push(halfedge));
                assert(face_column(edge_of@, reps@, members.take(k + 1), i as int) =~= face_column(
                    edge_of@,
                    reps@,
                    members.take(k),
                    i as int,
                ).push(face_entry(edge_of@, reps@, i as int, halfedge)));
            }
            p = p + 1;
        }
        proof {
            assert(members.take(end - start) =~= members);
            assert(v@ =~= face_entries(edge_of@, reps@, offsets@, halfedges@, material@, i + 1));
            assert forall|a: int, b: int| 0 <= a < b < v@.len() implies #[trigger] v@[a].column
                <= #[trigger] v@[b].column by {
                if b < before.len() {
                    assert(before[a] == v@[a] && before[b] == v@[b]);
                }
            }
        }
        i = i + 1;
    }
    v
}

} // verus!

verus! {

/// The three boundaries of a halfedge surface: the empty boundary of the
/// vertices (degree 0), the vertex-edge incidences (degree 1), and the
/// edge-face incidences of the material faces (degree 2).
#[derive(Debug)]
pub struct SurfaceChain {
    zero: NativeBoundary64,
    one: NativeBoundary64,
    two: NativeBoundary64,
}

impl SurfaceChain {
    pub closed spec fn spec_boundary(&self, d: int) -> NativeBoundary64 {
        if d == 0 {
            self.zero
        } else if d == 1 {
            self.one
        } else {
            self.two
        }
    }

    /// The retained boundary of one degree; `DegreeOutside` beyond two.
    pub fn boundary(&self, degree: usize) -> (r: Result<&NativeBoundary64, TopologyError>)
        ensures
            degree <= 2 ==> (r matches Ok(b) && *b == self.spec_boundary(degree as int)),
            degree > 2 ==> r == Err::<&NativeBoundary64, TopologyError>(TopologyError::DegreeOutside(degree)),
    {
        if degree == 0 {
            Ok(&self.zero)
        } else if degree == 1 {
            Ok(&self.one)
        } else if degree == 2 {
            Ok(&self.two)
        } else {
            Err(TopologyError::DegreeOutside(degree))
        }
    }
}

/// Whether `b` is the boundary of degree `d` and shape `rows` by `columns`
/// whose compressed rows hold the summed `entries`.
pub open spec fn boundary_holds(b: NativeBoundary64, d: int, rows: int, columns: int, entries: Seq<BoundaryEntry>) -> bool {
    let m = b.spec_storage();
    &&& b.spec_degree() == d
    &&& m.spec_rows() == rows
    &&& m.spec_columns() == columns
    &&& holds_entries(m.spec_indptr(), m.spec_indices(), m.spec_values(), entries, rows)
}

/// Whether `chain` is the chain of the surface with vertex, twin and edge
/// tables `vertex_of`, `twin`, `edge_reps`, `edge_of`, packed face orbits
/// `face_offsets`/`face_halfedges`, and material face orbits `material`.
#[verifier::opaque]
pub open spec fn surface_chain_holds(
    chain: SurfaceChain,
    vertex_of: Seq<usize>,
    twin: Seq<usize>,
    edge_reps: Seq<usize>,
    edge_of: Seq<usize>,
    face_offsets: Seq<usize>,
    face_halfedges: Seq<usize>,
    material: Seq<usize>,
    vertex_total: int,
) -> bool {
    &&& edge_entries(vertex_of, twin, edge_reps, edge_reps.len() as int).len() <= 2 * edge_reps.len()
    &&& face_entries(edge_of, edge_reps, face_offsets, face_halfedges, material, material.len() as int).len()
        <= face_halfedges.len()
    &&& boundary_holds(chain.spec_boundary(0), 0, 0, vertex_total, Seq::empty())
    &&& boundary_holds(
        chain.spec_boundary(1),
        1,
        vertex_total,
        edge_reps.len() as int,
        edge_entries(vertex_of, twin, edge_reps, edge_reps.len() as int),
    )
    &&& boundary_holds(
        chain.spec_boundary(2),
        2,
        edge_reps.len() as int,
        material.len() as int,
        face_entries(edge_of, edge_reps, face_offsets, face_halfedges, material, material.len() as int),
    )
}

/// The chain of an admitted halfedge surface, built from its vertex, edge and
/// face orbit tables.
pub fn build_surface_chain(
    halfedge_count: usize,
    vertex_of: &[usize],
    vertex_total: usize,
    twin: &[usize],
    edge_reps: &[usize],
    edge_of: &[usize],
    face_offsets: &[usize],
    face_halfedges: &[usize],
    material: &[usize],
) -> (r: Result<SurfaceChain, TopologyError>)
    requires
        halfedge_count <= 0x7fff_ffff_ffff_ffff,
        vertex_of@.len() == halfedge_count,
        twin@.len() == halfedge_count,
        edge_of@.len() == halfedge_count,
        face_halfedges@.len() == halfedge_count,
        vertex_total <= halfedge_count,
        2 * edge_reps@.len() == halfedge_count,
        forall|e: int| 0 <= e < edge_reps@.len() ==> #[trigger] edge_reps@[e] < halfedge_count,
        forall|h: int| 0 <= h < halfedge_count ==> #[trigger] twin@[h] < halfedge_count,
        forall|h: int| 0 <= h < halfedge_count ==> #[trigger] vertex_of@[h] < vertex_total,
        forall|h: int| 0 <= h < halfedge_count ==> #[trigger] edge_of@[h] < edge_reps@.len(),
        crate::orbit::segments_wf(face_offsets@, face_offsets@.len() - 1, halfedge_count as int),
        forall|p: int| 0 <= p < halfedge_count ==> #[trigger] face_halfedges@[p] < halfedge_count,
        forall|i: int| 0 <= i < material@.len() ==> #[trigger] material@[i] < face_offsets@.len() - 1,
        forall|i: int, j: int| 0 <= i < j < material@.len() ==> #[trigger] material@[i] < #[trigger] material@[j],
    ensures
        r matches Ok(chain) && surface_chain_holds(
            chain,
            vertex_of@,
            twin@,
            edge_reps@,
            edge_of@,
            face_offsets@,
            face_halfedges@,
            material@,
            vertex_total as int,
        ),
{
    let empty: Vec<BoundaryEntry> = Vec::new();
    proof {
        assert(columns_sorted(empty@));
        assert(within_shape(empty@, 0, vertex_total as int));
    }
    let zero = match build_boundary(0, (0, vertex_total), empty, halfedge_count) {
        Ok(b) => b,
        Err(e) => return Err(e),
    };
    let edge_entries_vec = edge_boundary_entries(vertex_of, twin, edge_reps, vertex_total);
    let ghost lower = edge_entries_vec@;
    let one = match build_boundary(1, (vertex_total, edge_reps.len()), edge_entries_vec, halfedge_count) {
        Ok(b) => b,
        Err(e) => return Err(e),
    };
    let face_entries_vec = face_boundary_entries(edge_of, edge_reps, face_offsets, face_halfedges, material);
    let ghost upper = face_entries_vec@;
    let two = match build_boundary(2, (edge_reps.len(), material.len()), face_entries_vec, halfedge_count) {
        Ok(b) => b,
        Err(e) => return Err(e),
    };
    proof {
        assert(Seq::<BoundaryEntry>::empty() =~= empty@);
        reveal(surface_chain_holds);
    }
    Ok(SurfaceChain { zero, one, two })
}

} // verus!

verus! {

/// The summed coefficient of the entries at row `r` and column `c`.
pub open spec fn entry_sum(entries: Seq<BoundaryEntry>, r: int, c: int) -> int
    decreases entries.len(),
{
    if entries.len() == 0 {
        0
    } else {
        let e = entries.last();
        entry_sum(entries.drop_last(), r, c) + if e.row == r && e.column == c {
            e.coefficient as int
        } else {
            0
        }
    }
}

/// Entry `(v, m)` of the product of the summed `lower` and `upper` entries,
/// over the middle indices `0..k`.
pub open spec fn composed(lower: Seq<BoundaryEntry>, upper: Seq<BoundaryEntry>, v: int, m: int, k: int) -> int
    decreases k,
{
    if k <= 0 {
        0
    } else {
        composed(lower, upper, v, m, k - 1) + entry_sum(lower, v, k - 1) * entry_sum(upper, k - 1, m)
    }
}

/// `1` when `a == b`, else `0`.
pub open spec fn indicator(a: int, b: int) -> int {
    if a == b {
        1
    } else {
        0
    }
}

/// The summed vertex-edge coefficient of vertex `v` on edge `e`: `+1` at the
/// vertex of the twin of the representative, `-1` at the vertex of the
/// representative.
pub open spec fn incidence(vertex_of: Seq<usize>, twin: Seq<usize>, reps: Seq<usize>, v: int, e: int) -> int {
    let h = reps[e] as int;
    indicator(vertex_of[twin[h] as int] as int, v) - indicator(vertex_of[h] as int, v)
}

/// The coefficient of halfedge `h` on its edge: `+1` for the representative.
pub open spec fn face_sign(edge_of: Seq<usize>, reps: Seq<usize>, h: int) -> int {
    if reps[edge_of[h] as int] as int == h {
        1
    } else {
        -1
    }
}

/// The summed edge-face coefficient of edge `e` over boundary halfedges `members`.
pub open spec fn member_sum(edge_of: Seq<usize>, reps: Seq<usize>, members: Seq<usize>, e: int) -> int
    decreases members.len(),
{
    if members.len() == 0 {
        0
    } else {
        let h = members.last() as int;
        member_sum(edge_of, reps, members.drop_last(), e) + if edge_of[h] as int == e {
            face_sign(edge_of, reps, h)
        } else {
            0
        }
    }
}

/// The vertex-`v` coefficients of the boundaries of the edges of `members`,
/// weighted by their signs.
pub open spec fn weighted(
    vertex_of: Seq<usize>,
    twin: Seq<usize>,
    reps: Seq<usize>,
    edge_of: Seq<usize>,
    members: Seq<usize>,
    v: int,
) -> int
    decreases members.len(),
{
    if members.len() == 0 {
        0
    } else {
        let h = members.last() as int;
        weighted(vertex_of, twin, reps, edge_of, members.drop_last(), v) + face_sign(edge_of, reps, h) * incidence(
            vertex_of,
            twin,
            reps,
            v,
            edge_of[h] as int,
        )
    }
}

/// Sum over middle indices `0..k` of the incidences of `v` times the
/// edge-face coefficients of `members`.
pub open spec fn composed_members(
    vertex_of: Seq<usize>,
    twin: Seq<usize>,
    reps: Seq<usize>,
    edge_of: Seq<usize>,
    members: Seq<usize>,
    v: int,
    k: int,
) -> int
    decreases k,
{
    if k <= 0 {
        0
    } else {
        composed_members(vertex_of, twin, reps, edge_of, members, v, k - 1) + incidence(vertex_of, twin, reps, v, k - 1)
            * member_sum(edge_of, reps, members, k - 1)
    }
}

proof fn lemma_entry_sum_concat(a: Seq<BoundaryEntry>, b: Seq<BoundaryEntry>, r: int, c: int)
    ensures
        entry_sum(a + b, r, c) == entry_sum(a, r, c) + entry_sum(b, r, c),
    decreases b.len(),
{
    if b.len() == 0 {
        assert(a + b =~= a);
    } else {
        lemma_entry_sum_concat(a, b.drop_last(), r, c);
        assert((a + b).drop_last() =~= a + b.drop_last());
    }
}

proof fn lemma_edge_sum(vertex_of: Seq<usize>, twin: Seq<usize>, reps: Seq<usize>, n: int, v: int, e: int)
    requires
        0 <= n <= usize::MAX,
    ensures
        entry_sum(edge_entries(vertex_of, twin, reps, n), v, e) == if 0 <= e < n {
            incidence(vertex_of, twin, reps, v, e)
        } else {
            0
        },
    decreases n,
{
    if n > 0 {
        lemma_edge_sum(vertex_of, twin, reps, n - 1, v, e);
        let column = edge_column(vertex_of, twin, reps, n - 1);
        lemma_entry_sum_concat(edge_entries(vertex_of, twin, reps, n - 1), column, v, e);
        reveal_with_fuel(entry_sum, 3);
        if column.len() == 2 {
            assert(column.drop_last().drop_last() =~= Seq::<BoundaryEntry>::empty());
            assert(column.drop_last().last() == column[0]);
        } else {
            assert(column =~= Seq::<BoundaryEntry>::empty());
        }
    }
}

proof fn lemma_face_column_sum(edge_of: Seq<usize>, reps: Seq<usize>, members: Seq<usize>, col: int, e: int, m: int)
    requires
        0 <= col <= usize::MAX,
    ensures
        entry_sum(face_column(edge_of, reps, members, col), e, m) == if col == m {
            member_sum(edge_of, reps, members, e)
        } else {
            0
        },
    decreases members.len(),
{
    if members.len() > 0 {
        lemma_face_column_sum(edge_of, reps, members.drop_last(), col, e, m);
        assert(face_column(edge_of, reps, members, col).drop_last() =~= face_column(
            edge_of,
            reps,
            members.drop_last(),
            col,
        ));
    }
}

proof fn lemma_face_sum(
    edge_of: Seq<usize>,
    reps: Seq<usize>,
    offsets: Seq<usize>,
    halfedges: Seq<usize>,
    material: Seq<usize>,
    n: int,
    e: int,
    m: int,
)
    requires
        0 <= n <= usize::MAX,
    ensures
        entry_sum(face_entries(edge_of, reps, offsets, halfedges, material, n), e, m) == if 0 <= m < n {
            member_sum(edge_of, reps, orbit_members(offsets, halfedges, material[m] as int), e)
        } else {
            0
        },
    decreases n,
{
    if n > 0 {
        lemma_face_sum(edge_of, reps, offsets, halfedges, material, n - 1, e, m);
        let members = orbit_members(offsets, halfedges, material[n - 1] as int);
        lemma_entry_sum_concat(
            face_entries(edge_of, reps, offsets, halfedges, material, n - 1),
            face_column(edge_of, reps, members, n - 1),
            e,
            m,
        );
        lemma_face_column_sum(edge_of, reps, members, n - 1, e, m);
    }
}

proof fn lemma_composed_push(
    vertex_of: Seq<usize>,
    twin: Seq<usize>,
    reps: Seq<usize>,
    edge_of: Seq<usize>,
    members: Seq<usize>,
    h: usize,
    v: int,
    k: int,
)
    requires
        0 <= k,
    ensures
        composed_members(vertex_of, twin, reps, edge_of, members.push(h), v, k) == composed_members(
            vertex_of,
            twin,
            reps,
            edge_of,
            members,
            v,
            k,
        ) + if 0 <= edge_of[h as int] < k {
            face_sign(edge_of, reps, h as int) * incidence(vertex_of, twin, reps, v, edge_of[h as int] as int)
        } else {
            0
        },
    decreases k,
{
    if k > 0 {
        lemma_composed_push(vertex_of, twin, reps, edge_of, members, h, v, k - 1);
        assert(members.push(h).drop_last() =~= members);
        let a = incidence(vertex_of, twin, reps, v, k - 1);
        let s = member_sum(edge_of, reps, members, k - 1);
        let d = if edge_of[h as int] as int == k - 1 {
            face_sign(edge_of, reps, h as int)
        } else {
            0
        };
        assert(a * (s + d) == a * s + a * d) by (nonlinear_arith);
        if edge_of[h as int] as int == k - 1 {
            assert(a * d == d * a) by (nonlinear_arith);
        }
    }
}

proof fn lemma_composed_weighted(
    vertex_of: Seq<usize>,
    twin: Seq<usize>,
    reps: Seq<usize>,
    edge_of: Seq<usize>,
    members: Seq<usize>,
    v: int,
    k: int,
)
    requires
        0 <= k,
        forall|j: int| 0 <= j < members.len() ==> #[trigger] edge_of[members[j] as int] < k,
    ensures
        composed_members(vertex_of, twin, reps, edge_of, members, v, k) == weighted(
            vertex_of,
            twin,
            reps,
            edge_of,
            members,
            v,
        ),
    decreases members.len(),
{
    if members.len() == 0 {
        lemma_composed_empty(vertex_of, twin, reps, edge_of, members, v, k);
    } else {
        let rest = members.drop_last();
        let h = members.last();
        assert forall|j: int| 0 <= j < rest.len() implies #[trigger] edge_of[rest[j] as int] < k by {
            assert(rest[j] == members[j]);
        }
        lemma_composed_weighted(vertex_of, twin, reps, edge_of, rest, v, k);
        assert(rest.push(h) =~= members);
        assert(edge_of[members[members.len() - 1] as int] < k);
        lemma_composed_push(vertex_of, twin, reps, edge_of, rest, h, v, k);
    }
}

proof fn lemma_composed_empty(
    vertex_of: Seq<usize>,
    twin: Seq<usize>,
    reps: Seq<usize>,
    edge_of: Seq<usize>,
    members: Seq<usize>,
    v: int,
    k: int,
)
    requires
        members.len() == 0,
    ensures
        composed_members(vertex_of, twin, reps, edge_of, members, v, k) == 0,
    decreases k,
{
    if k > 0 {
        lemma_composed_empty(vertex_of, twin, reps, edge_of, members, v, k - 1);
    }
}

proof fn lemma_composed_members(
    vertex_of: Seq<usize>,
    twin: Seq<usize>,
    reps: Seq<usize>,
    edge_of: Seq<usize>,
    offsets: Seq<usize>,
    halfedges: Seq<usize>,
    material: Seq<usize>,
    v: int,
    m: int,
    k: int,
)
    requires
        0 <= k <= reps.len(),
        reps.len() <= usize::MAX,
        material.len() <= usize::MAX,
        0 <= m < material.len(),
    ensures
        composed(
            edge_entries(vertex_of, twin, reps, reps.len() as int),
            face_entries(edge_of, reps, offsets, halfedges, material, material.len() as int),
            v,
            m,
            k,
        ) == composed_members(
            vertex_of,
            twin,
            reps,
            edge_of,
            orbit_members(offsets, halfedges, material[m] as int),
            v,
            k,
        ),
    decreases k,
{
    if k > 0 {
        lemma_composed_members(vertex_of, twin, reps, edge_of, offsets, halfedges, material, v, m, k - 1);
        lemma_edge_sum(vertex_of, twin, reps, reps.len() as int, v, k - 1);
        lemma_face_sum(edge_of, reps, offsets, halfedges, material, material.len() as int, k - 1, m);
    }
}

/// The weighted boundary of one boundary halfedge is the difference of the
/// vertex of its successor and its own vertex.
proof fn lemma_halfedge_term(
    vertex_of: Seq<usize>,
    next: Seq<usize>,
    twin: Seq<usize>,
    reps: Seq<usize>,
    edge_of: Seq<usize>,
    h: int,
    v: int,
)
    requires
        0 <= h < twin.len(),
        twin.len() == next.len(),
        twin[h] < twin.len(),
        twin[twin[h] as int] == h,
        vertex_of[next[twin[twin[h] as int] as int] as int] == vertex_of[twin[h] as int],
        vertex_of[next[twin[h] as int] as int] == vertex_of[h],
        h == reps[edge_of[h] as int] || h == twin[reps[edge_of[h] as int] as int],
        reps[edge_of[h] as int] < twin.len(),
        twin[reps[edge_of[h] as int] as int] < twin.len(),
        twin[twin[reps[edge_of[h] as int] as int] as int] == reps[edge_of[h] as int],
    ensures
        face_sign(edge_of, reps, h) * incidence(vertex_of, twin, reps, v, edge_of[h] as int) == indicator(
            vertex_of[next[h] as int] as int,
            v,
        ) - indicator(vertex_of[h] as int, v),
{
    let r = reps[edge_of[h] as int] as int;
    if r == h {
        assert(vertex_of[twin[h] as int] == vertex_of[next[h] as int]);
    } else {
        assert(twin[r] == h);
        assert(r == twin[h]);
        assert(vertex_of[twin[r] as int] == vertex_of[h]);
        assert(vertex_of[r] == vertex_of[next[h] as int]);
    }
}

/// Over one orbit of `next`, the weighted boundaries telescope to zero.
proof fn lemma_orbit_telescopes(
    vertex_of: Seq<usize>,
    next: Seq<usize>,
    twin: Seq<usize>,
    reps: Seq<usize>,
    edge_of: Seq<usize>,
    members: Seq<usize>,
    v: int,
)
    requires
        members.len() >= 1,
        forall|k: int| 0 <= k < members.len() - 1 ==> #[trigger] next[members[k] as int] == members[k + 1],
        next[members[members.len() - 1] as int] == members[0],
        forall|k: int|
            0 <= k < members.len() ==> #[trigger] (face_sign(edge_of, reps, members[k] as int) * incidence(
                vertex_of,
                twin,
                reps,
                v,
                edge_of[members[k] as int] as int,
            )) == indicator(vertex_of[next[members[k] as int] as int] as int, v) - indicator(
                vertex_of[members[k] as int] as int,
                v,
            ),
    ensures
        weighted(vertex_of, twin, reps, edge_of, members, v) == 0,
{
    let len = members.len() as int;
    let g = |k: int| indicator(vertex_of[members[k] as int] as int, v);
    assert forall|j: int| 1 <= j <= len implies #[trigger] weighted(
        vertex_of,
        twin,
        reps,
        edge_of,
        members.take(j),
        v,
    ) == (if j < len {
        g(j)
    } else {
        indicator(vertex_of[next[members[len - 1] as int] as int] as int, v)
    }) - g(0) by {
        lemma_prefix_telescopes(vertex_of, next, twin, reps, edge_of, members, v, j);
    }
    assert(members.take(len) =~= members);
}

proof fn lemma_prefix_telescopes(
    vertex_of: Seq<usize>,
    next: Seq<usize>,
    twin: Seq<usize>,
    reps: Seq<usize>,
    edge_of: Seq<usize>,
    members: Seq<usize>,
    v: int,
    j: int,
)
    requires
        1 <= j <= members.len(),
        forall|k: int| 0 <= k < members.len() - 1 ==> #[trigger] next[members[k] as int] == members[k + 1],
        forall|k: int|
            0 <= k < members.len() ==> #[trigger] (face_sign(edge_of, reps, members[k] as int) * incidence(
                vertex_of,
                twin,
                reps,
                v,
                edge_of[members[k] as int] as int,
            )) == indicator(vertex_of[next[members[k] as int] as int] as int, v) - indicator(
                vertex_of[members[k] as int] as int,
                v,
            ),
    ensures
        weighted(vertex_of, twin, reps, edge_of, members.take(j), v) == indicator(
            vertex_of[next[members[j - 1] as int] as int] as int,
            v,
        ) - indicator(vertex_of[members[0] as int] as int, v),
    decreases j,
{
    let prefix = members.take(j);
    assert(prefix.last() == members[j - 1]);
    assert(prefix.drop_last() =~= members.take(j - 1));
    let h = members[j - 1];
    assert(face_sign(edge_of, reps, members[j - 1] as int) * incidence(
        vertex_of,
        twin,
        reps,
        v,
        edge_of[members[j - 1] as int] as int,
    ) == indicator(vertex_of[next[members[j - 1] as int] as int] as int, v) - indicator(
        vertex_of[members[j - 1] as int] as int,
        v,
    ));
    let term = face_sign(edge_of, reps, h as int) * incidence(vertex_of, twin, reps, v, edge_of[h as int] as int);
    assert(weighted(vertex_of, twin, reps, edge_of, prefix, v) == weighted(
        vertex_of,
        twin,
        reps,
        edge_of,
        members.take(j - 1),
        v,
    ) + term);
    if j == 1 {
        assert(members.take(0) =~= Seq::<usize>::empty());
        assert(weighted(vertex_of, twin, reps, edge_of, members.take(0), v) == 0);
    } else {
        lemma_prefix_telescopes(vertex_of, next, twin, reps, edge_of, members, v, j - 1);
        assert(next[members[j - 2] as int] == members[j - 1]);
    }
}

/// On a surface presentation, the summed vertex-edge incidences composed
/// with the summed edge-face incidences of material face `m` vanish at every
/// vertex `v`: each boundary halfedge contributes the difference of the
/// vertices of its successor and of itself, and these telescope around the
/// face orbit.
pub proof fn lemma_surface_composes(
    vertex_of: Seq<usize>,
    next: Seq<usize>,
    twin: Seq<usize>,
    reps: Seq<usize>,
    edge_of: Seq<usize>,
    offsets: Seq<usize>,
    halfedges: Seq<usize>,
    material: Seq<usize>,
    v: int,
    m: int,
)
    requires
        next.len() == twin.len(),
        edge_of.len() == twin.len(),
        forall|h: int| 0 <= h < twin.len() ==> #[trigger] twin[h] < twin.len() && twin[twin[h] as int] == h,
        forall|h: int| 0 <= h < twin.len() ==> #[trigger] next[h] < twin.len(),
        forall|h: int|
            0 <= h < twin.len() ==> #[trigger] vertex_of[next[twin[h] as int] as int] == vertex_of[h],
        forall|h: int|
            0 <= h < twin.len() ==> #[trigger] edge_of[h] < reps.len() && (h == reps[edge_of[h] as int] || h
                == twin[reps[edge_of[h] as int] as int]),
        forall|e: int| 0 <= e < reps.len() ==> #[trigger] reps[e] < twin.len(),
        reps.len() <= usize::MAX,
        material.len() <= usize::MAX,
        0 <= m < material.len(),
        0 <= offsets[material[m] as int] < offsets[material[m] + 1] <= halfedges.len(),
        forall|p: int|
            offsets[material[m] as int] <= p < offsets[material[m] + 1] ==> #[trigger] halfedges[p] < twin.len(),
        forall|p: int|
            offsets[material[m] as int] <= p < offsets[material[m] + 1] - 1 ==> #[trigger] next[halfedges[p] as int]
                == halfedges[p + 1],
        next[halfedges[offsets[material[m] + 1] - 1] as int] == halfedges[offsets[material[m] as int] as int],
    ensures
        composed(
            edge_entries(vertex_of, twin, reps, reps.len() as int),
            face_entries(edge_of, reps, offsets, halfedges, material, material.len() as int),
            v,
            m,
            reps.len() as int,
        ) == 0,
{
    let f = material[m] as int;
    let start = offsets[f] as int;
    let end = offsets[f + 1] as int;
    let members = orbit_members(offsets, halfedges, f);
    let k = reps.len() as int;
    assert(members.len() == end - start);
    lemma_composed_members(vertex_of, twin, reps, edge_of, offsets, halfedges, material, v, m, k);
    assert forall|j: int| 0 <= j < members.len() implies #[trigger] edge_of[members[j] as int] < k by {
        assert(members[j] == halfedges[start + j]);
    }
    lemma_composed_weighted(vertex_of, twin, reps, edge_of, members, v, k);
    assert forall|j: int| 0 <= j < members.len() - 1 implies #[trigger] next[members[j] as int] == members[j + 1] by {
        assert(members[j] == halfedges[start + j]);
        assert(members[j + 1] == halfedges[start + j + 1]);
    }
    assert(members[members.len() - 1] == halfedges[end - 1]);
    assert(members[0] == halfedges[start]);
    assert forall|j: int| 0 <= j < members.len() implies #[trigger] (face_sign(edge_of, reps, members[j] as int)
        * incidence(vertex_of, twin, reps, v, edge_of[members[j] as int] as int)) == indicator(
        vertex_of[next[members[j] as int] as int] as int,
        v,
    ) - indicator(vertex_of[members[j] as int] as int, v) by {
        let h = members[j] as int;
        assert(members[j] == halfedges[start + j]);
        assert(0 <= h < twin.len());
        let t = twin[h] as int;
        assert(vertex_of[next[twin[t] as int] as int] == vertex_of[t]);
        assert(vertex_of[next[twin[h] as int] as int] == vertex_of[h]);
        let r = reps[edge_of[h] as int] as int;
        assert(0 <= r < twin.len());
        assert(twin[twin[r] as int] == r);
        lemma_halfedge_term(vertex_of, next, twin, reps, edge_of, h, v);
    }
    lemma_orbit_telescopes(vertex_of, next, twin, reps, edge_of, members, v);
}

/// The summed coefficient of column `c` among `terms`.
pub open spec fn term_sum(terms: Seq<(usize, int)>, c: int) -> int
    decreases terms.len(),
{
    if terms.len() == 0 {
        0
    } else {
        term_sum(terms.drop_last(), c) + if terms.last().0 == c {
            terms.last().1
        } else {
            0
        }
    }
}

/// The summed coefficient of column `c` at the compressed positions `lo..hi`.
pub open spec fn span_sum(indices: Seq<usize>, values: Seq<i64>, lo: int, hi: int, c: int) -> int
    decreases hi - lo,
{
    if hi <= lo {
        0
    } else {
        span_sum(indices, values, lo, hi - 1, c) + if indices[hi - 1] == c {
            values[hi - 1] as int
        } else {
            0
        }
    }
}

/// Entry `(r, c)` of a boundary held in compressed sparse rows.
pub open spec fn boundary_value(b: NativeBoundary64, r: int, c: int) -> int {
    let m = b.spec_storage();
    span_sum(m.spec_indices(), m.spec_values(), m.spec_indptr()[r] as int, m.spec_indptr()[r + 1] as int, c)
}

/// Entry `(v, m)` of the product of two boundaries, over the middle indices `0..k`.
pub open spec fn boundary_composed(lower: NativeBoundary64, upper: NativeBoundary64, v: int, m: int, k: int) -> int
    decreases k,
{
    if k <= 0 {
        0
    } else {
        boundary_composed(lower, upper, v, m, k - 1) + boundary_value(lower, v, k - 1) * boundary_value(
            upper,
            k - 1,
            m,
        )
    }
}

proof fn lemma_nonzero_sum(terms: Seq<(usize, int)>, c: int)
    ensures
        term_sum(nonzero(terms), c) == term_sum(terms, c),
    decreases terms.len(),
{
    if terms.len() > 0 {
        lemma_nonzero_sum(terms.drop_last(), c);
        let rest = nonzero(terms.drop_last());
        if terms.last().1 != 0 {
            assert(rest.push(terms.last()).drop_last() =~= rest);
        }
    }
}

proof fn lemma_coalesce_sum(terms: Seq<(usize, int)>, c: int)
    ensures
        term_sum(coalesce(terms), c) == term_sum(terms, c),
    decreases terms.len(),
{
    if terms.len() > 0 {
        lemma_coalesce_sum(terms.drop_last(), c);
        let rest = coalesce(terms.drop_last());
        let last = terms.last();
        if rest.len() > 0 && rest.last().0 == last.0 {
            let merged = (last.0, rest.last().1 + last.1);
            assert(rest.drop_last().push(merged).drop_last() =~= rest.drop_last());
        } else {
            assert(rest.push(last).drop_last() =~= rest);
        }
    }
}

proof fn lemma_bucket_sum(entries: Seq<BoundaryEntry>, k: int, r: int, c: int)
    requires
        0 <= k <= entries.len(),
        entries.len() <= usize::MAX,
    ensures
        term_sum(
            bucket(entry_rows(entries), k, r).map_values(
                |q: usize| (entries[q as int].column, entries[q as int].coefficient as int),
            ),
            c,
        ) == entry_sum(entries.take(k), r, c),
    decreases k,
{
    if k == 0 {
        assert(entries.take(0) =~= Seq::<BoundaryEntry>::empty());
    } else {
        lemma_bucket_sum(entries, k - 1, r, c);
        assert(entries.take(k).drop_last() =~= entries.take(k - 1));
        let previous = bucket(entry_rows(entries), k - 1, r);
        let current = bucket(entry_rows(entries), k, r);
        let mapped = current.map_values(|q: usize| (entries[q as int].column, entries[q as int].coefficient as int));
        let before = previous.map_values(|q: usize| (entries[q as int].column, entries[q as int].coefficient as int));
        if entry_rows(entries)[k - 1] == r {
            assert(current == previous.push((k - 1) as usize));
            assert(mapped.drop_last() =~= before);
            assert(mapped.last() == (entries[k - 1].column, entries[k - 1].coefficient as int));
        } else {
            assert(current == previous);
            assert(mapped =~= before);
        }
    }
}

proof fn lemma_span_terms(indices: Seq<usize>, values: Seq<i64>, lo: int, terms: Seq<(usize, int)>, j: int, c: int)
    requires
        0 <= j <= terms.len(),
        forall|k: int|
            0 <= k < terms.len() ==> indices[lo + k] == (#[trigger] terms[k]).0 && values[lo + k] as int == terms[k].1,
    ensures
        span_sum(indices, values, lo, lo + j, c) == term_sum(terms.take(j), c),
    decreases j,
{
    if j == 0 {
        assert(terms.take(0) =~= Seq::<(usize, int)>::empty());
    } else {
        lemma_span_terms(indices, values, lo, terms, j - 1, c);
        assert(terms.take(j).drop_last() =~= terms.take(j - 1));
        assert(terms.take(j).last() == terms[j - 1]);
    }
}

/// A boundary whose compressed rows hold the summed `entries` has, at row
/// `r` and column `c`, the sum of the coefficients of the entries there.
pub proof fn lemma_held_value(b: NativeBoundary64, entries: Seq<BoundaryEntry>, rows: int, r: int, c: int)
    requires
        entries.len() <= usize::MAX,
        holds_entries(
            b.spec_storage().spec_indptr(),
            b.spec_storage().spec_indices(),
            b.spec_storage().spec_values(),
            entries,
            rows,
        ),
        0 <= r < rows,
    ensures
        boundary_value(b, r, c) == entry_sum(entries, r, c),
{
    let m = b.spec_storage();
    let terms = merged_row(entries, r);
    assert(m.spec_indptr()[r + 1] - m.spec_indptr()[r] == terms.len());
    lemma_span_terms(m.spec_indices(), m.spec_values(), m.spec_indptr()[r] as int, terms, terms.len() as int, c);
    assert(terms.take(terms.len() as int) =~= terms);
    lemma_nonzero_sum(coalesce(row_terms(entries, r)), c);
    lemma_coalesce_sum(row_terms(entries, r), c);
    lemma_bucket_sum(entries, entries.len() as int, r, c);
    assert(entries.take(entries.len() as int) =~= entries);
}

/// The product of two held boundaries is the product of their summed entries.
pub proof fn lemma_held_composed(
    lower: NativeBoundary64,
    upper: NativeBoundary64,
    lower_entries: Seq<BoundaryEntry>,
    upper_entries: Seq<BoundaryEntry>,
    lower_rows: int,
    upper_rows: int,
    v: int,
    m: int,
    k: int,
)
    requires
        lower_entries.len() <= usize::MAX,
        upper_entries.len() <= usize::MAX,
        holds_entries(
            lower.spec_storage().spec_indptr(),
            lower.spec_storage().spec_indices(),
            lower.spec_storage().spec_values(),
            lower_entries,
            lower_rows,
        ),
        holds_entries(
            upper.spec_storage().spec_indptr(),
            upper.spec_storage().spec_indices(),
            upper.spec_storage().spec_values(),
            upper_entries,
            upper_rows,
        ),
        0 <= v < lower_rows,
        0 <= k <= upper_rows,
    ensures
        boundary_composed(lower, upper, v, m, k) == composed(lower_entries, upper_entries, v, m, k),
    decreases k,
{
    if k > 0 {
        lemma_held_composed(lower, upper, lower_entries, upper_entries, lower_rows, upper_rows, v, m, k - 1);
        lemma_held_value(lower, lower_entries, lower_rows, v, k - 1);
        lemma_held_value(upper, upper_entries, upper_rows, k - 1, m);
    }
}

} // verus!
