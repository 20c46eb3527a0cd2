use vstd::prelude::*;

use crate::combination::{first_repeated, has_repeat, permutation_sign, validated_permutation_sign};
use crate::error::TopologyError;
use crate::halfedge::{HalfedgeSurfaceCore, convert_signed, convert_unsigned, signed_index, stream_values, unsigned_index};
use crate::surface::surface_chain_holds;
use crate::combination::{combos, faces_of_rows, lemma_combo_entries, lemma_combo_remove, lemma_face_of_row, lemma_face_origin, lemma_faces_full, lemma_faces_len};
use crate::incidence::{BoundaryRef, all_faces_present, degree_build_error, degree_buildable, face_count_overflows, words_before, lemma_sorted_same_members, Basis, CanonicalBoundary, DegreeLayout, basis_counts, boundary_built, boundary_inputs, build_boundaries, canonical_faces, filled, sign_views, signs_only, zero_boundary, flat_row, flat_rows, lemma_flat_push, lemma_row_window, strictly_sorted};
use crate::lex::{compare_rows, lemma_lex_eq, lemma_lex_trans, lex_lt};
use crate::sort::{before, key_views, sorted_by_key, sorted_order};

verus! {

broadcast use vstd::seq_lib::group_to_multiset_ensures;

/// Whether the entries of `s` never decrease.
pub open spec fn ascending(s: Seq<usize>) -> bool {
    forall|i: int, j: int| 0 <= i < j < s.len() ==> #[trigger] s[i] <= #[trigger] s[j]
}

/// Whether `t` is `s` with its entries in increasing order.
pub open spec fn sorted_form(t: Seq<usize>, s: Seq<usize>) -> bool {
    ascending(t) && t.to_multiset() == s.to_multiset()
}

/// The entries of a row in increasing order.
pub fn sorted_copy(row: &[usize]) -> (r: Vec<usize>)
    ensures
        sorted_form(r@, row@),
{
    let mut out: Vec<usize> = Vec::new();
    let mut i: usize = 0;
    while i < row.len()
        invariant
            i <= row@.len(),
            ascending(out@),
            out@.to_multiset() == row@.take(i as int).to_multiset(),
        decreases row@.len() - i,
    {
        let x = row[i];
        let mut p: usize = 0;
        while p < out.len() && out[p] <= x
            invariant
                p <= out@.len(),
                forall|k: int| 0 <= k < p ==> #[trigger] out@[k] <= x,
            decreases out@.len() - p,
        {
            p = p + 1;
        }
        let ghost before = out@;
        out.insert(p, x);
        proof {
            assert(out@ == before.insert(p as int, x));
            assert forall|a: int, b: int| 0 <= a < b < out@.len() implies #[trigger] out@[a] <= #[trigger] out@[b] by {
                if p < before.len() {
                    assert(x < before[p as int]);
                }
                if a < p && b == p {
                    assert(before[a] <= x);
                } else if a < p && b > p {
                    assert(before[a] <= before[b - 1]);
                } else if a == p {
                    assert(x < before[p as int]);
                    assert(before[p as int] <= before[b - 1]) by {
                        if p < b - 1 {
                            assert(before[p as int] <= before[b - 1]);
                        }
                    }
                } else if a > p {
                    assert(before[a - 1] <= before[b - 1]);
                }
            }
            assert(row@.take(i + 1) =~= row@.take(i as int).push(x));
        }
        i = i + 1;
    }
    proof {
        assert(row@.take(i as int) =~= row@);
    }
    out
}

/// The first classified failure among the first `k` values of a candidate
/// stream of `expected` values in rows of width `w`.
pub open spec fn candidate_failure(
    values: Seq<Result<usize, TopologyError>>,
    w: nat,
    expected: nat,
    k: nat,
) -> Option<TopologyError>
    decreases k,
{
    if k == 0 {
        None
    } else {
        match candidate_failure(values, w, expected, (k - 1) as nat) {
            Some(e) => Some(e),
            None => if k - 1 == expected {
                Some(TopologyError::CandidateShape)
            } else if values[k - 1] is Err {
                Some(values[k - 1]->Err_0)
            } else if w != 0 && k % w == 0 && has_repeat(stream_values(values).subrange(k - w, k as int)) {
                Some(TopologyError::RepeatedVertex(first_repeated(stream_values(values).subrange(k - w, k as int))))
            } else {
                None
            },
        }
    }
}

pub proof fn lemma_candidate_failure_stays(
    values: Seq<Result<usize, TopologyError>>,
    w: nat,
    expected: nat,
    k: nat,
    m: nat,
)
    requires
        k <= m,
        candidate_failure(values, w, expected, k) is Some,
    ensures
        candidate_failure(values, w, expected, m) == candidate_failure(values, w, expected, k),
    decreases m - k,
{
    if k < m {
        lemma_candidate_failure_stays(values, w, expected, k, (m - 1) as nat);
    }
}

/// A candidate of maximal simplices: `row_count` rows of `row_width` native
/// vertex indices, each free of repeats, with the sign of its sorting
/// permutation.
#[derive(Debug)]
pub struct CandidateInput {
    values: Vec<usize>,
    signs: Vec<i8>,
    row_count: usize,
    row_width: usize,
    vertex_count: Option<usize>,
}

impl CandidateInput {
    #[verifier::type_invariant]
    closed spec fn candidate_inv(&self) -> bool {
        Self::well_formed(
            self.values@,
            self.signs@,
            self.row_count as nat,
            self.row_width as nat,
        )
    }

    /// Whether flat rows and signs form an admitted candidate.
    pub open spec fn well_formed(values: Seq<usize>, signs: Seq<i8>, n: nat, w: nat) -> bool {
        &&& values.len() == n * w
        &&& signs.len() == if w == 0 {
            0
        } else {
            n
        }
        &&& forall|i: int|
            0 <= i < signs.len() ==> !has_repeat(#[trigger] flat_row(values, w as int, i)) && signs[i]
                == permutation_sign(flat_row(values, w as int, i))
    }

    pub closed spec fn spec_values(&self) -> Seq<usize> {
        self.values@
    }

    pub closed spec fn spec_signs(&self) -> Seq<i8> {
        self.signs@
    }

    pub closed spec fn spec_row_count(&self) -> nat {
        self.row_count as nat
    }

    pub closed spec fn spec_row_width(&self) -> nat {
        self.row_width as nat
    }

    pub closed spec fn spec_vertex_count(&self) -> Option<usize> {
        self.vertex_count
    }

    /// Whether `r` is the admission of a stream of native values.
    pub open spec fn checked_result(
        values: Seq<Result<usize, TopologyError>>,
        n: nat,
        w: nat,
        vertex_count: Option<usize>,
        r: Result<CandidateInput, TopologyError>,
    ) -> bool {
        if n * w > usize::MAX {
            r == Err::<CandidateInput, TopologyError>(TopologyError::CountOverflow)
        } else {
            match candidate_failure(values, w, n * w, values.len()) {
                Some(e) => r == Err::<CandidateInput, TopologyError>(e),
                None => if values.len() != n * w {
                    r == Err::<CandidateInput, TopologyError>(TopologyError::CandidateShape)
                } else {
                    r matches Ok(c) && c.spec_values() == stream_values(values) && c.spec_row_count() == n
                        && c.spec_row_width() == w && c.spec_vertex_count() == vertex_count
                },
            }
        }
    }

    /// Admit signed transport values into one checked native-index buffer.
    pub fn signed(values: &[i128], row_count: usize, row_width: usize, vertex_count: Option<usize>) -> (r:
        Result<CandidateInput, TopologyError>)
        ensures
            Self::checked_result(
                values@.map_values(|v: i128| signed_index(v)),
                row_count as nat,
                row_width as nat,
                vertex_count,
                r,
            ),
    {
        let converted = convert_signed(values);
        Self::checked(&converted, row_count, row_width, vertex_count)
    }

    /// Admit unsigned transport values into one checked native-index buffer.
    pub fn unsigned(values: &[u128], row_count: usize, row_width: usize, vertex_count: Option<usize>) -> (r:
        Result<CandidateInput, TopologyError>)
        ensures
            Self::checked_result(
                values@.map_values(|v: u128| unsigned_index(v)),
                row_count as nat,
                row_width as nat,
                vertex_count,
                r,
            ),
    {
        let converted = convert_unsigned(values);
        Self::checked(&converted, row_count, row_width, vertex_count)
    }

    fn checked(
        values: &Vec<Result<usize, TopologyError>>,
        row_count: usize,
        row_width: usize,
        vertex_count: Option<usize>,
    ) -> (r: Result<CandidateInput, TopologyError>)
        ensures
            Self::checked_result(values@, row_count as nat, row_width as nat, vertex_count, r),
    {
        let expected = match row_count.checked_mul(row_width) {
            Some(v) => v,
            None => return Err(TopologyError::CountOverflow),
        };
        let ghost vs = values@;
        let ghost w = row_width as nat;
        let mut admitted: Vec<usize> = Vec::new();
        let mut signs: Vec<i8> = Vec::new();
        let mut i: usize = 0;
        while i < values.len()
            invariant
                i <= values@.len(),
                vs == values@,
                w == row_width,
                expected == row_count * row_width,
                candidate_failure(vs, w, expected as nat, i as nat) is None,
                i <= expected,
                admitted@ == stream_values(vs).take(i as int),
                signs@.len() == if row_width == 0 {
                    0
                } else {
                    i as int / row_width as int
                },
                forall|t: int|
                    0 <= t < signs@.len() ==> !has_repeat(#[trigger] flat_row(admitted@, w as int, t)) && signs@[t]
                        == permutation_sign(flat_row(admitted@, w as int, t)),
            decreases values@.len() - i,
        {
            if admitted.len() == expected {
                proof {
                    lemma_candidate_failure_stays(vs, w, expected as nat, (i + 1) as nat, vs.len());
                }
                return Err(TopologyError::CandidateShape);
            }
            let value = match &values[i] {
                Ok(v) => *v,
                Err(e) => {
                    proof {
                        lemma_candidate_failure_stays(vs, w, expected as nat, (i + 1) as nat, vs.len());
                    }
                    return Err(*e);
                },
            };
            let ghost old_admitted = admitted@;
            admitted.push(value);
            proof {
                assert(admitted@ =~= stream_values(vs).take(i + 1));
            }
            if row_width != 0 && admitted.len() % row_width == 0 {
                proof {
                    assert(i + 1 >= row_width) by (nonlinear_arith)
                        requires
                            (i + 1) % (row_width as int) == 0,
                            row_width > 0,
                    ;
                }
                let start = admitted.len() - row_width;
                let row = &admitted.as_slice()[start..admitted.len()];
                let ghost t = signs@.len() as int;
                proof {
                    assert((i + 1) / (row_width as int) == t + 1 && start == t * row_width) by (nonlinear_arith)
                        requires
                            (i + 1) % (row_width as int) == 0,
                            t == (i as int) / (row_width as int),
                            row_width > 0,
                            start == i + 1 - row_width,
                    ;
                    assert(row@ =~= flat_row(admitted@, w as int, t));
                    assert(row@ =~= stream_values(vs).subrange(i + 1 - row_width, i + 1));
                }
                let sign = match validated_permutation_sign(row) {
                    Ok(s) => s,
                    Err(e) => {
                        proof {
                            lemma_candidate_failure_stays(vs, w, expected as nat, (i + 1) as nat, vs.len());
                        }
                        return Err(e);
                    },
                };
                signs.push(sign);
                proof {
                    assert forall|u: int| 0 <= u < signs@.len() implies !has_repeat(#[trigger] flat_row(admitted@, w as int, u))
                        && signs@[u] == permutation_sign(flat_row(admitted@, w as int, u)) by {
                        if u < t {
                            lemma_row_window(u, w as int, t);
                            assert(flat_row(admitted@, w as int, u) =~= flat_row(old_admitted, w as int, u));
                        }
                    }
                }
            } else {
                proof {
                    if row_width != 0 {
                        assert((i + 1) / (row_width as int) == (i as int) / (row_width as int)) by (nonlinear_arith)
                            requires
                                (i + 1) % (row_width as int) != 0,
                                row_width > 0,
                        ;
                        let t = signs@.len() as int;
                        assert forall|u: int| 0 <= u < t implies #[trigger] flat_row(admitted@, w as int, u)
                            == flat_row(old_admitted, w as int, u) by {
                            assert(u * row_width + row_width <= i) by (nonlinear_arith)
                                requires
                                    0 <= u < t,
                                    t == (i as int) / (row_width as int),
                                    row_width > 0,
                            ;
                            assert(flat_row(admitted@, w as int, u) =~= flat_row(old_admitted, w as int, u));
                        }
                    }
                }
            }
            i = i + 1;
        }
        if admitted.len() != expected {
            return Err(TopologyError::CandidateShape);
        }
        proof {
            assert(stream_values(vs).take(i as int) =~= stream_values(vs));
            if row_width != 0 {
                assert((expected as int) / (row_width as int) == row_count) by (nonlinear_arith)
                    requires
                        expected == row_count * row_width,
                        row_width > 0,
                ;
            }
        }
        Ok(CandidateInput { values: admitted, signs, row_count, row_width, vertex_count })
    }
}

} // verus!

verus! {

/// The largest entry of a sequence, `0` when it is empty.
pub open spec fn max_entry(s: Seq<usize>) -> usize
    decreases s.len(),
{
    if s.len() == 0 {
        0
    } else {
        let m = max_entry(s.drop_last());
        if s.last() > m {
            s.last()
        } else {
            m
        }
    }
}

/// Two sorted forms of the same entries are equal.
pub proof fn lemma_sorted_form_unique(t: Seq<usize>, u: Seq<usize>)
    requires
        ascending(t),
        ascending(u),
        t.to_multiset() == u.to_multiset(),
    ensures
        t == u,
{
    let leq = |a: usize, b: usize| a <= b;
    assert(vstd::relations::total_ordering(leq));
    assert(vstd::relations::sorted_by(t, leq)) by {
        assert forall|i: int, j: int| 0 <= i < j < t.len() implies #[trigger] leq(t[i], t[j]) by {
            assert(t[i] <= t[j]);
        }
    }
    assert(vstd::relations::sorted_by(u, leq)) by {
        assert forall|i: int, j: int| 0 <= i < j < u.len() implies #[trigger] leq(u[i], u[j]) by {
            assert(u[i] <= u[j]);
        }
    }
    vstd::seq_lib::lemma_sorted_unique(t, u, leq);
}

/// Whether `order` lists each of `0..n` once.
pub open spec fn arrangement(order: Seq<usize>, n: int) -> bool {
    &&& order.len() == n
    &&& forall|d: int| 0 <= d < n ==> #[trigger] order[d] < n
    &&& forall|a: int, b: int| 0 <= a < b < n ==> order[a] != order[b]
}

/// Whether two rows among `rows` hold the same entries.
pub open spec fn repeated_row(rows: Seq<Seq<usize>>) -> bool {
    exists|i: int, j: int|
        0 <= i < j < rows.len() && (#[trigger] rows[i]).to_multiset() == (#[trigger] rows[j]).to_multiset()
}

/// Canonical maximal simplices: sorted rows in increasing order, with their signs.
#[derive(Debug)]
pub struct CanonicalMaximal {
    pub vertex_count: usize,
    pub rows: Basis,
    pub signs: Vec<i8>,
}

/// Whether `rows` and `signs` are the rows `raw` and signs `raw_signs`, each
/// row sorted and the rows arranged in strictly increasing order.
pub open spec fn canonical_arrangement(
    rows: Seq<Seq<usize>>,
    signs: Seq<i8>,
    raw: Seq<Seq<usize>>,
    raw_signs: Seq<i8>,
) -> bool {
    &&& rows.len() == raw.len()
    &&& signs.len() == raw.len()
    &&& strictly_sorted(rows)
    &&& exists|order: Seq<usize>|
        arrangement(order, raw.len() as int) && forall|d: int|
            0 <= d < raw.len() ==> sorted_form(#[trigger] rows[d], raw[order[d] as int]) && signs[d]
                == raw_signs[order[d] as int]
}

/// Whether `r` is the canonicalization of a candidate with flat values
/// `values`, signs `signs`, shape `n` by `w` and declared vertex count `declared`.
pub open spec fn canonicalized(
    values: Seq<usize>,
    signs: Seq<i8>,
    n: nat,
    w: nat,
    declared: Option<usize>,
    r: Result<CanonicalMaximal, TopologyError>,
) -> bool {
    let maximum = max_entry(values);
    let vertex_count = match declared {
        Some(v) => v as int,
        None => maximum + 1,
    };
    if n == 0 || w == 0 {
        r == Err::<CanonicalMaximal, TopologyError>(TopologyError::EmptyMaximalSimplices)
    } else if maximum == usize::MAX {
        r == Err::<CanonicalMaximal, TopologyError>(TopologyError::CountOverflow)
    } else if vertex_count == 0 || vertex_count <= maximum {
        r == Err::<CanonicalMaximal, TopologyError>(
            TopologyError::VertexExtent(vertex_count as usize, (maximum + 1) as usize),
        )
    } else if repeated_row(flat_rows(values, n as int, w as int)) {
        r == Err::<CanonicalMaximal, TopologyError>(TopologyError::DuplicateMaximalSimplex)
    } else {
        r matches Ok(c) && c.vertex_count == vertex_count && c.rows.spec_row_width() == w
            && c.rows.spec_row_count() == n && c.rows.spec_values().len() == n * w && signs_only(c.signs@)
            && canonical_arrangement(
            c.rows.rows(),
            c.signs@,
            flat_rows(values, n as int, w as int),
            signs,
        )
    }
}

/// Whether the rows at positions `p` and `p + 1` of `order` differ.
pub open spec fn distinct_at(keys: Seq<Seq<usize>>, order: Seq<usize>, p: int) -> bool {
    keys[order[p] as int] != keys[order[p + 1] as int]
}

proof fn lemma_order_strict(keys: Seq<Seq<usize>>, order: Seq<usize>, n: int)
    requires
        order.len() == n,
        forall|d: int| 0 <= d < n ==> #[trigger] order[d] < keys.len(),
        sorted_by_key(keys, order),
        forall|p: int| 0 <= p < n - 1 ==> #[trigger] distinct_at(keys, order, p),
    ensures
        forall|a: int, b: int|
            0 <= a < b < n ==> lex_lt(#[trigger] keys[order[a] as int], #[trigger] keys[order[b] as int]),
{
    assert forall|a: int, b: int| 0 <= a < b < n implies lex_lt(
        #[trigger] keys[order[a] as int],
        #[trigger] keys[order[b] as int],
    ) by {
        assert(before(keys, order[a], order[a + 1]));
        assert(distinct_at(keys, order, a));
        lemma_lex_eq(keys[order[a] as int], keys[order[a + 1] as int]);
        if a + 1 < b {
            assert(before(keys, order[a + 1], order[b]));
            lemma_lex_trans(keys[order[a] as int], keys[order[a + 1] as int], keys[order[b] as int]);
        }
    }
}

/// Sort each candidate row, arrange the rows in increasing order, and refuse
/// repeated rows and vertex extents that miss a used vertex.
#[verifier::loop_isolation(false)]
pub(crate) fn canonicalize_maximal(candidate: CandidateInput) -> (r: Result<CanonicalMaximal, TopologyError>)
    ensures
        canonicalized(
            candidate.spec_values(),
            candidate.spec_signs(),
            candidate.spec_row_count(),
            candidate.spec_row_width(),
            candidate.spec_vertex_count(),
            r,
        ),
{
    proof {
        use_type_invariant(&candidate);
    }
    let ghost cv = candidate.spec_values();
    let ghost cs = candidate.spec_signs();
    let row_count = candidate.row_count;
    let row_width = candidate.row_width;
    let declared = candidate.vertex_count;
    let values = candidate.values;
    let signs = candidate.signs;
    if row_count == 0 || row_width == 0 {
        return Err(TopologyError::EmptyMaximalSimplices);
    }
    let ghost raw = flat_rows(values@, row_count as int, row_width as int);
    let mut maximum: usize = 0;
    let mut i: usize = 0;
    while i < values.len()
        invariant
            i <= values@.len(),
            maximum == max_entry(values@.take(i as int)),
        decreases values@.len() - i,
    {
        proof {
            assert(values@.take(i + 1).drop_last() =~= values@.take(i as int));
        }
        if values[i] > maximum {
            maximum = values[i];
        }
        i = i + 1;
    }
    proof {
        assert(values@.take(i as int) =~= values@);
    }
    if maximum == usize::MAX {
        return Err(TopologyError::CountOverflow);
    }
    let vertex_count = match declared {
        Some(v) => v,
        None => maximum + 1,
    };
    if vertex_count == 0 || vertex_count <= maximum {
        return Err(TopologyError::VertexExtent(vertex_count, maximum + 1));
    }
    let total = values.len();
    let mut sorted: Vec<Vec<usize>> = Vec::new();
    let mut i: usize = 0;
    while i < row_count
        invariant
            i <= row_count,
            total == values@.len(),
            forall|t: int| 0 <= t < i ==> (#[trigger] sorted@[t])@.len() == row_width,
            row_width > 0,
            values@.len() == row_count * row_width,
            raw == flat_rows(values@, row_count as int, row_width as int),
            sorted@.len() == i,
            forall|t: int| 0 <= t < i ==> sorted_form(#[trigger] sorted@[t]@, raw[t]),
        decreases row_count - i,
    {
        proof {
            lemma_row_window(i as int, row_width as int, row_count as int);
        }
        let start = i * row_width;
        let row = &values.as_slice()[start..start + row_width];
        proof {
            assert(row@ == raw[i as int]);
        }
        let copy = sorted_copy(row);
        proof {
            assert(copy@.to_multiset().len() == copy@.len());
            assert(row@.to_multiset().len() == row@.len());
        }
        sorted.push(copy);
        i = i + 1;
    }
    let ghost keys = key_views(sorted@);
    proof {
        assert forall|t: int| 0 <= t < row_count implies (#[trigger] keys[t]).len() == row_width by {
            assert(keys[t] == sorted@[t]@);
        }
    }
    let order = sorted_order(&sorted);
    let mut p: usize = 0;
    while p + 1 < row_count
        invariant
            order@.len() == row_count,
            row_count > 0,
            p < row_count,
            keys == key_views(sorted@),
            forall|d: int| 0 <= d < row_count ==> #[trigger] order@[d] < row_count,
            forall|a: int, b: int| 0 <= a < b < order@.len() ==> order@[a] != order@[b],
            forall|t: int| 0 <= t < row_count ==> sorted_form(#[trigger] keys[t], raw[t]),
            sorted@.len() == row_count,
            raw.len() == row_count,
            forall|q: int| 0 <= q < p ==> #[trigger] distinct_at(keys, order@, q),
        decreases row_count - p,
    {
        let left = order[p];
        let right = order[p + 1];
        if compare_rows(sorted[left].as_slice(), sorted[right].as_slice()) == 0 {
            proof {
                lemma_lex_eq(keys[left as int], keys[right as int]);
                assert(raw[left as int].to_multiset() == raw[right as int].to_multiset());
                if left < right {
                    assert(repeated_row(raw));
                } else {
                    assert(raw[right as int].to_multiset() == raw[left as int].to_multiset());
                    assert(repeated_row(raw));
                }
            }
            return Err(TopologyError::DuplicateMaximalSimplex);
        }
        proof {
            lemma_lex_eq(keys[left as int], keys[right as int]);
            assert(distinct_at(keys, order@, p as int));
        }
        p = p + 1;
    }
    proof {
        lemma_order_strict(keys, order@, row_count as int);
        assert(!repeated_row(raw)) by {
            if repeated_row(raw) {
                let (a, b) = choose|a: int, b: int|
                    0 <= a < b < raw.len() && (#[trigger] raw[a]).to_multiset() == (#[trigger] raw[b]).to_multiset();
                lemma_sorted_form_unique(keys[a], keys[b]);
                assert(order@.contains(a as usize));
                assert(order@.contains(b as usize));
                let qa = choose|q: int| 0 <= q < order@.len() && order@[q] == a as usize;
                let qb = choose|q: int| 0 <= q < order@.len() && order@[q] == b as usize;
                if qa < qb {
                    assert(lex_lt(keys[order@[qa] as int], keys[order@[qb] as int]));
                    lemma_lex_eq(keys[a], keys[b]);
                } else {
                    assert(lex_lt(keys[order@[qb] as int], keys[order@[qa] as int]));
                    lemma_lex_eq(keys[b], keys[a]);
                }
            }
        }
    }
    proof {
        assert forall|c: int| 0 <= c < signs@.len() implies #[trigger] signs@[c] == 1 || signs@[c] == -1 by {
            assert(signs@[c] == permutation_sign(flat_row(values@, row_width as int, c)));
        }
    }
    let mut flat: Vec<usize> = Vec::new();
    let mut new_signs: Vec<i8> = Vec::new();
    let mut d: usize = 0;
    while d < row_count
        invariant
            d <= row_count,
            order@.len() == row_count,
            sorted@.len() == row_count,
            keys == key_views(sorted@),
            forall|t: int| 0 <= t < row_count ==> (#[trigger] keys[t]).len() == row_width,
            forall|e: int| 0 <= e < row_count ==> #[trigger] order@[e] < row_count,
            signs@.len() == row_count,
            flat@.len() == d * row_width,
            flat_rows(flat@, d as int, row_width as int) == Seq::new(d as nat, |e: int| keys[order@[e] as int]),
            new_signs@ == Seq::new(d as nat, |e: int| signs@[order@[e] as int]),
            signs_only(signs@),
        decreases row_count - d,
    {
        let pick = order[d];
        let ghost before = flat@;
        flat.extend_from_slice(sorted[pick].as_slice());
        new_signs.push(signs[pick]);
        proof {
            assert(flat@ =~= before + keys[pick as int]);
            lemma_flat_push(before, keys[pick as int], d as int, row_width as int);
            assert(flat_rows(flat@, d + 1, row_width as int) =~= Seq::new((d + 1) as nat, |e: int| keys[order@[e] as int]));
            assert(new_signs@ =~= Seq::new((d + 1) as nat, |e: int| signs@[order@[e] as int]));
            assert(d * row_width + row_width == (d + 1) * row_width) by (nonlinear_arith);
        }
        d = d + 1;
    }
    let rows = match Basis::from_flat(flat, row_count, row_width) {
        Ok(b) => b,
        Err(e) => return Err(e),
    };
    proof {
        assert(canonical_arrangement(rows.rows(), new_signs@, raw, signs@)) by {
            assert forall|a: int, b: int| 0 <= a < b < rows.rows().len() implies lex_lt(
                #[trigger] rows.rows()[a],
                #[trigger] rows.rows()[b],
            ) by {
                assert(rows.rows()[a] == keys[order@[a] as int]);
                assert(rows.rows()[b] == keys[order@[b] as int]);
            }
            assert(arrangement(order@, raw.len() as int));
            assert forall|e: int| 0 <= e < raw.len() implies sorted_form(#[trigger] rows.rows()[e], raw[order@[e] as int])
                && new_signs@[e] == signs@[order@[e] as int] by {
                assert(rows.rows()[e] == keys[order@[e] as int]);
            }
        }
    }
    Ok(CanonicalMaximal { vertex_count, rows, signs: new_signs })
}

} // verus!

verus! {

/// The canonical rows `[0], [1], ..., [n - 1]` of the vertices.
pub open spec fn vertex_rows(n: nat) -> Seq<Seq<usize>> {
    Seq::new(n, |v: int| seq![v as usize])
}

/// Whether `bases` are the canonical bases of the faces of `maximal`: the
/// vertices `0..vertex_count` in degree zero, and in each positive degree `d`
/// the strictly sorted distinct `d + 1`-element faces of the maximal rows.
pub open spec fn face_bases(bases: Seq<Basis>, maximal: Basis, vertex_count: nat) -> bool {
    &&& bases.len() == maximal.spec_row_width()
    &&& bases[0].spec_row_width() == 1
    &&& bases[0].rows() == vertex_rows(vertex_count)
    &&& forall|d: int|
        1 <= d < bases.len() ==> {
            &&& (#[trigger] bases[d]).spec_row_width() == d + 1
            &&& strictly_sorted(bases[d].rows())
            &&& forall|s: Seq<usize>|
                bases[d].rows().contains(s) <==> faces_of_rows(
                    maximal.rows(),
                    maximal.spec_row_count(),
                    (d + 1) as nat,
                ).contains(s)
        }
}

/// Whether `orientations` gives the canonical signs to the top degree and `1`
/// to every lower simplex.
pub open spec fn face_orientations(orientations: Seq<Seq<i8>>, bases: Seq<Basis>, top_signs: Seq<i8>) -> bool {
    &&& orientations.len() == bases.len()
    &&& orientations[bases.len() - 1] == top_signs
    &&& forall|d: int|
        0 <= d < bases.len() - 1 ==> #[trigger] orientations[d] == Seq::new(
            bases[d].spec_row_count() as nat,
            |i: int| 1i8,
        )
}

/// Every vertex of a canonical basis row of a well-formed owner lies in the
/// admitted vertex extent, and every row of degree `d` has `d + 1` vertices.
pub proof fn lemma_entry_in_extent(core: ComplexCore, d: int, s: int, j: int)
    requires
        core.core_inv(),
        0 <= d <= core.spec_dimension(),
        0 <= s < core.spec_bases()[d].spec_row_count(),
        0 <= j <= d,
    ensures
        core.spec_bases()[d].rows()[s].len() == d + 1,
        core.spec_bases()[d].rows()[s][j] < core.spec_vertex_count(),
    decreases d,
{
    let basis = core.spec_bases()[d];
    assert(basis.shape_inv());
    lemma_row_window(s, d + 1, basis.spec_row_count());
    if d == 0 {
        assert(basis.rows()[s] == vertex_rows(core.spec_vertex_count())[s]);
    } else {
        let per = d + 1;
        let i: int = if j == 0 {
            1
        } else {
            0
        };
        let q = s * per + i;
        let faces = core.spec_immediate_faces()[d];
        let upper = basis.rows();
        let lower = core.spec_bases()[d - 1].rows();
        assert(boundary_built(
            core.spec_boundaries()[d],
            faces,
            upper,
            lower,
            core.spec_orientations()[d],
            d,
        ));
        assert(q / per == s && q % per == i && q < upper.len() * per) by (nonlinear_arith)
            requires
                q == s * per + i,
                0 <= i < per,
                0 <= s < upper.len(),
        ;
        assert(faces[q] < lower.len() && lower[faces[q] as int] == upper[s].remove(i));
        core.spec_bases()[d - 1].lemma_shape_bounds();
        let jj: int = if j < i {
            j
        } else {
            j - 1
        };
        assert(upper[s][j] == upper[s].remove(i)[jj]);
        lemma_entry_in_extent(core, d - 1, faces[q] as int, jj);
    }
}

/// Immutable admitted topology owner: the canonical bases of every degree,
/// their orientations, the signed boundaries and the immediate faces.
#[derive(Debug)]
pub struct ComplexCore {
    vertex_count: usize,
    dimension: usize,
    layout: DegreeLayout,
    bases: Vec<Basis>,
    orientations: Vec<Vec<i8>>,
    boundaries: Vec<CanonicalBoundary>,
    immediate_faces: Vec<Vec<usize>>,
}

impl ComplexCore {
    /// Well-formedness of an admitted owner: one basis, boundary and face
    /// table per degree, strictly sorted bases of the vertices `0..n` and of
    /// rows of width `d + 1`, and every positive-degree boundary built from
    /// consecutive bases.
    #[verifier::type_invariant]
    pub open spec fn core_inv(&self) -> bool {
        let bases = self.spec_bases();
        let boundaries = self.spec_boundaries();
        let faces = self.spec_immediate_faces();
        let dim = self.spec_dimension();
        &&& bases.len() == dim + 1
        &&& boundaries.len() == dim + 1
        &&& faces.len() == dim + 1
        &&& boundary_inputs(bases, self.spec_orientations())
        &&& self.spec_layout().spec_counts() == basis_counts(bases)
        &&& zero_boundary(boundaries[0], bases[0].spec_row_count())
        &&& bases[0].rows() == vertex_rows(self.spec_vertex_count())
        &&& faces[0].len() == 0
        &&& forall|d: int| 0 <= d <= dim ==> (#[trigger] bases[d]).shape_inv()
        &&& forall|d: int|
            1 <= d <= dim ==> boundary_built(
                #[trigger] boundaries[d],
                faces[d],
                bases[d].rows(),
                bases[d - 1].rows(),
                self.spec_orientations()[d],
                d,
            )
    }

    pub closed spec fn spec_vertex_count(&self) -> nat {
        self.vertex_count as nat
    }

    pub closed spec fn spec_dimension(&self) -> nat {
        self.dimension as nat
    }

    pub closed spec fn spec_bases(&self) -> Seq<Basis> {
        self.bases@
    }

    pub closed spec fn spec_orientations(&self) -> Seq<Seq<i8>> {
        sign_views(self.orientations@)
    }

    pub closed spec fn spec_boundaries(&self) -> Seq<CanonicalBoundary> {
        self.boundaries@
    }

    pub closed spec fn spec_immediate_faces(&self) -> Seq<Seq<usize>> {
        self.immediate_faces@.map_values(|f: Vec<usize>| f@)
    }

    pub closed spec fn spec_layout(&self) -> DegreeLayout {
        self.layout
    }

    /// Whether `core` is the admission of a candidate with flat values
    /// `values`, signs `signs`, shape `n` by `w` and declared vertex count
    /// `declared`: its top basis is the canonical arrangement of the
    /// candidate rows with their signs, every lower basis holds exactly the
    /// faces of the top rows with orientation `1`, and every boundary is
    /// built from consecutive bases.
    pub open spec fn admitted(
        core: ComplexCore,
        values: Seq<usize>,
        signs: Seq<i8>,
        n: nat,
        w: nat,
        declared: Option<usize>,
    ) -> bool {
        let vertex_count = match declared {
            Some(v) => v as int,
            None => max_entry(values) + 1,
        };
        let bases = core.spec_bases();
        let orientations = core.spec_orientations();
        let top = bases[w - 1];
        &&& w >= 1
        &&& core.spec_vertex_count() == vertex_count
        &&& core.spec_dimension() + 1 == w
        &&& top.spec_row_count() == n
        &&& canonical_arrangement(top.rows(), orientations[w - 1], flat_rows(values, n as int, w as int), signs)
        &&& face_bases(bases, top, vertex_count as nat)
        &&& face_orientations(orientations, bases, orientations[w - 1])
        &&& boundary_inputs(bases, orientations)
        &&& core.spec_layout().spec_counts() == basis_counts(bases)
        &&& core.spec_boundaries().len() == w
        &&& zero_boundary(core.spec_boundaries()[0], bases[0].spec_row_count())
        &&& forall|d: int|
            1 <= d < w ==> boundary_built(
                #[trigger] core.spec_boundaries()[d],
                core.spec_immediate_faces()[d],
                bases[d].rows(),
                bases[d - 1].rows(),
                orientations[d],
                d,
            )
    }

    /// The dimension of a well-formed owner leaves room for one more degree.
    pub proof fn lemma_dimension_bound(&self)
        requires
            self.core_inv(),
        ensures
            self.spec_dimension() < usize::MAX,
    {
        assert(self.bases@.len() == self.bases.len());
    }

    /// Retained degree layout of the canonical bases.
    pub fn layout(&self) -> (r: &DegreeLayout)
        ensures
            *r == self.spec_layout(),
    {
        &self.layout
    }

    /// Number of vertices in the admitted extent.
    pub fn vertex_count(&self) -> (r: usize)
        ensures
            r == self.spec_vertex_count(),
    {
        self.vertex_count
    }

    /// Maximum represented simplex degree.
    pub fn dimension(&self) -> (r: usize)
        ensures
            r == self.spec_dimension(),
    {
        self.dimension
    }

    /// Canonical basis for one represented degree.
    pub fn basis(&self, degree: usize) -> (r: Result<&Basis, TopologyError>)
        ensures
            degree <= self.spec_dimension() ==> (r matches Ok(b) && *b == self.spec_bases()[degree as int]),
            degree > self.spec_dimension() ==> r == Err::<&Basis, TopologyError>(TopologyError::DegreeOutside(degree)),
    {
        proof {
            use_type_invariant(self);
        }
        if degree <= self.dimension {
            Ok(&self.bases[degree])
        } else {
            Err(TopologyError::DegreeOutside(degree))
        }
    }

    /// Orientation signs aligned with one canonical basis.
    pub fn orientation(&self, degree: usize) -> (r: Result<&[i8], TopologyError>)
        ensures
            degree <= self.spec_dimension() ==> (r matches Ok(o) && o@ == self.spec_orientations()[degree as int]),
            degree > self.spec_dimension() ==> r == Err::<&[i8], TopologyError>(TopologyError::DegreeOutside(degree)),
    {
        proof {
            use_type_invariant(self);
        }
        if degree <= self.dimension {
            Ok(self.orientations[degree].as_slice())
        } else {
            Err(TopologyError::DegreeOutside(degree))
        }
    }

    /// Retained signed boundary for one represented degree.
    pub fn boundary(&self, degree: usize) -> (r: Result<&CanonicalBoundary, TopologyError>)
        ensures
            degree <= self.spec_dimension() ==> (r matches Ok(b) && *b == self.spec_boundaries()[degree as int]),
            degree > self.spec_dimension() ==> r == Err::<&CanonicalBoundary, TopologyError>(
                TopologyError::DegreeOutside(degree),
            ),
    {
        proof {
            use_type_invariant(self);
        }
        if degree <= self.dimension {
            Ok(&self.boundaries[degree])
        } else {
            Err(TopologyError::DegreeOutside(degree))
        }
    }

    /// Canonical immediate-face indices, grouped by upper simplex.
    pub fn immediate_faces(&self, degree: usize) -> (r: Result<&[usize], TopologyError>)
        ensures
            degree <= self.spec_dimension() ==> (r matches Ok(f) && f@ == self.spec_immediate_faces()[degree as int]),
            degree > self.spec_dimension() ==> r == Err::<&[usize], TopologyError>(TopologyError::DegreeOutside(degree)),
    {
        proof {
            use_type_invariant(self);
        }
        if degree <= self.dimension {
            Ok(self.immediate_faces[degree].as_slice())
        } else {
            Err(TopologyError::DegreeOutside(degree))
        }
    }

    /// Flattened lower-basis row indexes for every source simplex and removed
    /// vertex: for degree `k > 0`, `k + 1` entries per source column, in
    /// canonical column order; degree zero has none.
    pub fn immediate_face_rows(&self, degree: usize) -> (r: Result<&[usize], TopologyError>)
        ensures
            degree <= self.spec_dimension() ==> (r matches Ok(f) && f@ == self.spec_immediate_faces()[degree as int]),
            degree > self.spec_dimension() ==> r == Err::<&[usize], TopologyError>(TopologyError::DegreeOutside(degree)),
    {
        self.immediate_faces(degree)
    }


    /// Admit one candidate into an immutable owner: canonicalize the maximal
    /// simplices, build the canonical face basis and orientation of every
    /// degree, and the signed boundaries between consecutive degrees.
    #[verifier::rlimit(40)]
    pub fn admit_candidate(candidate: CandidateInput) -> (r: Result<ComplexCore, TopologyError>)
        ensures
            match canonical_failure(
                candidate.spec_values(),
                candidate.spec_row_count(),
                candidate.spec_row_width(),
                candidate.spec_vertex_count(),
            ) {
                Some(e) => r == Err::<ComplexCore, TopologyError>(e),
                None => {
                    &&& (r is Ok <==> admission_fits(
                        candidate.spec_values(),
                        candidate.spec_row_count(),
                        candidate.spec_row_width(),
                        admitted_vertex_count(candidate.spec_values(), candidate.spec_vertex_count()),
                    ))
                    &&& (r is Err ==> r == Err::<ComplexCore, TopologyError>(TopologyError::CountOverflow) || (
                    candidate.spec_row_width() == 1 && candidate.spec_row_count() != admitted_vertex_count(
                        candidate.spec_values(),
                        candidate.spec_vertex_count(),
                    ) && r == Err::<ComplexCore, TopologyError>(TopologyError::InternalInvariant)))
                },
            },
            r matches Ok(core) ==> Self::admitted(
                core,
                candidate.spec_values(),
                candidate.spec_signs(),
                candidate.spec_row_count(),
                candidate.spec_row_width(),
                candidate.spec_vertex_count(),
            ),
    {
        let ghost cv = candidate.spec_values();
        let ghost cs = candidate.spec_signs();
        let ghost n = candidate.spec_row_count();
        let ghost w = candidate.spec_row_width();
        let ghost declared = candidate.spec_vertex_count();
        proof {
            use_type_invariant(&candidate);
            assert(cv.len() == n * w);
        }
        let canonical = match canonicalize_maximal(candidate) {
            Ok(c) => c,
            Err(e) => return Err(e),
        };
        let ghost vc = admitted_vertex_count(cv, declared);
        let vertex_count = canonical.vertex_count;
        let width = canonical.rows.row_width();
        let dimension = width - 1;
        let vertices = Basis::vertices(vertex_count);
        let bases = match face_bases_of(&canonical.rows, vertices) {
            Ok(b) => b,
            Err(e) => return Err(e),
        };
        proof {
            lemma_admission_counts(bases@, canonical.rows, canonical.signs@, cv, cs, n, w, vc);
        }
        let layout = match DegreeLayout::from_bases(&bases) {
            Ok(l) => l,
            Err(e) => return Err(e),
        };
        let mut orientations = unit_orientations(&bases, dimension);
        proof {
            lemma_top_entries(canonical.rows, canonical.signs@, cv, cs, n, w, vc);
            lemma_top_basis(bases@, canonical.rows, n, w, vc);
        }
        if !bases[dimension].same_rows(&canonical.rows) {
            return Err(TopologyError::InternalInvariant);
        }
        let top_signs = canonical.signs;
        orientations.push(top_signs);
        proof {
            lemma_orientation_inputs(bases@, sign_views(orientations@), canonical.signs@, dimension as int);
            lemma_all_buildable(bases@, canonical.rows, canonical.signs@, cv, cs, n, w, vc);
        }
        let (boundaries, immediate_faces) = match build_boundaries(&bases, &orientations) {
            Ok(built) => built,
            Err(e) => return Err(e),
        };
        proof {
            if w >= 2 {
                assert(degree_buildable(bases@[1], bases@[0], 1));
            }
            assert(admission_fits(cv, n, w, vc));
        }
        let core = ComplexCore { vertex_count, dimension, layout, bases, orientations, boundaries, immediate_faces };
        proof {
            assert forall|d: int| 1 <= d < w implies boundary_built(
                #[trigger] core.spec_boundaries()[d],
                core.spec_immediate_faces()[d],
                core.spec_bases()[d].rows(),
                core.spec_bases()[d - 1].rows(),
                core.spec_orientations()[d],
                d,
            ) by {
                assert(core.spec_immediate_faces()[d] == immediate_faces@[d]@);
                assert(core.spec_orientations()[d] == orientations@[d]@);
            }
        }
        Ok(core)
    }
}

} // verus!

verus! {

/// The first failure of canonicalizing a candidate, if any.
pub open spec fn canonical_failure(values: Seq<usize>, n: nat, w: nat, declared: Option<usize>) -> Option<
    TopologyError,
> {
    let maximum = max_entry(values);
    let vertex_count = match declared {
        Some(v) => v as int,
        None => maximum + 1,
    };
    if n == 0 || w == 0 {
        Some(TopologyError::EmptyMaximalSimplices)
    } else if maximum == usize::MAX {
        Some(TopologyError::CountOverflow)
    } else if vertex_count == 0 || vertex_count <= maximum {
        Some(TopologyError::VertexExtent(vertex_count as usize, (maximum + 1) as usize))
    } else if repeated_row(flat_rows(values, n as int, w as int)) {
        Some(TopologyError::DuplicateMaximalSimplex)
    } else {
        None
    }
}

/// The declared vertex count, or one more than the largest entry.
pub open spec fn admitted_vertex_count(values: Seq<usize>, declared: Option<usize>) -> int {
    match declared {
        Some(v) => v as int,
        None => max_entry(values) + 1,
    }
}

/// The entries of `s` in increasing order.
pub open spec fn sorted_of(s: Seq<usize>) -> Seq<usize> {
    choose|t: Seq<usize>| sorted_form(t, s)
}

/// The distinct `k`-element faces of the sorted candidate rows.
pub open spec fn face_set(raw: Seq<Seq<usize>>, k: nat) -> Set<Seq<usize>> {
    Set::new(
        |s: Seq<usize>|
            exists|i: int| 0 <= i < raw.len() && #[trigger] combos(sorted_of(raw[i]), 0, k).contains(s),
    )
}

/// Basis sizes of an admission: the vertices, then the distinct faces of
/// every positive degree.
pub open spec fn admission_counts(values: Seq<usize>, n: nat, w: nat, vertex_count: int) -> Seq<usize> {
    Seq::new(
        w,
        |d: int|
            if d == 0 {
                vertex_count as usize
            } else {
                face_set(flat_rows(values, n as int, w as int), (d + 1) as nat).len() as usize
            },
    )
}

/// Whether an admission succeeds: rows of a single vertex list every vertex,
/// no face count leaves `usize`, the vertices leave room for a row pointer
/// past the last one when edges exist, and the mask words of all degrees fit.
pub open spec fn admission_fits(values: Seq<usize>, n: nat, w: nat, vertex_count: int) -> bool {
    &&& w == 1 ==> n == vertex_count
    &&& forall|d: int| 1 <= d < w ==> !#[trigger] face_count_overflows(w, n, (d + 1) as nat)
    &&& !(w >= 2 && vertex_count == usize::MAX)
    &&& w < usize::MAX
    &&& words_before(admission_counts(values, n, w, vertex_count), w as int) <= usize::MAX
}

pub proof fn lemma_max_entry(values: Seq<usize>, p: int)
    requires
        0 <= p < values.len(),
    ensures
        values[p] <= max_entry(values),
    decreases values.len(),
{
    if p < values.len() - 1 {
        lemma_max_entry(values.drop_last(), p);
    }
}

} // verus!

verus! {

/// Each canonical row is the sorted form of the candidate row it came from.
proof fn lemma_top_rows(top: Seq<Seq<usize>>, top_signs: Seq<i8>, raw: Seq<Seq<usize>>, raw_signs: Seq<i8>)
    requires
        canonical_arrangement(top, top_signs, raw, raw_signs),
    ensures
        exists|order: Seq<usize>|
            arrangement(order, raw.len() as int) && forall|e: int|
                0 <= e < raw.len() ==> #[trigger] top[e] == sorted_of(raw[order[e] as int]),
{
    let order = choose|order: Seq<usize>|
        arrangement(order, raw.len() as int) && forall|d: int|
            0 <= d < raw.len() ==> sorted_form(#[trigger] top[d], raw[order[d] as int]) && top_signs[d]
                == raw_signs[order[d] as int];
    assert forall|e: int| 0 <= e < raw.len() implies #[trigger] top[e] == sorted_of(raw[order[e] as int]) by {
        assert(sorted_form(top[e], raw[order[e] as int]));
        let t = sorted_of(raw[order[e] as int]);
        assert(sorted_form(t, raw[order[e] as int]));
        lemma_sorted_form_unique(top[e], t);
    }
}

/// The faces of the canonical rows are the faces of the sorted candidate rows.
proof fn lemma_top_faces(
    top: Seq<Seq<usize>>,
    top_signs: Seq<i8>,
    raw: Seq<Seq<usize>>,
    raw_signs: Seq<i8>,
    k: nat,
)
    requires
        canonical_arrangement(top, top_signs, raw, raw_signs),
    ensures
        forall|s: Seq<usize>| faces_of_rows(top, raw.len() as int, k).contains(s) <==> face_set(raw, k).contains(s),
{
    lemma_top_rows(top, top_signs, raw, raw_signs);
    let order = choose|order: Seq<usize>|
        arrangement(order, raw.len() as int) && forall|e: int|
            0 <= e < raw.len() ==> #[trigger] top[e] == sorted_of(raw[order[e] as int]);
    let n = raw.len() as int;
    assert forall|s: Seq<usize>| faces_of_rows(top, n, k).contains(s) <==> face_set(raw, k).contains(s) by {
        if faces_of_rows(top, n, k).contains(s) {
            lemma_face_origin(top, n, k, s);
            let e = choose|e: int| 0 <= e < n && #[trigger] combos(top[e], 0, k).contains(s);
            assert(top[e] == sorted_of(raw[order[e] as int]));
            let i = order[e] as int;
            assert(combos(sorted_of(raw[i]), 0, k).contains(s));
        }
        if face_set(raw, k).contains(s) {
            let i = choose|i: int| 0 <= i < raw.len() && #[trigger] combos(sorted_of(raw[i]), 0, k).contains(s);
            crate::correspondence::lemma_injection_onto(order, n, i);
            let e = choose|e: int| 0 <= e < n && order[e] == i;
            assert(top[e] == sorted_of(raw[i]));
            lemma_face_of_row(top, n, k, s, e);
        }
    }
}

/// A strictly sorted basis with the members of `faces` has as many rows as
/// `faces` has elements.
proof fn lemma_basis_count(b: Basis, faces: Set<Seq<usize>>)
    requires
        strictly_sorted(b.rows()),
        forall|s: Seq<usize>| b.rows().contains(s) <==> faces.contains(s),
    ensures
        b.spec_row_count() == faces.len(),
{
    b.lemma_shape_bounds();
    let rows = b.rows();
    assert(rows.no_duplicates()) by {
        assert forall|i: int, j: int| 0 <= i < rows.len() && 0 <= j < rows.len() && i != j implies rows[i] != rows[j] by {
            if i < j {
                lemma_lex_eq(rows[i], rows[j]);
            } else {
                lemma_lex_eq(rows[j], rows[i]);
            }
        }
    }
    rows.unique_seq_to_set();
    assert(rows.to_set() =~= faces);
}

/// Every entry of a candidate row is at most the largest entry.
proof fn lemma_raw_entry_bound(values: Seq<usize>, n: int, w: int, i: int, x: usize)
    requires
        0 <= i < n,
        w >= 0,
        values.len() == n * w,
        flat_rows(values, n, w)[i].contains(x),
    ensures
        x <= max_entry(values),
{
    lemma_row_window(i, w, n);
    let row = flat_row(values, w, i);
    let j = choose|j: int| 0 <= j < row.len() && row[j] == x;
    assert(values[i * w + j] == x);
    lemma_max_entry(values, i * w + j);
}

} // verus!

verus! {

/// Whether `bases` hold the vertices and, in each positive degree, exactly
/// the faces of the rows of `top`, in strictly increasing order.
pub open spec fn bases_of_faces(bases: Seq<Basis>, top: Basis, n: nat, vertex_count: int) -> bool {
    &&& bases.len() == top.spec_row_width()
    &&& bases[0].spec_row_count() == vertex_count
    &&& bases[0].spec_row_width() == 1
    &&& bases[0].rows() == vertex_rows(vertex_count as nat)
    &&& forall|e: int|
        1 <= e < bases.len() ==> {
            &&& (#[trigger] bases[e]).spec_row_width() == e + 1
            &&& strictly_sorted(bases[e].rows())
            &&& bases[e].spec_row_count() <= faces_of_rows(top.rows(), n as int, (e + 1) as nat).len()
            &&& forall|s: Seq<usize>|
                #![trigger bases[e].rows().contains(s)]
                #![trigger faces_of_rows(top.rows(), n as int, (e + 1) as nat).contains(s)]
                bases[e].rows().contains(s) <==> faces_of_rows(top.rows(), n as int, (e + 1) as nat).contains(s)
        }
}

proof fn lemma_top_row_lengths(top: Basis, n: int, w: int)
    requires
        top.spec_row_count() == n,
        top.spec_row_width() == w,
        n >= 0,
        w >= 0,
        top.spec_values().len() == n * w,
    ensures
        top.rows().len() == n,
        forall|i: int| 0 <= i < n ==> (#[trigger] top.rows()[i]).len() == w,
{
    assert forall|i: int| 0 <= i < n implies (#[trigger] top.rows()[i]).len() == w by {
        lemma_row_window(i, w, n);
    }
}

/// The boundary of every positive degree of an admission that fits can be
/// built: its source count fits with its incidences, every face of a source
/// row is a row of the degree below, and the lower count leaves room for one
/// more row pointer.
proof fn lemma_degree_buildable(
    bases: Seq<Basis>,
    top: Basis,
    top_signs: Seq<i8>,
    values: Seq<usize>,
    raw_signs: Seq<i8>,
    n: nat,
    w: nat,
    vertex_count: int,
    d: int,
)
    requires
        n >= 1,
        1 <= d < w,
        values.len() == n * w,
        top.spec_row_count() == n,
        top.spec_row_width() == w,
        top.spec_values().len() == n * w,
        canonical_arrangement(top.rows(), top_signs, flat_rows(values, n as int, w as int), raw_signs),
        max_entry(values) < vertex_count,
        bases_of_faces(bases, top, n, vertex_count),
        !face_count_overflows(w, n, (d + 1) as nat),
        d >= 2 ==> !face_count_overflows(w, n, d as nat),
    ensures
        bases[d].spec_row_count() * (d + 1) <= usize::MAX,
        all_faces_present(bases[d].rows(), bases[d - 1].rows(), d + 1),
        d >= 2 ==> bases[d - 1].spec_row_count() < usize::MAX,
{
    let rows = top.rows();
    lemma_top_row_lengths(top, n as int, w as int);
    let up = bases[d];
    let low = bases[d - 1];
    up.lemma_shape_bounds();
    low.lemma_shape_bounds();
    // source count
    lemma_faces_len(rows, n as int, w, (d + 1) as nat);
    let c = crate::binomial::binomial(w, (d + 1) as nat);
    assert(up.spec_row_count() * (d + 1) <= usize::MAX) by (nonlinear_arith)
        requires
            up.spec_row_count() <= n * c,
            (d + 1) * (c * n) <= usize::MAX,
            0 <= up.spec_row_count(),
            d >= 1,
    ;
    // lower count
    if d >= 2 {
        lemma_faces_len(rows, n as int, w, d as nat);
        let c2 = crate::binomial::binomial(w, d as nat);
        assert(low.spec_row_count() < usize::MAX) by (nonlinear_arith)
            requires
                low.spec_row_count() <= n * c2,
                d * (c2 * n) <= usize::MAX,
                0 <= low.spec_row_count(),
                d >= 2,
        ;
    }
    // faces
    assert forall|c_: int, r: int| 0 <= c_ < up.rows().len() && 0 <= r < d + 1 implies low.rows().contains(
        #[trigger] up.rows()[c_].remove(r),
    ) by {
        let x = up.rows()[c_];
        assert(up.rows().contains(x));
        assert(faces_of_rows(rows, n as int, (d + 1) as nat).contains(x));
        lemma_face_origin(rows, n as int, (d + 1) as nat, x);
        let e = choose|e: int| 0 <= e < n && #[trigger] combos(rows[e], 0, (d + 1) as nat).contains(x);
        lemma_combo_remove(rows[e], 0, (d + 1) as nat, x, r);
        let y = x.remove(r);
        assert(combos(rows[e], 0, d as nat).contains(y));
        if d >= 2 {
            lemma_face_of_row(rows, n as int, d as nat, y, e);
            assert(low.rows().contains(y));
        } else {
            crate::combination::lemma_combo_lengths(rows[e], 0, 1);
            let q = choose|q: int| 0 <= q < combos(rows[e], 0, 1).len() && combos(rows[e], 0, 1)[q] == y;
            assert(y.len() == 1);
            lemma_combo_entries(rows[e], 0, 1, y, 0);
            let v = y[0];
            // the entry comes from a candidate row
            let raw = flat_rows(values, n as int, w as int);
            let o2 = choose|o2: Seq<usize>|
                arrangement(o2, n as int) && forall|f: int|
                    0 <= f < n ==> sorted_form(#[trigger] rows[f], raw[o2[f] as int]) && top_signs[f]
                        == raw_signs[o2[f] as int];
            let raw_row = raw[o2[e] as int];
            assert(sorted_form(rows[e], raw_row));
            assert(rows[e].to_multiset().count(v) > 0);
            assert(raw_row.to_multiset().count(v) > 0);
            assert(raw_row.contains(v));
            lemma_raw_entry_bound(values, n as int, w as int, o2[e] as int, v);
            assert(vertex_rows(vertex_count as nat)[v as int] == seq![v]);
            assert(y =~= seq![v]);
            assert(low.rows()[v as int] == y);
        }
    }
}

} // verus!

verus! {

/// The vertex basis followed by the canonical face basis of every positive
/// degree below the width of `top`.
fn face_bases_of(top: &Basis, vertices: Basis) -> (r: Result<Vec<Basis>, TopologyError>)
    requires
        top.spec_row_width() >= 1,
        vertices.spec_row_width() == 1,
        vertices.rows() == vertex_rows(vertices.spec_row_count() as nat),
    ensures
        r is Ok <==> forall|d: int|
            1 <= d < top.spec_row_width() ==> !#[trigger] face_count_overflows(
                top.spec_row_width() as nat,
                top.spec_row_count() as nat,
                (d + 1) as nat,
            ),
        r is Err ==> r == Err::<Vec<Basis>, TopologyError>(TopologyError::CountOverflow),
        r matches Ok(bases) ==> bases_of_faces(bases@, *top, top.spec_row_count() as nat, vertices.spec_row_count())
            && bases@[0] == vertices,
        r matches Ok(bases) ==> forall|d: int| 0 <= d < bases@.len() ==> (#[trigger] bases@[d]).shape_inv(),
{
    let width = top.row_width();
    let ghost w = width as nat;
    let ghost n = top.spec_row_count() as nat;
    proof {
        top.lemma_shape_bounds();
        vertices.lemma_shape_bounds();
        use_type_invariant(&vertices);
    }
    let mut bases: Vec<Basis> = Vec::new();
    bases.push(vertices);
    let mut degree: usize = 1;
    while degree < width
        invariant
            1 <= degree <= width,
            width == top.spec_row_width(),
            w == width,
            n == top.spec_row_count(),
            bases@.len() == degree,
            bases@[0] == vertices,
            forall|e: int| 0 <= e < degree ==> (#[trigger] bases@[e]).shape_inv(),
            forall|d: int| 1 <= d < degree ==> !#[trigger] face_count_overflows(w, n, (d + 1) as nat),
            forall|e: int|
                1 <= e < degree ==> {
                    &&& (#[trigger] bases@[e]).spec_row_width() == e + 1
                    &&& strictly_sorted(bases@[e].rows())
                    &&& bases@[e].spec_row_count() <= faces_of_rows(top.rows(), n as int, (e + 1) as nat).len()
                    &&& forall|s: Seq<usize>|
                        #![trigger bases@[e].rows().contains(s)]
                        #![trigger faces_of_rows(top.rows(), n as int, (e + 1) as nat).contains(s)]
                        bases@[e].rows().contains(s) <==> faces_of_rows(top.rows(), n as int, (e + 1) as nat).contains(s)
                },
        decreases width - degree,
    {
        let faces = match canonical_faces(top, degree + 1) {
            Ok(b) => b,
            Err(e) => {
                proof {
                    assert(face_count_overflows(w, n, (degree + 1) as nat));
                }
                return Err(e);
            },
        };
        proof {
            use_type_invariant(&faces);
        }
        bases.push(faces);
        degree = degree + 1;
    }
    proof {
        assert(bases_of_faces(bases@, *top, n, vertices.spec_row_count()));
    }
    Ok(bases)
}

/// Orientation `1` for every row of the bases below degree `dimension`.
fn unit_orientations(bases: &Vec<Basis>, dimension: usize) -> (r: Vec<Vec<i8>>)
    requires
        dimension < bases@.len(),
    ensures
        r@.len() == dimension,
        forall|d: int| 0 <= d < dimension ==> (#[trigger] r@[d])@ == Seq::new(
            bases@[d].spec_row_count() as nat,
            |i: int| 1i8,
        ),
{
    let mut orientations: Vec<Vec<i8>> = Vec::new();
    let mut degree: usize = 0;
    while degree < dimension
        invariant
            degree <= dimension < bases@.len(),
            orientations@.len() == degree,
            forall|d: int|
                0 <= d < degree ==> (#[trigger] orientations@[d])@ == Seq::new(
                    bases@[d].spec_row_count() as nat,
                    |i: int| 1i8,
                ),
        decreases dimension - degree,
    {
        orientations.push(filled(bases[degree].row_count(), 1i8));
        degree = degree + 1;
    }
    orientations
}

} // verus!

verus! {

proof fn lemma_admission_counts(
    bases: Seq<Basis>,
    top: Basis,
    top_signs: Seq<i8>,
    values: Seq<usize>,
    raw_signs: Seq<i8>,
    n: nat,
    w: nat,
    vertex_count: int,
)
    requires
        n >= 1,
        w >= 1,
        top.spec_row_count() == n,
        top.spec_row_width() == w,
        canonical_arrangement(top.rows(), top_signs, flat_rows(values, n as int, w as int), raw_signs),
        bases_of_faces(bases, top, n, vertex_count),
    ensures
        basis_counts(bases) == admission_counts(values, n, w, vertex_count),
{
    let raw = flat_rows(values, n as int, w as int);
    assert forall|d: int| 0 <= d < w implies #[trigger] basis_counts(bases)[d] == admission_counts(values, n, w, vertex_count)[d] by {
        if d >= 1 {
            lemma_top_faces(top.rows(), top_signs, raw, raw_signs, (d + 1) as nat);
            assert forall|s: Seq<usize>| bases[d].rows().contains(s) <==> face_set(raw, (d + 1) as nat).contains(s) by {
                assert(bases[d].rows().contains(s) <==> faces_of_rows(top.rows(), n as int, (d + 1) as nat).contains(s));
            }
            lemma_basis_count(bases[d], face_set(raw, (d + 1) as nat));
        }
    }
    assert(basis_counts(bases) =~= admission_counts(values, n, w, vertex_count));
}

/// A strictly increasing sequence of `n` singleton rows below `n` lists `[0], ..., [n - 1]`.
proof fn lemma_singletons_fill(rows: Seq<Seq<usize>>, bound: int)
    requires
        strictly_sorted(rows),
        rows.len() == bound,
        forall|i: int| 0 <= i < rows.len() ==> (#[trigger] rows[i]).len() == 1 && rows[i][0] < bound,
    ensures
        rows == vertex_rows(bound as nat),
{
    assert forall|i: int| 0 <= i < bound implies #[trigger] rows[i][0] >= i by {
        lemma_singleton_floor(rows, i);
    }
    assert forall|i: int| 0 <= i < bound implies #[trigger] rows[i][0] <= i by {
        lemma_singleton_ceiling(rows, bound, i);
    }
    assert forall|i: int| 0 <= i < bound implies #[trigger] rows[i] == vertex_rows(bound as nat)[i] by {
        assert(rows[i][0] >= i && rows[i][0] <= i);
        assert(rows[i] =~= seq![i as usize]);
    }
    assert(rows =~= vertex_rows(bound as nat));
}

proof fn lemma_singleton_floor(rows: Seq<Seq<usize>>, i: int)
    requires
        strictly_sorted(rows),
        forall|j: int| 0 <= j < rows.len() ==> (#[trigger] rows[j]).len() == 1,
        0 <= i < rows.len(),
    ensures
        rows[i][0] >= i,
    decreases i,
{
    if i > 0 {
        lemma_singleton_floor(rows, i - 1);
        assert(lex_lt(rows[i - 1], rows[i]));
        assert(rows[i - 1][0] < rows[i][0]) by {
            if rows[i - 1][0] == rows[i][0] {
                assert(rows[i - 1] =~= rows[i]);
                lemma_lex_eq(rows[i - 1], rows[i]);
            }
        }
    }
}

proof fn lemma_singleton_ceiling(rows: Seq<Seq<usize>>, bound: int, i: int)
    requires
        strictly_sorted(rows),
        rows.len() == bound,
        forall|j: int| 0 <= j < rows.len() ==> (#[trigger] rows[j]).len() == 1 && rows[j][0] < bound,
        0 <= i < bound,
    ensures
        rows[i][0] <= i,
    decreases bound - i,
{
    if i < bound - 1 {
        lemma_singleton_ceiling(rows, bound, i + 1);
        assert(lex_lt(rows[i], rows[i + 1]));
        assert(rows[i][0] < rows[i + 1][0]) by {
            if rows[i][0] == rows[i + 1][0] {
                assert(rows[i] =~= rows[i + 1]);
                lemma_lex_eq(rows[i], rows[i + 1]);
            }
        }
    }
}

/// The top basis built from the faces is the canonical basis, except for
/// single-vertex rows that do not list every vertex.
proof fn lemma_top_basis(bases: Seq<Basis>, top: Basis, n: nat, w: nat, vertex_count: int)
    requires
        n >= 1,
        w >= 1,
        top.spec_row_count() == n,
        top.spec_row_width() == w,
        top.spec_values().len() == n * w,
        strictly_sorted(top.rows()),
        vertex_count > 0,
        forall|i: int, j: int| 0 <= i < n && 0 <= j < w ==> (#[trigger] top.rows()[i][j]) < vertex_count,
        bases_of_faces(bases, top, n, vertex_count),
    ensures
        w >= 2 || n == vertex_count ==> bases[w - 1].rows() == top.rows() && bases[w - 1].spec_row_width()
            == top.spec_row_width(),
        w == 1 && n != vertex_count ==> bases[0].spec_row_count() != top.spec_row_count(),
{
    lemma_top_row_lengths(top, n as int, w as int);
    if w >= 2 {
        lemma_faces_full(top.rows(), n as int, w);
        assert(top.rows().take(n as int) =~= top.rows());
        assert forall|s: Seq<usize>| bases[w - 1].rows().contains(s) <==> top.rows().contains(s) by {
            assert(bases[w - 1].rows().contains(s) <==> faces_of_rows(top.rows(), n as int, w).contains(s));
        }
        lemma_sorted_same_members(bases[w - 1].rows(), top.rows());
    } else if n == vertex_count {
        assert forall|i: int| 0 <= i < top.rows().len() implies (#[trigger] top.rows()[i]).len() == 1
            && top.rows()[i][0] < vertex_count by {
            assert(top.rows()[i][0] < vertex_count);
        }
        lemma_singletons_fill(top.rows(), vertex_count);
    }
}

proof fn lemma_orientation_inputs(bases: Seq<Basis>, orientations: Seq<Seq<i8>>, top_signs: Seq<i8>, dimension: int)
    requires
        bases.len() == dimension + 1,
        orientations.len() == dimension + 1,
        forall|d: int| 0 <= d < dimension ==> #[trigger] orientations[d] == Seq::new(
            bases[d].spec_row_count() as nat,
            |i: int| 1i8,
        ),
        orientations[dimension] == top_signs,
        top_signs.len() == bases[dimension].spec_row_count(),
        signs_only(top_signs),
        forall|d: int|
            0 <= d < bases.len() ==> (#[trigger] bases[d]).spec_row_width() == d + 1 && strictly_sorted(
                bases[d].rows(),
            ),
    ensures
        boundary_inputs(bases, orientations),
        face_orientations(orientations, bases, orientations[dimension]),
{
    assert forall|d: int| 0 <= d < bases.len() implies #[trigger] orientations[d].len() == bases[d].spec_row_count()
        && signs_only(orientations[d]) by {
        bases[d].lemma_shape_bounds();
    }
}

/// Every boundary of an admission whose faces fit can be built, but for the
/// first when the vertices leave no room for one more row pointer.
proof fn lemma_all_buildable(
    bases: Seq<Basis>,
    top: Basis,
    top_signs: Seq<i8>,
    values: Seq<usize>,
    raw_signs: Seq<i8>,
    n: nat,
    w: nat,
    vertex_count: int,
)
    requires
        n >= 1,
        values.len() == n * w,
        top.spec_row_count() == n,
        top.spec_row_width() == w,
        top.spec_values().len() == n * w,
        canonical_arrangement(top.rows(), top_signs, flat_rows(values, n as int, w as int), raw_signs),
        max_entry(values) < vertex_count,
        bases_of_faces(bases, top, n, vertex_count),
        forall|d: int| 1 <= d < w ==> !#[trigger] face_count_overflows(w, n, (d + 1) as nat),
    ensures
        forall|d: int| 1 <= d < w ==> {
            &&& #[trigger] bases[d].spec_row_count() * (d + 1) <= usize::MAX
            &&& all_faces_present(bases[d].rows(), bases[d - 1].rows(), d + 1)
            &&& (d >= 2 ==> bases[d - 1].spec_row_count() < usize::MAX)
        },
{
    assert forall|d: int| 1 <= d < w implies {
        &&& #[trigger] bases[d].spec_row_count() * (d + 1) <= usize::MAX
        &&& all_faces_present(bases[d].rows(), bases[d - 1].rows(), d + 1)
        &&& (d >= 2 ==> bases[d - 1].spec_row_count() < usize::MAX)
    } by {
        assert(!face_count_overflows(w, n, (d + 1) as nat));
        if d >= 2 {
            assert(!face_count_overflows(w, n, ((d - 1) + 1) as nat));
            assert(((d - 1) + 1) as nat == d as nat);
        }
        lemma_degree_buildable(bases, top, top_signs, values, raw_signs, n, w, vertex_count, d);
    }
}

} // verus!

verus! {

/// Every entry of a canonical row is below the vertex count.
proof fn lemma_top_entries(
    top: Basis,
    top_signs: Seq<i8>,
    values: Seq<usize>,
    raw_signs: Seq<i8>,
    n: nat,
    w: nat,
    vertex_count: int,
)
    requires
        values.len() == n * w,
        top.spec_row_count() == n,
        top.spec_row_width() == w,
        top.spec_values().len() == n * w,
        canonical_arrangement(top.rows(), top_signs, flat_rows(values, n as int, w as int), raw_signs),
        max_entry(values) < vertex_count,
    ensures
        forall|i: int, j: int| 0 <= i < n && 0 <= j < w ==> (#[trigger] top.rows()[i][j]) < vertex_count,
{
    lemma_top_row_lengths(top, n as int, w as int);
    let raw = flat_rows(values, n as int, w as int);
    let rows = top.rows();
    let o2 = choose|o2: Seq<usize>|
        arrangement(o2, n as int) && forall|f: int|
            0 <= f < n ==> sorted_form(#[trigger] rows[f], raw[o2[f] as int]) && top_signs[f] == raw_signs[o2[f] as int];
    assert forall|i: int, j: int| 0 <= i < n && 0 <= j < w implies (#[trigger] top.rows()[i][j]) < vertex_count by {
        let v = rows[i][j];
        assert(sorted_form(rows[i], raw[o2[i] as int]));
        assert(rows[i].contains(v));
        assert(rows[i].to_multiset().count(v) > 0);
        assert(raw[o2[i] as int].to_multiset().count(v) > 0);
        assert(raw[o2[i] as int].contains(v));
        lemma_raw_entry_bound(values, n as int, w as int, o2[i] as int, v);
    }
}

} // verus!

verus! {

/// The owner of a chain view: an admitted simplicial complex or an admitted
/// halfedge surface.
#[derive(Clone, Copy)]
pub enum ChainOwner<'a> {
    Simplicial(&'a ComplexCore),
    Halfedge(&'a HalfedgeSurfaceCore),
}

/// Borrowed view of an admitted topology owner as an exact based chain
/// complex.
#[derive(Clone, Copy)]
pub struct ChainView<'a> {
    owner: ChainOwner<'a>,
}

impl<'a> ChainView<'a> {
    pub closed spec fn spec_owner(self) -> ChainOwner<'a> {
        self.owner
    }

    pub(crate) fn halfedge(owner: &'a HalfedgeSurfaceCore) -> (r: ChainView<'a>)
        ensures
            r.spec_owner() == ChainOwner::Halfedge(owner),
    {
        ChainView { owner: ChainOwner::Halfedge(owner) }
    }

    /// The maximum chain degree: the complex's dimension, or two for a surface.
    pub open spec fn spec_dimension(self) -> int {
        match self.spec_owner() {
            ChainOwner::Simplicial(o) => o.spec_dimension() as int,
            ChainOwner::Halfedge(_) => 2,
        }
    }

    /// Maximum represented chain degree.
    pub fn dimension(self) -> (r: usize)
        ensures
            r == self.spec_dimension(),
    {
        match self.owner {
            ChainOwner::Simplicial(owner) => owner.dimension,
            ChainOwner::Halfedge(_) => 2,
        }
    }

    /// Rank of the ordered basis in one degree: the simplices of that degree,
    /// or the vertices, edges and material faces of a surface.
    pub fn basis_size(self, degree: usize) -> (r: Result<usize, TopologyError>)
        ensures
            degree > self.spec_dimension() ==> r == Err::<usize, TopologyError>(TopologyError::DegreeOutside(degree)),
            match self.spec_owner() {
                ChainOwner::Simplicial(o) => degree <= o.spec_dimension() ==> r == Ok::<usize, TopologyError>(
                    o.spec_bases()[degree as int].spec_row_count() as usize,
                ),
                ChainOwner::Halfedge(o) => {
                    &&& degree == 0 ==> r == Ok::<usize, TopologyError>(o.vertex_total() as usize)
                    &&& degree == 1 ==> r == Ok::<usize, TopologyError>(o.edge_total() as usize)
                    &&& degree == 2 ==> r == Ok::<usize, TopologyError>(o.material_orbits().len() as usize)
                },
            },
    {
        match self.owner {
            ChainOwner::Simplicial(owner) => {
                proof {
                    use_type_invariant(owner);
                }
                owner.layout.count(degree)
            },
            ChainOwner::Halfedge(owner) => {
                if degree == 0 {
                    Ok(owner.vertex_count())
                } else if degree == 1 {
                    Ok(owner.edge_count())
                } else if degree == 2 {
                    Ok(owner.material_face_count())
                } else {
                    Err(TopologyError::DegreeOutside(degree))
                }
            },
        }
    }

    /// Borrow one retained exact boundary map.
    pub fn boundary(self, degree: usize) -> (r: Result<BoundaryRef<'a>, TopologyError>)
        ensures
            degree > self.spec_dimension() ==> r == Err::<BoundaryRef<'a>, TopologyError>(
                TopologyError::DegreeOutside(degree),
            ),
            degree <= self.spec_dimension() ==> (r matches Ok(b) && b.spec_degree() == degree),
            match self.spec_owner() {
                ChainOwner::Simplicial(o) => degree <= o.spec_dimension() ==> (r matches Ok(b)
                    && b.borrows_canonical(o.spec_boundaries()[degree as int])),
                ChainOwner::Halfedge(o) => degree <= 2 ==> (r matches Ok(b) && b.borrows_native(
                    o.spec_chain().spec_boundary(degree as int),
                )),
            },
    {
        match self.owner {
            ChainOwner::Simplicial(owner) => {
                proof {
                    use_type_invariant(owner);
                }
                if degree <= owner.dimension {
                    proof {
                        if degree >= 1 {
                            assert(boundary_built(
                                owner.boundaries@[degree as int],
                                owner.immediate_faces@[degree as int]@,
                                owner.bases@[degree as int].rows(),
                                owner.bases@[degree - 1].rows(),
                                owner.orientations@[degree as int]@,
                                degree as int,
                            ));
                        }
                    }
                    Ok(BoundaryRef::canonical(&owner.boundaries[degree]))
                } else {
                    Err(TopologyError::DegreeOutside(degree))
                }
            },
            ChainOwner::Halfedge(owner) => {
                proof {
                    use_type_invariant(owner);
                    owner.lemma_chain();
                    reveal(surface_chain_holds);
                }
                let chain = owner.chain();
                match chain.boundary(degree) {
                    Ok(b) => Ok(BoundaryRef::native(b)),
                    Err(e) => Err(e),
                }
            },
        }
    }
}

impl ComplexCore {
    /// Borrow this complex through its exact chain view.
    pub fn chain_view(&self) -> (r: ChainView<'_>)
        ensures
            r.spec_owner() == ChainOwner::Simplicial(self),
    {
        ChainView { owner: ChainOwner::Simplicial(self) }
    }
}

} // verus!
