use vstd::prelude::*;

use crate::error::TopologyError;
use crate::lex::{lex_order, lex_lt, lemma_lex_eq, lemma_lex_trans, compare_rows};
use crate::sort::{key_views, before, sorted_by_key, sorted_order};
use crate::binomial::{binomial, binomial_product_overflows, binomial_steps, checked_binomial, lemma_binomial_above};
use crate::bucket::{bucket, bucket_order, lemma_bucket_members};
use crate::combination::{collect_combinations, combos, faces_of_rows, lemma_face_lengths, prefixed};

verus! {

pub proof fn lemma_row_window(i: int, w: int, count: int)
    requires
        0 <= i < count,
        0 <= w,
    ensures
        0 <= i * w,
        i * w + w <= count * w,
{
    assert(0 <= i * w) by (nonlinear_arith)
        requires
            0 <= i,
            0 <= w,
    ;
    assert(i * w + w <= count * w) by (nonlinear_arith)
        requires
            0 <= i < count,
            0 <= w,
    ;
}

/// Row `i` of a flat row-major table of width `w`.
pub open spec fn flat_row(values: Seq<usize>, w: int, i: int) -> Seq<usize> {
    values.subrange(i * w, i * w + w)
}

/// The rows of a flat row-major table.
pub open spec fn flat_rows(values: Seq<usize>, count: int, w: int) -> Seq<Seq<usize>> {
    Seq::new(count as nat, |i: int| flat_row(values, w, i))
}

/// Whether rows are strictly increasing in lexicographic order.
pub open spec fn strictly_sorted(rows: Seq<Seq<usize>>) -> bool {
    forall|i: int, j: int| 0 <= i < j < rows.len() ==> lex_lt(#[trigger] rows[i], #[trigger] rows[j])
}

/// Canonical rows of one simplex degree, stored flat in row-major order.
#[derive(Debug)]
pub struct Basis {
    values: Vec<usize>,
    row_count: usize,
    row_width: usize,
}

impl Basis {
    /// The flat values hold exactly `row_count` rows of `row_width` entries.
    #[verifier::type_invariant]
    pub open spec fn shape_inv(&self) -> bool {
        self.spec_values().len() == self.spec_row_count() * self.spec_row_width()
    }

    pub closed spec fn spec_values(&self) -> Seq<usize> {
        self.values@
    }

    pub closed spec fn spec_row_count(&self) -> int {
        self.row_count as int
    }

    pub closed spec fn spec_row_width(&self) -> int {
        self.row_width as int
    }

    pub open spec fn rows(&self) -> Seq<Seq<usize>> {
        flat_rows(self.spec_values(), self.spec_row_count(), self.spec_row_width())
    }

    pub(crate) fn from_flat(values: Vec<usize>, row_count: usize, row_width: usize) -> (r: Result<
        Basis,
        TopologyError,
    >)
        ensures
            row_count * row_width > usize::MAX ==> r == Err::<Basis, TopologyError>(
                TopologyError::CountOverflow,
            ),
            row_count * row_width <= usize::MAX && values@.len() != row_count * row_width ==> r
                == Err::<Basis, TopologyError>(TopologyError::InternalInvariant),
            values@.len() == row_count * row_width ==> (r matches Ok(b) && b.spec_values() == values@
                && b.spec_row_count() == row_count && b.spec_row_width() == row_width),
    {
        let length = values.len();
        let expected = match row_count.checked_mul(row_width) {
            Some(v) => v,
            None => return Err(TopologyError::CountOverflow),
        };
        if length != expected {
            return Err(TopologyError::InternalInvariant);
        }
        Ok(Basis { values, row_count, row_width })
    }

    pub proof fn lemma_shape_bounds(&self)
        ensures
            0 <= self.spec_row_count() <= usize::MAX,
            0 <= self.spec_row_width() <= usize::MAX,
    {
    }

    /// The canonical basis `[0], [1], ..., [count - 1]` of the vertices.
    pub(crate) fn vertices(count: usize) -> (b: Basis)
        ensures
            b.spec_row_count() == count,
            b.spec_row_width() == 1,
            b.rows() == Seq::new(count as nat, |v: int| seq![v as usize]),
    {
        let mut values: Vec<usize> = Vec::new();
        let mut v: usize = 0;
        while v < count
            invariant
                v <= count,
                values@ == Seq::new(v as nat, |i: int| i as usize),
            decreases count - v,
        {
            values.push(v);
            v = v + 1;
            proof {
                assert(values@ =~= Seq::new(v as nat, |i: int| i as usize));
            }
        }
        let basis = Basis { values, row_count: count, row_width: 1 };
        proof {
            assert forall|i: int| 0 <= i < count implies #[trigger] basis.rows()[i] == seq![i as usize] by {
                assert(flat_row(basis.values@, 1, i) =~= seq![i as usize]);
            }
            assert(basis.rows() =~= Seq::new(count as nat, |v: int| seq![v as usize]));
        }
        basis
    }

    /// Whether two bases hold the same rows.
    pub(crate) fn same_rows(&self, other: &Basis) -> (r: bool)
        ensures
            r ==> self.rows() == other.rows() && self.spec_row_count() == other.spec_row_count()
                && self.spec_row_width() == other.spec_row_width(),
            self.rows() == other.rows() && self.spec_row_width() == other.spec_row_width()
                && self.spec_row_width() > 0 ==> r,
    {
        proof {
            use_type_invariant(self);
            use_type_invariant(other);
            if self.rows() == other.rows() && self.row_width == other.row_width && self.row_width > 0 {
                assert(self.rows().len() == self.row_count);
                assert(other.rows().len() == other.row_count);
                lemma_flat_rows_determine(self.values@, other.values@, self.row_count as int, self.row_width as int);
            }
        }
        if self.row_count != other.row_count || self.row_width != other.row_width {
            return false;
        }
        let same = compare_rows(self.values.as_slice(), other.values.as_slice()) == 0;
        proof {
            lemma_lex_eq(self.values@, other.values@);
        }
        same
    }

    /// Number of canonical basis rows.
    pub fn row_count(&self) -> (r: usize)
        ensures
            r == self.spec_row_count(),
    {
        self.row_count
    }

    /// Width of each canonical simplex row.
    pub fn row_width(&self) -> (r: usize)
        ensures
            r == self.spec_row_width(),
    {
        self.row_width
    }

    /// Flat row-major canonical values.
    pub fn values(&self) -> (r: &[usize])
        ensures
            r@ == self.spec_values(),
    {
        self.values.as_slice()
    }

    /// One canonical basis row.
    pub fn row(&self, index: usize) -> (r: Option<&[usize]>)
        ensures
            r is Some <==> index < self.spec_row_count(),
            r matches Some(row) ==> row@ == self.rows()[index as int],
    {
        proof {
            use_type_invariant(self);
        }
        if index >= self.row_count {
            return None;
        }
        let length = self.values.len();
        proof {
            lemma_row_window(index as int, self.row_width as int, self.row_count as int);
        }
        let start = index * self.row_width;
        let end = start + self.row_width;
        Some(&self.values.as_slice()[start..end])
    }

    /// Locate a row in strictly sorted canonical rows.
    pub(crate) fn binary_search(&self, target: &[usize]) -> (r: Result<usize, TopologyError>)
        requires
            strictly_sorted(self.rows()),
        ensures
            r matches Ok(i) ==> i < self.spec_row_count() && self.rows()[i as int] == target@,
            r is Err ==> r == Err::<usize, TopologyError>(TopologyError::InternalInvariant)
                && !self.rows().contains(target@),
    {
        let mut lower: usize = 0;
        let mut upper: usize = self.row_count;
        while lower < upper
            invariant
                lower <= upper <= self.spec_row_count(),
                strictly_sorted(self.rows()),
                forall|i: int| 0 <= i < lower ==> lex_lt(#[trigger] self.rows()[i], target@),
                forall|i: int| upper <= i < self.spec_row_count() ==> lex_lt(target@, #[trigger] self.rows()[i]),
            decreases upper - lower,
        {
            let middle = lower + (upper - lower) / 2;
            let row = match self.row(middle) {
                Some(row) => row,
                None => return Err(TopologyError::InternalInvariant),
            };
            let order = compare_rows(row, target);
            if order < 0 {
                proof {
                    lemma_lex_eq(row@, target@);
                    assert forall|i: int| 0 <= i < middle + 1 implies lex_lt(#[trigger] self.rows()[i], target@) by {
                        if i < middle {
                            lemma_lex_trans(self.rows()[i], self.rows()[middle as int], target@);
                        }
                    }
                }
                lower = middle + 1;
            } else if order > 0 {
                proof {
                    lemma_lex_eq(row@, target@);
                    assert forall|i: int| middle <= i < self.spec_row_count() implies lex_lt(target@, #[trigger] self.rows()[i]) by {
                        if i > middle {
                            lemma_lex_trans(target@, self.rows()[middle as int], self.rows()[i]);
                        }
                    }
                }
                upper = middle;
            } else {
                proof {
                    lemma_lex_eq(row@, target@);
                }
                return Ok(middle);
            }
        }
        proof {
            if self.rows().contains(target@) {
                let i = choose|i: int| 0 <= i < self.rows().len() && self.rows()[i] == target@;
                lemma_lex_eq(target@, target@);
                if i < lower {
                    assert(lex_lt(self.rows()[i], target@));
                } else {
                    assert(lex_lt(target@, self.rows()[i]));
                }
            }
        }
        Err(TopologyError::InternalInvariant)
    }
}

} // verus!

verus! {

/// Whether `offsets` is a monotone row-pointer array of `rows` rows over `nnz` entries.
pub open spec fn row_pointers(offsets: Seq<usize>, rows: int, nnz: int) -> bool {
    &&& rows >= 0
    &&& offsets.len() == rows + 1
    &&& offsets[0] == 0
    &&& offsets[rows] == nnz
    &&& forall|a: int, b: int| 0 <= a <= b <= rows ==> #[trigger] offsets[a] <= #[trigger] offsets[b]
}

/// Whether entry `p` lies in row `r`.
pub open spec fn in_row(offsets: Seq<usize>, r: int, p: int) -> bool {
    offsets[r] <= p < offsets[r + 1]
}

/// The row holding entry `p` under monotone row pointers.
pub open spec fn row_of(offsets: Seq<usize>, rows: int, p: int) -> int {
    choose|r: int| 0 <= r < rows && #[trigger] in_row(offsets, r, p)
}

pub proof fn lemma_row_of(offsets: Seq<usize>, rows: int, nnz: int, p: int)
    requires
        row_pointers(offsets, rows, nnz),
        0 <= p < nnz,
    ensures
        0 <= row_of(offsets, rows, p) < rows,
        offsets[row_of(offsets, rows, p)] <= p < offsets[row_of(offsets, rows, p) + 1],
        forall|r: int| 0 <= r < rows && #[trigger] in_row(offsets, r, p) ==> r == row_of(offsets, rows, p),
{
    let r = lemma_find_row(offsets, rows, nnz, p, rows);
    assert(in_row(offsets, r, p));
    assert(exists|r: int| 0 <= r < rows && #[trigger] in_row(offsets, r, p));
    let c = row_of(offsets, rows, p);
    assert forall|s: int| 0 <= s < rows && #[trigger] in_row(offsets, s, p) implies s == c by {
        if s < c {
            assert(offsets[s + 1] <= offsets[c]);
        } else if s > c {
            assert(offsets[c + 1] <= offsets[s]);
        }
    }
}

proof fn lemma_find_row(offsets: Seq<usize>, rows: int, nnz: int, p: int, upto: int) -> (r: int)
    requires
        row_pointers(offsets, rows, nnz),
        0 <= p < offsets[upto],
        0 <= upto <= rows,
    ensures
        0 <= r < upto,
        offsets[r] <= p < offsets[r + 1],
    decreases upto,
{
    if upto == 0 {
        assert(offsets[0] == 0);
        0
    } else if p >= offsets[upto - 1] {
        upto - 1
    } else {
        lemma_find_row(offsets, rows, nnz, p, upto - 1)
    }
}

/// Compressed sparse rows of shape `(rows, columns)`.
#[derive(Debug)]
pub struct Csr<T: Copy> {
    rows: usize,
    columns: usize,
    indptr: Vec<usize>,
    indices: Vec<usize>,
    values: Vec<T>,
}

impl<T: Copy> Csr<T> {
    #[verifier::type_invariant]
    closed spec fn csr_inv(&self) -> bool {
        self.wf()
    }

    /// Compressed-sparse-row well-formedness.
    pub open spec fn wf(&self) -> bool {
        Self::parts_wf(
            self.spec_rows(),
            self.spec_columns(),
            self.spec_indptr(),
            self.spec_indices(),
            self.spec_values(),
        )
    }

    pub closed spec fn spec_rows(&self) -> int {
        self.rows as int
    }

    pub closed spec fn spec_columns(&self) -> int {
        self.columns as int
    }

    pub closed spec fn spec_indptr(&self) -> Seq<usize> {
        self.indptr@
    }

    pub closed spec fn spec_indices(&self) -> Seq<usize> {
        self.indices@
    }

    pub closed spec fn spec_values(&self) -> Seq<T> {
        self.values@
    }

    /// Whether the parts form compressed sparse rows of the given shape.
    pub open spec fn parts_wf(rows: int, columns: int, indptr: Seq<usize>, indices: Seq<usize>, values: Seq<T>) -> bool {
        &&& row_pointers(indptr, rows, indices.len() as int)
        &&& values.len() == indices.len()
        &&& forall|p: int| 0 <= p < indices.len() ==> #[trigger] indices[p] < columns
    }

    pub(crate) fn try_from_parts(
        shape: (usize, usize),
        indptr: Vec<usize>,
        indices: Vec<usize>,
        values: Vec<T>,
    ) -> (r: Result<Csr<T>, TopologyError>)
        ensures
            Self::parts_wf(shape.0 as int, shape.1 as int, indptr@, indices@, values@) <==> r is Ok,
            r matches Ok(m) ==> m.spec_rows() == shape.0 && m.spec_columns() == shape.1 && m.spec_indptr()
                == indptr@ && m.spec_indices() == indices@ && m.spec_values() == values@,
            r is Err ==> r == Err::<Csr<T>, TopologyError>(TopologyError::InternalInvariant),
    {
        let (rows, columns) = shape;
        if indptr.len() == 0 || indptr.len() - 1 != rows || indptr[0] != 0 || indptr[rows]
            != indices.len() || values.len() != indices.len() {
            return Err(TopologyError::InternalInvariant);
        }
        let mut r: usize = 0;
        while r < rows
            invariant
                r <= rows,
                rows == shape.0,
                indptr@.len() == rows + 1,
                forall|a: int, b: int| 0 <= a <= b <= r ==> #[trigger] indptr@[a] <= #[trigger] indptr@[b],
            decreases rows - r,
        {
            if indptr[r] > indptr[r + 1] {
                return Err(TopologyError::InternalInvariant);
            }
            proof {
                assert forall|a: int, b: int| 0 <= a <= b <= r + 1 implies #[trigger] indptr@[a] <= #[trigger] indptr@[b] by {
                    if b == r + 1 && a <= r {
                        assert(indptr@[a] <= indptr@[r as int]);
                    }
                }
            }
            r = r + 1;
        }
        let mut p: usize = 0;
        while p < indices.len()
            invariant
                p <= indices@.len(),
                columns == shape.1,
                forall|q: int| 0 <= q < p ==> #[trigger] indices@[q] < columns,
            decreases indices@.len() - p,
        {
            if indices[p] >= columns {
                return Err(TopologyError::InternalInvariant);
            }
            p = p + 1;
        }
        Ok(Csr { rows, columns, indptr, indices, values })
    }

    pub fn shape(&self) -> (r: (usize, usize))
        ensures
            r.0 == self.spec_rows() && r.1 == self.spec_columns(),
    {
        (self.rows, self.columns)
    }

    pub fn indptr(&self) -> (r: &[usize])
        ensures
            r@ == self.spec_indptr(),
    {
        self.indptr.as_slice()
    }

    pub fn indices(&self) -> (r: &[usize])
        ensures
            r@ == self.spec_indices(),
    {
        self.indices.as_slice()
    }

    pub fn values(&self) -> (r: &[T])
        ensures
            r@ == self.spec_values(),
    {
        self.values.as_slice()
    }

    /// The column indices and values of one row.
    pub fn row(&self, row: usize) -> (r: Option<(&[usize], &[T])>)
        ensures
            r is Some <==> row < self.spec_rows(),
            r matches Some(parts) ==> parts.0@ == self.spec_indices().subrange(
                self.spec_indptr()[row as int] as int,
                self.spec_indptr()[row + 1] as int,
            ) && parts.1@ == self.spec_values().subrange(
                self.spec_indptr()[row as int] as int,
                self.spec_indptr()[row + 1] as int,
            ),
    {
        proof {
            use_type_invariant(self);
        }
        if row >= self.rows {
            return None;
        }
        let start = self.indptr[row];
        let end = self.indptr[row + 1];
        proof {
            assert(end <= self.indptr@[self.rows as int]);
        }
        Some((&self.indices.as_slice()[start..end], &self.values.as_slice()[start..end]))
    }

}

} // verus!

verus! {

/// Strictly sorted distinct rows of a table whose rows all have `width` entries.
pub(crate) fn sorted_unique_rows(rows: &Vec<Vec<usize>>, width: usize) -> (b: Basis)
    requires
        forall|i: int| 0 <= i < rows@.len() ==> (#[trigger] rows@[i])@.len() == width,
    ensures
        b.spec_row_width() == width,
        b.spec_row_count() <= rows@.len(),
        strictly_sorted(b.rows()),
        forall|s: Seq<usize>| b.rows().contains(s) <==> key_views(rows@).contains(s),
{
    let ghost keys = key_views(rows@);
    let order = sorted_order(rows);
    let mut values: Vec<usize> = Vec::new();
    let mut unique: usize = 0;
    let mut previous: usize = 0;
    let ghost mut kept: Seq<Seq<usize>> = Seq::empty();
    let ghost mut origin: Seq<int> = Seq::empty();
    let mut pos: usize = 0;
    proof {
        assert(flat_rows(values@, 0, width as int) =~= kept);
    }
    while pos < order.len()
        invariant
            keys == key_views(rows@),
            forall|i: int| 0 <= i < rows@.len() ==> (#[trigger] rows@[i])@.len() == width,
            order@.len() == rows@.len(),
            forall|i: int| 0 <= i < order@.len() ==> #[trigger] order@[i] < rows@.len(),
            sorted_by_key(keys, order@),
            pos <= order@.len(),
            unique <= pos,
            kept.len() == unique,
            origin.len() == unique,
            values@.len() == unique * width,
            flat_rows(values@, unique as int, width as int) == kept,
            strictly_sorted(kept),
            pos > 0 ==> unique > 0 && previous < rows@.len() && kept.last() == keys[previous as int]
                && keys[order@[pos - 1] as int] == keys[previous as int],
            forall|q: int| 0 <= q < pos ==> kept.contains(#[trigger] keys[order@[q] as int]),
            forall|i: int|
                0 <= i < kept.len() ==> 0 <= #[trigger] origin[i] < pos && kept[i] == keys[order@[origin[i]] as int],
        decreases order@.len() - pos,
    {
        let index = order[pos];
        let duplicate = pos > 0 && compare_rows(rows[previous].as_slice(), rows[index].as_slice()) == 0;
        if !duplicate {
            let ghost old_values = values@;
            let ghost old_kept = kept;
            let ghost new_row = keys[index as int];
            proof {
                if pos > 0 {
                    let a = order@[pos - 1];
                    assert(before(keys, a, index));
                    lemma_lex_eq(keys[previous as int], new_row);
                    assert(lex_lt(kept.last(), new_row));
                    assert forall|i: int| 0 <= i < kept.len() implies lex_lt(#[trigger] kept[i], new_row) by {
                        if i < kept.len() - 1 {
                            lemma_lex_trans(kept[i], kept.last(), new_row);
                        }
                    }
                }
                assert(rows@[index as int]@ == new_row);
                assert(unique * width + width == (unique + 1) * width) by (nonlinear_arith);
            }
            values.extend_from_slice(rows[index].as_slice());
            proof {
                assert(values@ =~= old_values + new_row);
                kept = kept.push(new_row);
                origin = origin.push(pos as int);
                assert forall|i: int| 0 <= i < unique + 1 implies #[trigger] flat_rows(values@, unique + 1, width as int)[i]
                    == kept[i] by {
                    if i < unique {
                        lemma_row_window(i, width as int, unique as int);
                        assert(flat_row(values@, width as int, i) =~= flat_row(old_values, width as int, i));
                        assert(flat_rows(old_values, unique as int, width as int)[i] == old_kept[i]);
                    } else {
                        assert(flat_row(values@, width as int, i) =~= new_row);
                    }
                }
                assert(flat_rows(values@, unique + 1, width as int) =~= kept);
                assert forall|i: int, j: int| 0 <= i < j < kept.len() implies lex_lt(#[trigger] kept[i], #[trigger] kept[j]) by {
                    if j < kept.len() - 1 {
                        assert(old_kept[i] == kept[i] && old_kept[j] == kept[j]);
                    }
                }
                assert forall|q: int| 0 <= q < pos + 1 implies kept.contains(#[trigger] keys[order@[q] as int]) by {
                    if q < pos {
                        assert(old_kept.contains(keys[order@[q] as int]));
                        let t = choose|t: int| 0 <= t < old_kept.len() && old_kept[t] == keys[order@[q] as int];
                        assert(kept[t] == old_kept[t]);
                    } else {
                        assert(kept[kept.len() - 1] == new_row);
                    }
                }
            }
            unique = unique + 1;
            previous = index;
        } else {
            proof {
                lemma_lex_eq(keys[previous as int], keys[index as int]);
                assert(kept[kept.len() - 1] == keys[index as int]);
            }
        }
        pos = pos + 1;
    }
    proof {
        assert forall|s: Seq<usize>| flat_rows(values@, unique as int, width as int).contains(s) <==> key_views(rows@).contains(s) by {
            if kept.contains(s) {
                let i = choose|i: int| 0 <= i < kept.len() && kept[i] == s;
                assert(origin[i] < pos);
                let x = order@[origin[i]];
                assert(keys[x as int] == s);
            }
            if keys.contains(s) {
                let x = choose|x: int| 0 <= x < keys.len() && keys[x] == s;
                assert(order@.contains(x as usize));
                let q = choose|q: int| 0 <= q < order@.len() && order@[q] == x as usize;
                assert(kept.contains(keys[order@[q] as int]));
            }
        }
    }
    Basis { values, row_count: unique, row_width: width }
}

} // verus!

verus! {

/// Whether the capacity counts of the `k`-faces of `n` rows of width `w`
/// leave `usize`: the binomial running product, the face count, or the
/// flat entry count.
pub open spec fn face_count_overflows(w: nat, n: nat, k: nat) -> bool {
    ||| (k <= w && binomial_product_overflows(w, binomial_steps(w, k)))
    ||| binomial(w, k) * n > usize::MAX
    ||| k * (binomial(w, k) * n) > usize::MAX
}

proof fn lemma_prefixed_empty(cs: Seq<Seq<usize>>)
    ensures
        prefixed(Seq::empty(), cs) == cs,
{
    assert forall|i: int| 0 <= i < cs.len() implies #[trigger] prefixed(Seq::empty(), cs)[i] == cs[i] by {
        assert(Seq::<usize>::empty() + cs[i] =~= cs[i]);
    }
    assert(prefixed(Seq::empty(), cs) =~= cs);
}

/// The canonical basis of all `selected`-element faces of the rows of
/// `maximal`: strictly sorted and free of repeats.
pub(crate) fn canonical_faces(maximal: &Basis, selected: usize) -> (r: Result<Basis, TopologyError>)
    ensures
        face_count_overflows(maximal.spec_row_width() as nat, maximal.spec_row_count() as nat, selected as nat)
            ==> r == Err::<Basis, TopologyError>(TopologyError::CountOverflow),
        !face_count_overflows(maximal.spec_row_width() as nat, maximal.spec_row_count() as nat, selected as nat)
            && selected > maximal.spec_row_width() && maximal.spec_row_count() > 0 ==> r == Err::<
            Basis,
            TopologyError,
        >(TopologyError::InternalInvariant),
        !face_count_overflows(maximal.spec_row_width() as nat, maximal.spec_row_count() as nat, selected as nat)
            && (selected <= maximal.spec_row_width() || maximal.spec_row_count() == 0) ==> (r matches Ok(b)
            && b.spec_row_width() == selected && strictly_sorted(b.rows()) && b.spec_row_count()
            <= faces_of_rows(maximal.rows(), maximal.spec_row_count(), selected as nat).len() && forall|s: Seq<usize>|
            b.rows().contains(s) <==> faces_of_rows(
            maximal.rows(),
            maximal.spec_row_count(),
            selected as nat,
        ).contains(s)),
{
    proof {
        use_type_invariant(maximal);
    }
    let width = maximal.row_width();
    let count = maximal.row_count();
    let ghost w = width as nat;
    let ghost n = count as nat;
    let ghost k = selected as nat;
    let per_row = match checked_binomial(width, selected) {
        Some(v) => v,
        None => return Err(TopologyError::CountOverflow),
    };
    proof {
        if k > w {
            lemma_binomial_above(w, k);
        }
    }
    let upper_bound = match per_row.checked_mul(count) {
        Some(v) => v,
        None => return Err(TopologyError::CountOverflow),
    };
    if selected.checked_mul(upper_bound).is_none() {
        return Err(TopologyError::CountOverflow);
    }
    let mut rows: Vec<Vec<usize>> = Vec::new();
    let mut current: Vec<usize> = Vec::new();
    let mut i: usize = 0;
    proof {
        assert(key_views(rows@) =~= faces_of_rows(maximal.rows(), 0, k));
        assert(!face_count_overflows(w, n, k));
    }
    while i < count
        invariant
            i <= count,
            !face_count_overflows(width as nat, count as nat, selected as nat),
            count == maximal.spec_row_count(),
            width == maximal.spec_row_width(),
            maximal.spec_values().len() == count * width,
            k == selected,
            current@.len() == 0,
            key_views(rows@) == faces_of_rows(maximal.rows(), i as int, k),
            i > 0 ==> selected <= width,
        decreases count - i,
    {
        let row = match maximal.row(i) {
            Some(row) => row,
            None => return Err(TopologyError::InternalInvariant),
        };
        proof {
            lemma_row_window(i as int, width as int, count as int);
            assert(row@.len() == width);
        }
        let ghost before_rows = rows@;
        match collect_combinations(row, selected, 0, &mut current, &mut rows) {
            Ok(()) => {},
            Err(e) => return Err(e),
        }
        proof {
            lemma_prefixed_empty(combos(row@, 0, k));
            assert(key_views(rows@) =~= faces_of_rows(maximal.rows(), i + 1, k));
        }
        i = i + 1;
    }
    proof {
        lemma_face_lengths(maximal.rows(), count as int, k);
        assert forall|j: int| 0 <= j < rows@.len() implies (#[trigger] rows@[j])@.len() == selected by {
            assert(key_views(rows@)[j] == rows@[j]@);
        }
    }
    Ok(sorted_unique_rows(&rows, selected))
}

} // verus!

verus! {

/// `1` at even positions, `-1` at odd ones.
pub open spec fn alternating(r: int) -> int {
    if r % 2 == 0 {
        1
    } else {
        -1
    }
}

/// The coefficient of incidence `q` (column `q / per`, removed position
/// `q % per`) in a boundary of simplices with `per` vertices.
pub open spec fn incidence_coefficient(orientation: Seq<i8>, per: int, q: int) -> int {
    orientation[q / per] * alternating(q % per)
}

/// Whether every entry of `orientation` is a sign.
pub open spec fn signs_only(orientation: Seq<i8>) -> bool {
    forall|c: int| 0 <= c < orientation.len() ==> #[trigger] orientation[c] == 1 || orientation[c] == -1
}

/// Whether every face of every upper row occurs among the lower rows.
pub open spec fn all_faces_present(upper: Seq<Seq<usize>>, lower: Seq<Seq<usize>>, per: int) -> bool {
    forall|c: int, r: int| 0 <= c < upper.len() && 0 <= r < per ==> lower.contains(#[trigger] upper[c].remove(r))
}

/// Whether `faces[q]` locates face `q % per` of upper row `q / per` among the lower rows.
pub open spec fn faces_located(upper: Seq<Seq<usize>>, lower: Seq<Seq<usize>>, per: int, faces: Seq<usize>) -> bool {
    &&& faces.len() == upper.len() * per
    &&& forall|q: int|
        0 <= q < faces.len() ==> #[trigger] faces[q] < lower.len() && lower[faces[q] as int] == upper[q / per].remove(
            q % per,
        )
}

/// The columns of incidences `s` of simplices with `per` vertices.
pub open spec fn incidence_columns(s: Seq<usize>, per: int) -> Seq<usize> {
    s.map_values(|q: usize| (q / (per as usize)) as usize)
}

/// The signed coefficients of incidences `s`.
pub open spec fn incidence_coefficients(s: Seq<usize>, orientation: Seq<i8>, per: int) -> Seq<i8> {
    s.map_values(|q: usize| incidence_coefficient(orientation, per, q as int) as i8)
}

/// Whether CSR parts hold, row by row, the incidences of `faces` in
/// increasing order: their columns and their signed coefficients.
pub open spec fn incidence_rows(
    rows: int,
    indptr: Seq<usize>,
    indices: Seq<usize>,
    data: Seq<i8>,
    faces: Seq<usize>,
    orientation: Seq<i8>,
    per: int,
) -> bool {
    &&& row_pointers(indptr, rows, faces.len() as int)
    &&& indices.len() == faces.len()
    &&& data.len() == faces.len()
    &&& forall|x: int|
        0 <= x < rows ==> indices.subrange(indptr[x] as int, indptr[x + 1] as int) == incidence_columns(
            #[trigger] bucket(faces, faces.len() as int, x),
            per,
        )
    &&& forall|x: int|
        0 <= x < rows ==> data.subrange(indptr[x] as int, indptr[x + 1] as int) == incidence_coefficients(
            #[trigger] bucket(faces, faces.len() as int, x),
            orientation,
            per,
        )
}

/// Retained canonical signed boundary matrix.
#[derive(Debug)]
pub struct CanonicalBoundary {
    degree: usize,
    storage: Csr<i8>,
}

impl CanonicalBoundary {
    pub closed spec fn spec_degree(&self) -> int {
        self.degree as int
    }

    pub closed spec fn spec_storage(&self) -> Csr<i8> {
        self.storage
    }

    /// Represented boundary degree.
    pub fn degree(&self) -> (r: usize)
        ensures
            r == self.spec_degree(),
    {
        self.degree
    }

    /// Matrix shape `(lower_basis_size, source_basis_size)`.
    pub fn shape(&self) -> (r: (usize, usize))
        ensures
            r.0 == self.spec_storage().spec_rows() && r.1 == self.spec_storage().spec_columns(),
    {
        self.storage.shape()
    }

    /// Canonical nonzero coefficients.
    pub fn data(&self) -> (r: &[i8])
        ensures
            r@ == self.spec_storage().spec_values(),
    {
        self.storage.values()
    }

    /// Canonical compressed-column indexes within each CSR row.
    pub fn indices(&self) -> (r: &[usize])
        ensures
            r@ == self.spec_storage().spec_indices(),
    {
        self.storage.indices()
    }

    /// Canonical CSR row-pointer storage.
    pub fn indptr(&self) -> (r: &[usize])
        ensures
            r@ == self.spec_storage().spec_indptr(),
    {
        self.storage.indptr()
    }
}

/// Whether `boundary` and `faces` are the degree-`degree` boundary between
/// the canonical rows `upper` (oriented by `orientation`) and `lower`.
pub open spec fn boundary_built(
    boundary: CanonicalBoundary,
    faces: Seq<usize>,
    upper: Seq<Seq<usize>>,
    lower: Seq<Seq<usize>>,
    orientation: Seq<i8>,
    degree: int,
) -> bool {
    let m = boundary.spec_storage();
    &&& boundary.spec_degree() == degree
    &&& m.spec_rows() == lower.len()
    &&& m.spec_columns() == upper.len()
    &&& faces_located(upper, lower, degree + 1, faces)
    &&& incidence_rows(
        lower.len() as int,
        m.spec_indptr(),
        m.spec_indices(),
        m.spec_values(),
        faces,
        orientation,
        degree + 1,
    )
}

fn face_without(simplex: &[usize], removed: usize) -> (face: Vec<usize>)
    requires
        removed < simplex@.len(),
    ensures
        face@ == simplex@.remove(removed as int),
{
    let length = simplex.len();
    let mut face: Vec<usize> = Vec::new();
    let mut t: usize = 0;
    while t < removed
        invariant
            t <= removed < simplex@.len(),
            face@ == simplex@.subrange(0, t as int),
        decreases removed - t,
    {
        face.push(simplex[t]);
        t = t + 1;
        proof {
            assert(face@ =~= simplex@.subrange(0, t as int));
        }
    }
    t = removed + 1;
    while t < simplex.len()
        invariant
            removed < t <= simplex@.len(),
            face@ == simplex@.subrange(0, removed as int) + simplex@.subrange(removed + 1, t as int),
        decreases simplex@.len() - t,
    {
        face.push(simplex[t]);
        t = t + 1;
        proof {
            assert(face@ =~= simplex@.subrange(0, removed as int) + simplex@.subrange(removed + 1, t as int));
        }
    }
    face
}

/// The lower row of every face of every upper row, in incidence order.
fn locate_faces(upper: &Basis, lower: &Basis, degree: usize) -> (r: Result<Vec<usize>, TopologyError>)
    requires
        upper.spec_row_width() == degree + 1,
        upper.spec_row_count() * (degree + 1) <= usize::MAX,
        strictly_sorted(lower.rows()),
    ensures
        r is Err <==> !all_faces_present(upper.rows(), lower.rows(), degree + 1),
        r is Err ==> r == Err::<Vec<usize>, TopologyError>(TopologyError::InternalInvariant),
        r matches Ok(faces) ==> faces_located(upper.rows(), lower.rows(), degree + 1, faces@),
{
    proof {
        use_type_invariant(upper);
    }
    let columns = upper.row_count();
    let per = upper.row_width();
    let nonzeros = columns * per;
    let ghost up = upper.rows();
    let ghost low = lower.rows();
    let mut faces: Vec<usize> = Vec::new();
    let mut column: usize = 0;
    while column < columns
        invariant
            column <= columns,
            columns == upper.spec_row_count(),
            per == degree + 1,
            per == upper.spec_row_width(),
            up == upper.rows(),
            low == lower.rows(),
            upper.spec_values().len() == columns * per,
            nonzeros == columns * per,
            strictly_sorted(low),
            faces@.len() == column * per,
            forall|q: int|
                0 <= q < faces@.len() ==> #[trigger] faces@[q] < low.len() && low[faces@[q] as int]
                    == up[q / (per as int)].remove(q % (per as int)),
            forall|c: int, s: int| 0 <= c < column && 0 <= s < per ==> low.contains(#[trigger] up[c].remove(s)),
        decreases columns - column,
    {
        let simplex = match upper.row(column) {
            Some(row) => row,
            None => return Err(TopologyError::InternalInvariant),
        };
        proof {
            lemma_row_window(column as int, per as int, columns as int);
            assert(simplex@.len() == per);
        }
        let mut removed: usize = 0;
        while removed < per
            invariant
                removed <= per,
                per == degree + 1,
                column < columns,
                columns == upper.spec_row_count(),
                per == upper.spec_row_width(),
                simplex@ == up[column as int],
                simplex@.len() == per,
                up == upper.rows(),
                low == lower.rows(),
                strictly_sorted(low),
                nonzeros == columns * per,
                faces@.len() == column * per + removed,
                forall|q: int|
                    0 <= q < faces@.len() ==> #[trigger] faces@[q] < low.len() && low[faces@[q] as int]
                        == up[q / (per as int)].remove(q % (per as int)),
                forall|c: int, s: int| 0 <= c < column && 0 <= s < per ==> low.contains(#[trigger] up[c].remove(s)),
                forall|s: int| 0 <= s < removed ==> low.contains(#[trigger] up[column as int].remove(s)),
            decreases per - removed,
        {
            let face = face_without(simplex, removed);
            let row = match lower.binary_search(face.as_slice()) {
                Ok(row) => row,
                Err(e) => {
                    proof {
                        assert(!all_faces_present(up, low, per as int)) by {
                            if all_faces_present(up, low, per as int) {
                                assert(low.contains(up[column as int].remove(removed as int)));
                            }
                        }
                    }
                    return Err(e);
                },
            };
            proof {
                let q = column * per + removed;
                assert(q / (per as int) == column && q % (per as int) == removed) by (nonlinear_arith)
                    requires
                        q == column * per + removed,
                        0 <= removed < per,
                ;
                assert(column * per + removed < nonzeros) by (nonlinear_arith)
                    requires
                        column < columns,
                        removed < per,
                        nonzeros == columns * per,
                ;
                assert(low[row as int] == face@);
            }
            faces.push(row);
            proof {
                assert(low.contains(up[column as int].remove(removed as int))) by {
                    assert(low[row as int] == up[column as int].remove(removed as int));
                }
            }
            removed = removed + 1;
        }
        proof {
            assert((column + 1) * per == column * per + per) by (nonlinear_arith);
        }
        column = column + 1;
    }
    proof {
        assert(faces_located(up, low, per as int, faces@));
    }
    Ok(faces)
}

proof fn lemma_order_entry(fs: Seq<usize>, indptr: Seq<usize>, order: Seq<usize>, rows: int, t: int)
    requires
        fs.len() <= usize::MAX,
        row_pointers(indptr, rows, fs.len() as int),
        order.len() == fs.len(),
        0 <= t < order.len(),
        forall|x: int|
            0 <= x < rows ==> order.subrange(indptr[x] as int, indptr[x + 1] as int) == #[trigger] bucket(
                fs,
                fs.len() as int,
                x,
            ),
    ensures
        order[t] < fs.len(),
{
    lemma_row_of(indptr, rows, fs.len() as int, t);
    let x = row_of(indptr, rows, t);
    let b = bucket(fs, fs.len() as int, x);
    lemma_bucket_members(fs, fs.len() as int, x);
    assert(order.subrange(indptr[x] as int, indptr[x + 1] as int) == b);
    assert(b[t - indptr[x]] == order[t]);
}

proof fn lemma_order_in_range(fs: Seq<usize>, indptr: Seq<usize>, order: Seq<usize>, rows: int)
    requires
        fs.len() <= usize::MAX,
        row_pointers(indptr, rows, fs.len() as int),
        order.len() == fs.len(),
        forall|x: int|
            0 <= x < rows ==> order.subrange(indptr[x] as int, indptr[x + 1] as int) == #[trigger] bucket(
                fs,
                fs.len() as int,
                x,
            ),
    ensures
        forall|t: int| 0 <= t < order.len() ==> #[trigger] order[t] < fs.len(),
{
    assert forall|t: int| 0 <= t < order.len() implies #[trigger] order[t] < fs.len() by {
        lemma_order_entry(fs, indptr, order, rows, t);
    }
}

proof fn lemma_rows_of_order(
    fs: Seq<usize>,
    indptr: Seq<usize>,
    order: Seq<usize>,
    rows: int,
    orientation: Seq<i8>,
    per: int,
    indices: Seq<usize>,
    data: Seq<i8>,
)
    requires
        row_pointers(indptr, rows, fs.len() as int),
        order.len() == fs.len(),
        indices == incidence_columns(order, per),
        data == incidence_coefficients(order, orientation, per),
        forall|x: int|
            0 <= x < rows ==> order.subrange(indptr[x] as int, indptr[x + 1] as int) == #[trigger] bucket(
                fs,
                fs.len() as int,
                x,
            ),
    ensures
        incidence_rows(rows, indptr, indices, data, fs, orientation, per),
{
    assert forall|x: int| 0 <= x < rows implies indices.subrange(indptr[x] as int, indptr[x + 1] as int)
        == incidence_columns(#[trigger] bucket(fs, fs.len() as int, x), per) by {
        assert(indptr[x] <= indptr[x + 1] <= indptr[rows]);
        assert(indices.subrange(indptr[x] as int, indptr[x + 1] as int) =~= incidence_columns(
            order.subrange(indptr[x] as int, indptr[x + 1] as int),
            per,
        ));
    }
    assert forall|x: int| 0 <= x < rows implies data.subrange(indptr[x] as int, indptr[x + 1] as int)
        == incidence_coefficients(#[trigger] bucket(fs, fs.len() as int, x), orientation, per) by {
        assert(indptr[x] <= indptr[x + 1] <= indptr[rows]);
        assert(data.subrange(indptr[x] as int, indptr[x + 1] as int) =~= incidence_coefficients(
            order.subrange(indptr[x] as int, indptr[x + 1] as int),
            orientation,
            per,
        ));
    }
}

/// Compressed sparse rows of the signed incidences `faces` of `columns`
/// oriented simplices with `per` vertices over `lower_count` rows.
fn incidence_csr(
    faces: &Vec<usize>,
    orientation: &[i8],
    per: usize,
    columns: usize,
    lower_count: usize,
) -> (m: Csr<i8>)
    requires
        per > 0,
        faces@.len() == columns * per,
        orientation@.len() == columns,
        signs_only(orientation@),
        forall|q: int| 0 <= q < faces@.len() ==> #[trigger] faces@[q] < lower_count,
    ensures
        m.spec_rows() == lower_count,
        m.spec_columns() == columns,
        incidence_rows(
            lower_count as int,
            m.spec_indptr(),
            m.spec_indices(),
            m.spec_values(),
            faces@,
            orientation@,
            per as int,
        ),
{
    let (indptr, order) = bucket_order(faces, lower_count);
    let ghost fs = faces@;
    proof {
        lemma_order_in_range(fs, indptr@, order@, lower_count as int);
    }
    let mut indices: Vec<usize> = Vec::new();
    let mut data: Vec<i8> = Vec::new();
    let mut p: usize = 0;
    while p < order.len()
        invariant
            p <= order@.len(),
            order@.len() == fs.len(),
            fs.len() == columns * per,
            per > 0,
            orientation@.len() == columns,
            signs_only(orientation@),
            forall|q: int| 0 <= q < order@.len() ==> #[trigger] order@[q] < fs.len(),
            indices@ == incidence_columns(order@.take(p as int), per as int),
            data@ == incidence_coefficients(order@.take(p as int), orientation@, per as int),
        decreases order@.len() - p,
    {
        let q = order[p];
        let c = q / per;
        let removed = q % per;
        proof {
            assert(c < columns) by (nonlinear_arith)
                requires
                    q < columns * per,
                    c == q / per,
                    per > 0,
            ;
        }
        let sign = orientation[c];
        let value: i8 = if removed % 2 == 0 {
            sign
        } else {
            -sign
        };
        proof {
            assert(orientation@[c as int] == 1 || orientation@[c as int] == -1);
            if removed % 2 == 0 {
                assert(alternating(q as int % per as int) == 1);
            } else {
                assert(alternating(q as int % per as int) == -1);
            }
            assert(incidence_coefficient(orientation@, per as int, q as int) == value as int);
        }
        indices.push(c);
        data.push(value);
        proof {
            assert(order@.take(p + 1) =~= order@.take(p as int).push(q));
            assert(indices@ =~= incidence_columns(order@.take(p + 1), per as int));
            assert(data@ =~= incidence_coefficients(order@.take(p + 1), orientation@, per as int));
        }
        p = p + 1;
    }
    proof {
        assert(order@.take(p as int) =~= order@);
        lemma_rows_of_order(fs, indptr@, order@, lower_count as int, orientation@, per as int, indices@, data@);
        assert forall|t: int| 0 <= t < indices@.len() implies #[trigger] indices@[t] < columns by {
            let q = order@[t];
            assert(q / per < columns) by (nonlinear_arith)
                requires
                    q < columns * per,
                    per > 0,
            ;
        }
    }
    match Csr::try_from_parts((lower_count, columns), indptr, indices, data) {
        Ok(m) => m,
        Err(_) => {
            proof {
                assert(false);
            }
            Csr { rows: 0, columns: 0, indptr: vec![0usize], indices: Vec::new(), values: Vec::new() }
        },
    }
}

/// The signed boundary of one positive degree, with the lower row of every
/// face of every upper row.
pub(crate) fn build_boundary(
    upper: &Basis,
    lower: &Basis,
    orientation: &[i8],
    degree: usize,
) -> (r: Result<(CanonicalBoundary, Vec<usize>), TopologyError>)
    requires
        upper.spec_row_width() == degree + 1,
        strictly_sorted(lower.rows()),
        orientation@.len() == upper.spec_row_count(),
        signs_only(orientation@),
    ensures
        upper.spec_row_count() * (degree + 1) > usize::MAX ==> r == Err::<
            (CanonicalBoundary, Vec<usize>),
            TopologyError,
        >(TopologyError::CountOverflow),
        upper.spec_row_count() * (degree + 1) <= usize::MAX && !all_faces_present(upper.rows(), lower.rows(), degree + 1)
            ==> r == Err::<(CanonicalBoundary, Vec<usize>), TopologyError>(TopologyError::InternalInvariant),
        upper.spec_row_count() * (degree + 1) <= usize::MAX && all_faces_present(upper.rows(), lower.rows(), degree + 1)
            && lower.spec_row_count() == usize::MAX ==> r == Err::<(CanonicalBoundary, Vec<usize>), TopologyError>(
            TopologyError::CountOverflow,
        ),
        upper.spec_row_count() * (degree + 1) <= usize::MAX && all_faces_present(upper.rows(), lower.rows(), degree + 1)
            && lower.spec_row_count() < usize::MAX ==> r is Ok,
        r matches Ok(built) ==> boundary_built(built.0, built.1@, upper.rows(), lower.rows(), orientation@, degree as int),
{
    let columns = upper.row_count();
    let per = upper.row_width();
    if columns.checked_mul(per).is_none() {
        return Err(TopologyError::CountOverflow);
    }
    let faces = match locate_faces(upper, lower, degree) {
        Ok(faces) => faces,
        Err(e) => return Err(e),
    };
    let lower_count = lower.row_count();
    if lower_count == usize::MAX {
        return Err(TopologyError::CountOverflow);
    }
    let storage = incidence_csr(&faces, orientation, per, columns, lower_count);
    Ok((CanonicalBoundary { degree, storage }, faces))
}

} // verus!

verus! {

/// Number of 64-bit words that hold `count` bits.
pub open spec fn word_count(count: int) -> int {
    (count + 63) / 64
}

/// Words needed by the masks of degrees `0..upto`.
pub open spec fn words_before(counts: Seq<usize>, upto: int) -> int
    decreases upto,
{
    if upto <= 0 {
        0
    } else {
        words_before(counts, upto - 1) + word_count(counts[upto - 1] as int)
    }
}

pub proof fn lemma_words_before_monotone(counts: Seq<usize>, a: int, b: int)
    requires
        0 <= a <= b,
    ensures
        words_before(counts, a) <= words_before(counts, b),
    decreases b - a,
{
    if a < b {
        lemma_words_before_monotone(counts, a, b - 1);
        assert(word_count(counts[b - 1] as int) >= 0);
    }
}

/// Retained immutable indexing for all represented simplex degrees.
#[derive(Debug, PartialEq, Eq)]
pub struct DegreeLayout {
    counts: Vec<usize>,
    word_offsets: Vec<usize>,
}

impl DegreeLayout {
    #[verifier::type_invariant]
    closed spec fn layout_inv(&self) -> bool {
        &&& self.word_offsets@.len() == self.counts@.len() + 1
        &&& forall|i: int| 0 <= i <= self.counts@.len() ==> #[trigger] self.word_offsets@[i] == words_before(self.counts@, i)
    }

    pub closed spec fn spec_counts(&self) -> Seq<usize> {
        self.counts@
    }

    pub closed spec fn spec_word_offsets(&self) -> Seq<usize> {
        self.word_offsets@
    }

    /// The layout of degrees with the given basis sizes; `CountOverflow` when
    /// the word offsets leave `usize`.
    pub fn from_counts(counts: Vec<usize>) -> (r: Result<DegreeLayout, TopologyError>)
        ensures
            r is Ok <==> counts@.len() < usize::MAX && words_before(counts@, counts@.len() as int) <= usize::MAX,
            r is Err ==> r == Err::<DegreeLayout, TopologyError>(TopologyError::CountOverflow),
            r matches Ok(layout) ==> layout.spec_counts() == counts@ && layout.spec_word_offsets().len()
                == counts@.len() + 1 && forall|i: int|
                0 <= i <= counts@.len() ==> #[trigger] layout.spec_word_offsets()[i] == words_before(counts@, i),
    {
        if counts.len() == usize::MAX {
            return Err(TopologyError::CountOverflow);
        }
        let mut word_offsets: Vec<usize> = Vec::new();
        word_offsets.push(0);
        let mut i: usize = 0;
        while i < counts.len()
            invariant
                i <= counts@.len() < usize::MAX,
                word_offsets@.len() == i + 1,
                forall|j: int| 0 <= j <= i ==> #[trigger] word_offsets@[j] == words_before(counts@, j),
            decreases counts@.len() - i,
        {
            let count = counts[i];
            let words = count / 64 + if count % 64 == 0 {
                0
            } else {
                1
            };
            proof {
                assert(words == word_count(count as int));
            }
            let last = word_offsets[i];
            let next = match last.checked_add(words) {
                Some(v) => v,
                None => {
                    proof {
                        lemma_words_before_monotone(counts@, i + 1, counts@.len() as int);
                    }
                    return Err(TopologyError::CountOverflow);
                },
            };
            word_offsets.push(next);
            i = i + 1;
        }
        proof {
            assert(word_offsets@[i as int] == words_before(counts@, i as int));
        }
        Ok(DegreeLayout { counts, word_offsets })
    }

    /// The layout of the degrees of the given canonical bases.
    pub fn from_bases(bases: &Vec<Basis>) -> (r: Result<DegreeLayout, TopologyError>)
        ensures
            r is Ok <==> bases@.len() < usize::MAX && words_before(basis_counts(bases@), bases@.len() as int)
                <= usize::MAX,
            r is Err ==> r == Err::<DegreeLayout, TopologyError>(TopologyError::CountOverflow),
            r matches Ok(layout) ==> layout.spec_counts() == basis_counts(bases@),
    {
        let mut counts: Vec<usize> = Vec::new();
        let mut i: usize = 0;
        while i < bases.len()
            invariant
                i <= bases@.len(),
                counts@ == basis_counts(bases@).take(i as int),
            decreases bases@.len() - i,
        {
            counts.push(bases[i].row_count());
            i = i + 1;
            proof {
                assert(counts@ =~= basis_counts(bases@).take(i as int));
            }
        }
        proof {
            assert(counts@ =~= basis_counts(bases@));
        }
        DegreeLayout::from_counts(counts)
    }

    pub fn counts(&self) -> (r: &[usize])
        ensures
            r@ == self.spec_counts(),
    {
        self.counts.as_slice()
    }

    pub fn word_offsets(&self) -> (r: &[usize])
        ensures
            r@ == self.spec_word_offsets(),
            r@.len() == self.spec_counts().len() + 1,
            forall|i: int| 0 <= i <= self.spec_counts().len() ==> #[trigger] r@[i] == words_before(self.spec_counts(), i),
    {
        proof {
            use_type_invariant(self);
        }
        self.word_offsets.as_slice()
    }

    /// Basis size of one represented degree.
    pub fn count(&self, degree: usize) -> (r: Result<usize, TopologyError>)
        ensures
            degree < self.spec_counts().len() ==> r == Ok::<usize, TopologyError>(self.spec_counts()[degree as int]),
            degree >= self.spec_counts().len() ==> r == Err::<usize, TopologyError>(TopologyError::DegreeOutside(degree)),
    {
        if degree < self.counts.len() {
            Ok(self.counts[degree])
        } else {
            Err(TopologyError::DegreeOutside(degree))
        }
    }
}

/// The basis sizes of a sequence of canonical bases.
pub open spec fn basis_counts(bases: Seq<Basis>) -> Seq<usize> {
    bases.map_values(|b: Basis| b.spec_row_count() as usize)
}

/// A vector of `length` copies of `value`.
pub(crate) fn filled<T: Copy>(length: usize, value: T) -> (r: Vec<T>)
    ensures
        r@ == Seq::new(length as nat, |i: int| value),
{
    let mut output: Vec<T> = Vec::new();
    let mut i: usize = 0;
    while i < length
        invariant
            i <= length,
            output@ == Seq::new(i as nat, |j: int| value),
        decreases length - i,
    {
        output.push(value);
        i = i + 1;
        proof {
            assert(output@ =~= Seq::new(i as nat, |j: int| value));
        }
    }
    output
}

} // verus!

verus! {

/// The views of a table of orientation rows.
pub open spec fn sign_views(orientations: Seq<Vec<i8>>) -> Seq<Seq<i8>> {
    orientations.map_values(|o: Vec<i8>| o@)
}

/// Whether bases and orientations can carry boundaries: basis `d` has rows of
/// width `d + 1` in strictly increasing order, and orientation `d` holds one
/// sign per row of basis `d`.
pub open spec fn boundary_inputs(bases: Seq<Basis>, orientations: Seq<Seq<i8>>) -> bool {
    &&& bases.len() == orientations.len()
    &&& forall|d: int|
        0 <= d < bases.len() ==> #[trigger] orientations[d].len() == bases[d].spec_row_count() && signs_only(
            orientations[d],
        )
    &&& forall|d: int|
        0 <= d < bases.len() ==> (#[trigger] bases[d]).spec_row_width() == d + 1 && strictly_sorted(
            bases[d].rows(),
        )
}

/// Whether the boundary of degree `d` between `upper` and `lower` can be built.
pub open spec fn degree_buildable(upper: Basis, lower: Basis, d: int) -> bool {
    &&& upper.spec_row_count() * (d + 1) <= usize::MAX
    &&& all_faces_present(upper.rows(), lower.rows(), d + 1)
    &&& lower.spec_row_count() < usize::MAX
}

/// The failure of building the boundary of degree `d`.
pub open spec fn degree_build_error(upper: Basis, lower: Basis, d: int) -> TopologyError {
    if upper.spec_row_count() * (d + 1) > usize::MAX {
        TopologyError::CountOverflow
    } else if !all_faces_present(upper.rows(), lower.rows(), d + 1) {
        TopologyError::InternalInvariant
    } else {
        TopologyError::CountOverflow
    }
}

/// Whether `boundary` is the zero map of degree zero on `columns` vertices.
pub open spec fn zero_boundary(boundary: CanonicalBoundary, columns: int) -> bool {
    let m = boundary.spec_storage();
    &&& boundary.spec_degree() == 0
    &&& m.spec_rows() == 0
    &&& m.spec_columns() == columns
    &&& m.spec_indptr() == seq![0usize]
    &&& m.spec_indices().len() == 0
    &&& m.spec_values().len() == 0
}

/// The signed boundary of every degree, with the immediate faces of every
/// positive degree.
pub(crate) fn build_boundaries(bases: &Vec<Basis>, orientations: &Vec<Vec<i8>>) -> (r: Result<
    (Vec<CanonicalBoundary>, Vec<Vec<usize>>),
    TopologyError,
>)
    requires
        bases@.len() > 0,
        boundary_inputs(bases@, sign_views(orientations@)),
    ensures
        r is Ok <==> forall|d: int| 1 <= d < bases@.len() ==> degree_buildable(#[trigger] bases@[d], bases@[d - 1], d),
        r is Err ==> exists|d: int|
            1 <= d < bases@.len() && !degree_buildable(#[trigger] bases@[d], bases@[d - 1], d) && (forall|e: int|
                1 <= e < d ==> degree_buildable(#[trigger] bases@[e], bases@[e - 1], e)) && r == Err::<
                (Vec<CanonicalBoundary>, Vec<Vec<usize>>),
                TopologyError,
            >(degree_build_error(bases@[d], bases@[d - 1], d)),
        r matches Ok(built) ==> {
            &&& built.0@.len() == bases@.len()
            &&& built.1@.len() == bases@.len()
            &&& zero_boundary(built.0@[0], bases@[0].spec_row_count())
            &&& built.1@[0]@.len() == 0
            &&& forall|d: int|
                1 <= d < bases@.len() ==> boundary_built(
                    #[trigger] built.0@[d],
                    built.1@[d]@,
                    bases@[d].rows(),
                    bases@[d - 1].rows(),
                    orientations@[d]@,
                    d,
                )
        },
{
    let columns = bases[0].row_count();
    let mut indptr: Vec<usize> = Vec::new();
    indptr.push(0);
    proof {
        assert(row_pointers(indptr@, 0, 0));
    }
    let storage = match Csr::try_from_parts((0, columns), indptr, Vec::new(), Vec::new()) {
        Ok(m) => m,
        Err(e) => return Err(e),
    };
    let mut boundaries: Vec<CanonicalBoundary> = Vec::new();
    let mut faces: Vec<Vec<usize>> = Vec::new();
    boundaries.push(CanonicalBoundary { degree: 0, storage });
    faces.push(Vec::new());
    let mut degree: usize = 1;
    while degree < bases.len()
        invariant
            1 <= degree <= bases@.len(),
            boundary_inputs(bases@, sign_views(orientations@)),
            boundaries@.len() == degree,
            faces@.len() == degree,
            zero_boundary(boundaries@[0], bases@[0].spec_row_count()),
            faces@[0]@.len() == 0,
            forall|d: int| 1 <= d < degree ==> degree_buildable(#[trigger] bases@[d], bases@[d - 1], d),
            forall|d: int|
                1 <= d < degree ==> boundary_built(
                    #[trigger] boundaries@[d],
                    faces@[d]@,
                    bases@[d].rows(),
                    bases@[d - 1].rows(),
                    orientations@[d]@,
                    d,
                ),
        decreases bases@.len() - degree,
    {
        proof {
            assert(sign_views(orientations@)[degree as int] == orientations@[degree as int]@);
            assert(bases@[degree as int].spec_row_width() == degree + 1);
            assert(strictly_sorted(bases@[degree - 1].rows()));
        }
        let built = build_boundary(&bases[degree], &bases[degree - 1], orientations[degree].as_slice(), degree);
        let (boundary, face_rows) = match built {
            Ok(pair) => pair,
            Err(e) => {
                proof {
                    assert(!degree_buildable(bases@[degree as int], bases@[degree - 1], degree as int));
                }
                return Err(e);
            },
        };
        boundaries.push(boundary);
        faces.push(face_rows);
        degree = degree + 1;
    }
    Ok((boundaries, faces))
}

} // verus!

verus! {

/// Appending a row of width `w` to a flat table appends it to the rows.
pub proof fn lemma_flat_push(values: Seq<usize>, row: Seq<usize>, n: int, w: int)
    requires
        0 <= n,
        0 <= w,
        values.len() == n * w,
        row.len() == w,
    ensures
        flat_rows(values + row, n + 1, w) == flat_rows(values, n, w).push(row),
{
    assert forall|i: int| 0 <= i < n + 1 implies #[trigger] flat_rows(values + row, n + 1, w)[i] == flat_rows(
        values,
        n,
        w,
    ).push(row)[i] by {
        if i < n {
            lemma_row_window(i, w, n);
            assert(flat_row(values + row, w, i) =~= flat_row(values, w, i));
        } else {
            assert(flat_row(values + row, w, i) =~= row);
        }
    }
    assert(flat_rows(values + row, n + 1, w) =~= flat_rows(values, n, w).push(row));
}

} // verus!

verus! {

/// Flat tables of the same shape with the same rows are equal.
pub proof fn lemma_flat_rows_determine(a: Seq<usize>, b: Seq<usize>, n: int, w: int)
    requires
        w > 0,
        n >= 0,
        a.len() == n * w,
        b.len() == n * w,
        flat_rows(a, n, w) == flat_rows(b, n, w),
    ensures
        a == b,
{
    assert forall|p: int| 0 <= p < a.len() implies a[p] == b[p] by {
        let i = p / w;
        let j = p % w;
        assert(0 <= i < n && 0 <= j < w && p == i * w + j) by (nonlinear_arith)
            requires
                0 <= p < n * w,
                w > 0,
                i == p / w,
                j == p % w,
        ;
        lemma_row_window(i, w, n);
        assert(flat_rows(a, n, w)[i] == flat_row(a, w, i));
        assert(flat_rows(b, n, w)[i] == flat_row(b, w, i));
        assert(flat_row(a, w, i)[j] == a[p]);
        assert(flat_row(b, w, i)[j] == b[p]);
    }
    assert(a =~= b);
}

/// Two strictly sorted sequences of rows with the same members are equal.
pub proof fn lemma_sorted_same_members(a: Seq<Seq<usize>>, b: Seq<Seq<usize>>)
    requires
        strictly_sorted(a),
        strictly_sorted(b),
        forall|s: Seq<usize>| a.contains(s) <==> b.contains(s),
    ensures
        a == b,
    decreases a.len(),
{
    if a.len() == 0 {
        if b.len() > 0 {
            assert(b.contains(b[0]));
        }
        assert(a =~= b);
    } else if b.len() == 0 {
        assert(a.contains(a[0]));
    } else {
        assert(a.contains(a[0]));
        assert(b.contains(b[0]));
        let i = choose|i: int| 0 <= i < a.len() && a[i] == b[0];
        let j = choose|j: int| 0 <= j < b.len() && b[j] == a[0];
        if i > 0 {
            assert(lex_lt(a[0], a[i]));
            if j > 0 {
                assert(lex_lt(b[0], b[j]));
                lemma_lex_trans(a[0], a[i], a[0]);
                lemma_lex_eq(a[0], a[0]);
            } else {
                lemma_lex_eq(a[0], a[0]);
            }
        } else if j > 0 {
            assert(lex_lt(b[0], b[j]));
            lemma_lex_eq(b[0], b[0]);
        }
        assert(a[0] == b[0]);
        let a1 = a.drop_first();
        let b1 = b.drop_first();
        assert forall|s: Seq<usize>| a1.contains(s) <==> b1.contains(s) by {
            if a1.contains(s) {
                let p = choose|p: int| 0 <= p < a1.len() && a1[p] == s;
                assert(a[p + 1] == s);
                assert(lex_lt(a[0], a[p + 1]));
                lemma_lex_eq(a[0], s);
                assert(b.contains(s));
                let q = choose|q: int| 0 <= q < b.len() && b[q] == s;
                assert(q != 0);
                assert(b1[q - 1] == s);
            }
            if b1.contains(s) {
                let p = choose|p: int| 0 <= p < b1.len() && b1[p] == s;
                assert(b[p + 1] == s);
                assert(lex_lt(b[0], b[p + 1]));
                lemma_lex_eq(b[0], s);
                assert(a.contains(s));
                let q = choose|q: int| 0 <= q < a.len() && a[q] == s;
                assert(q != 0);
                assert(a1[q - 1] == s);
            }
        }
        assert forall|x: int, y: int| 0 <= x < y < a1.len() implies lex_lt(#[trigger] a1[x], #[trigger] a1[y]) by {
            assert(a1[x] == a[x + 1] && a1[y] == a[y + 1]);
        }
        assert forall|x: int, y: int| 0 <= x < y < b1.len() implies lex_lt(#[trigger] b1[x], #[trigger] b1[y]) by {
            assert(b1[x] == b[x + 1] && b1[y] == b[y + 1]);
        }
        lemma_sorted_same_members(a1, b1);
        assert(a =~= seq![a[0]] + a1);
        assert(b =~= seq![b[0]] + b1);
    }
}

} // verus!

verus! {

/// Retained boundary matrix with native 64-bit coefficients.
#[derive(Debug)]
pub struct NativeBoundary64 {
    degree: usize,
    storage: Csr<i64>,
}

impl NativeBoundary64 {
    pub closed spec fn spec_degree(&self) -> int {
        self.degree as int
    }

    pub closed spec fn spec_storage(&self) -> Csr<i64> {
        self.storage
    }

    /// A boundary of the given degree from compressed-sparse-row parts;
    /// `InternalInvariant` when the parts are not well formed.
    pub(crate) fn try_from_csr(
        degree: usize,
        shape: (usize, usize),
        indptr: Vec<usize>,
        indices: Vec<usize>,
        data: Vec<i64>,
    ) -> (r: Result<NativeBoundary64, TopologyError>)
        ensures
            r is Ok <==> Csr::<i64>::parts_wf(shape.0 as int, shape.1 as int, indptr@, indices@, data@),
            r is Err ==> r == Err::<NativeBoundary64, TopologyError>(TopologyError::InternalInvariant),
            r matches Ok(b) ==> b.spec_degree() == degree && b.spec_storage().spec_rows() == shape.0
                && b.spec_storage().spec_columns() == shape.1 && b.spec_storage().spec_indptr() == indptr@
                && b.spec_storage().spec_indices() == indices@ && b.spec_storage().spec_values() == data@,
    {
        let storage = match Csr::try_from_parts(shape, indptr, indices, data) {
            Ok(m) => m,
            Err(e) => return Err(e),
        };
        Ok(NativeBoundary64 { degree, storage })
    }
}

/// Borrowed coefficients in their retained native integer width.
#[derive(Debug, Clone, Copy)]
pub enum CoefficientSlice<'a> {
    I8(&'a [i8]),
    I64(&'a [i64]),
}

impl<'a> CoefficientSlice<'a> {
    /// The coefficients, widened to integers.
    pub open spec fn widened(self) -> Seq<int> {
        match self {
            CoefficientSlice::I8(values) => values@.map_values(|v: i8| v as int),
            CoefficientSlice::I64(values) => values@.map_values(|v: i64| v as int),
        }
    }
}

#[derive(Debug, Clone, Copy)]
enum BoundaryStorageRef<'a> {
    I8(&'a CanonicalBoundary),
    I64(&'a NativeBoundary64),
}

/// Borrowed sparse boundary with native-width storage.
#[derive(Debug, Clone, Copy)]
pub struct BoundaryRef<'a> {
    storage: BoundaryStorageRef<'a>,
}

impl<'a> BoundaryRef<'a> {
    pub closed spec fn spec_degree(self) -> int {
        match self.storage {
            BoundaryStorageRef::I8(b) => b.spec_degree(),
            BoundaryStorageRef::I64(b) => b.spec_degree(),
        }
    }

    pub closed spec fn spec_rows(self) -> int {
        match self.storage {
            BoundaryStorageRef::I8(b) => b.spec_storage().spec_rows(),
            BoundaryStorageRef::I64(b) => b.spec_storage().spec_rows(),
        }
    }

    pub closed spec fn spec_columns(self) -> int {
        match self.storage {
            BoundaryStorageRef::I8(b) => b.spec_storage().spec_columns(),
            BoundaryStorageRef::I64(b) => b.spec_storage().spec_columns(),
        }
    }

    pub closed spec fn spec_indptr(self) -> Seq<usize> {
        match self.storage {
            BoundaryStorageRef::I8(b) => b.spec_storage().spec_indptr(),
            BoundaryStorageRef::I64(b) => b.spec_storage().spec_indptr(),
        }
    }

    pub closed spec fn spec_indices(self) -> Seq<usize> {
        match self.storage {
            BoundaryStorageRef::I8(b) => b.spec_storage().spec_indices(),
            BoundaryStorageRef::I64(b) => b.spec_storage().spec_indices(),
        }
    }

    /// The coefficients, widened to integers.
    pub closed spec fn spec_coefficients(self) -> Seq<int> {
        match self.storage {
            BoundaryStorageRef::I8(b) => b.spec_storage().spec_values().map_values(|v: i8| v as int),
            BoundaryStorageRef::I64(b) => b.spec_storage().spec_values().map_values(|v: i64| v as int),
        }
    }

    /// Whether the coefficients are stored in 8 bits.
    pub closed spec fn spec_is_narrow(self) -> bool {
        self.storage is I8
    }

    /// Whether this reference borrows exactly the given canonical boundary.
    pub closed spec fn borrows_canonical(self, boundary: CanonicalBoundary) -> bool {
        self.storage == BoundaryStorageRef::I8(&boundary)
    }

    /// Whether this reference borrows exactly the given 64-bit boundary.
    pub closed spec fn borrows_native(self, boundary: NativeBoundary64) -> bool {
        self.storage == BoundaryStorageRef::I64(&boundary)
    }

    /// Whether the parts form compressed sparse rows of the retained shape.
    pub open spec fn csr_wf(self) -> bool {
        &&& row_pointers(self.spec_indptr(), self.spec_rows(), self.spec_indices().len() as int)
        &&& self.spec_coefficients().len() == self.spec_indices().len()
        &&& forall|p: int| 0 <= p < self.spec_indices().len() ==> #[trigger] self.spec_indices()[p] < self.spec_columns()
    }

    pub fn canonical(boundary: &'a CanonicalBoundary) -> (r: BoundaryRef<'a>)
        ensures
            r.borrows_canonical(*boundary),
            r.spec_degree() == boundary.spec_degree(),
            r.spec_rows() == boundary.spec_storage().spec_rows(),
            r.spec_columns() == boundary.spec_storage().spec_columns(),
            r.spec_indptr() == boundary.spec_storage().spec_indptr(),
            r.spec_indices() == boundary.spec_storage().spec_indices(),
            r.spec_coefficients() == boundary.spec_storage().spec_values().map_values(|v: i8| v as int),
    {
        BoundaryRef { storage: BoundaryStorageRef::I8(boundary) }
    }

    pub fn native(boundary: &'a NativeBoundary64) -> (r: BoundaryRef<'a>)
        ensures
            r.borrows_native(*boundary),
            r.spec_degree() == boundary.spec_degree(),
            r.spec_rows() == boundary.spec_storage().spec_rows(),
            r.spec_columns() == boundary.spec_storage().spec_columns(),
            r.spec_indptr() == boundary.spec_storage().spec_indptr(),
            r.spec_indices() == boundary.spec_storage().spec_indices(),
            r.spec_coefficients() == boundary.spec_storage().spec_values().map_values(|v: i64| v as int),
    {
        BoundaryRef { storage: BoundaryStorageRef::I64(boundary) }
    }

    /// Represented boundary degree.
    pub fn degree(self) -> (r: usize)
        ensures
            r == self.spec_degree(),
    {
        match self.storage {
            BoundaryStorageRef::I8(b) => b.degree(),
            BoundaryStorageRef::I64(b) => b.degree,
        }
    }

    /// Matrix shape `(lower_basis_size, source_basis_size)`.
    pub fn shape(self) -> (r: (usize, usize))
        ensures
            r.0 == self.spec_rows() && r.1 == self.spec_columns(),
    {
        match self.storage {
            BoundaryStorageRef::I8(b) => b.shape(),
            BoundaryStorageRef::I64(b) => b.storage.shape(),
        }
    }

    /// Retained coefficients without widening or copying.
    pub fn coefficients(self) -> (r: CoefficientSlice<'a>)
        ensures
            r.widened() == self.spec_coefficients(),
            r is I8 <==> self.spec_is_narrow(),
    {
        match self.storage {
            BoundaryStorageRef::I8(b) => CoefficientSlice::I8(b.data()),
            BoundaryStorageRef::I64(b) => CoefficientSlice::I64(b.storage.values()),
        }
    }

    /// Retained CSR column indices.
    pub fn indices(self) -> (r: &'a [usize])
        ensures
            r@ == self.spec_indices(),
    {
        match self.storage {
            BoundaryStorageRef::I8(b) => b.indices(),
            BoundaryStorageRef::I64(b) => b.storage.indices(),
        }
    }

    /// CSR row pointers.
    pub fn indptr(self) -> (r: &'a [usize])
        ensures
            r@ == self.spec_indptr(),
    {
        match self.storage {
            BoundaryStorageRef::I8(b) => b.indptr(),
            BoundaryStorageRef::I64(b) => b.storage.indptr(),
        }
    }

    /// A cursor over the entries `(row, column, coefficient)` in storage order.
    pub fn exact_entries(self) -> (r: ExactEntries<'a>)
        ensures
            r.spec_rows() == self.spec_rows(),
            r.spec_indptr() == self.spec_indptr(),
            r.spec_indices() == self.spec_indices(),
            r.spec_coefficients() == self.spec_coefficients(),
            r.spec_position() == 0,
    {
        match self.storage {
            BoundaryStorageRef::I8(b) => {
                proof {
                    use_type_invariant(&b.storage);
                }
            },
            BoundaryStorageRef::I64(b) => {
                proof {
                    use_type_invariant(&b.storage);
                }
            },
        }
        ExactEntries {
            rows: self.shape().0,
            indptr: self.indptr(),
            indices: self.indices(),
            coefficients: self.coefficients(),
            row: 0,
            position: 0,
        }
    }

}

/// The row holding storage position `p` of compressed sparse rows.
pub open spec fn entry_row(indptr: Seq<usize>, rows: int, p: int) -> int {
    row_of(indptr, rows, p)
}

/// Cursor over the exact entries of one retained sparse boundary.
pub struct ExactEntries<'a> {
    rows: usize,
    indptr: &'a [usize],
    indices: &'a [usize],
    coefficients: CoefficientSlice<'a>,
    row: usize,
    position: usize,
}

impl<'a> ExactEntries<'a> {
    #[verifier::type_invariant]
    closed spec fn cursor_inv(&self) -> bool {
        &&& row_pointers(self.indptr@, self.rows as int, self.indices@.len() as int)
        &&& self.coefficients.widened().len() == self.indices@.len()
        &&& self.position <= self.indices@.len()
        &&& self.row <= self.rows
        &&& self.indptr@[self.row as int] <= self.position
    }

    pub closed spec fn spec_rows(&self) -> int {
        self.rows as int
    }

    pub closed spec fn spec_indptr(&self) -> Seq<usize> {
        self.indptr@
    }

    pub closed spec fn spec_indices(&self) -> Seq<usize> {
        self.indices@
    }

    pub closed spec fn spec_coefficients(&self) -> Seq<int> {
        self.coefficients.widened()
    }

    pub closed spec fn spec_position(&self) -> nat {
        self.position as nat
    }

    /// The entry at storage position `p`.
    pub open spec fn entry_at(&self, p: int) -> (usize, usize, i64) {
        (
            entry_row(self.spec_indptr(), self.spec_rows(), p) as usize,
            self.spec_indices()[p],
            self.spec_coefficients()[p] as i64,
        )
    }

    /// The next entry, or `None` when every entry was given.
    #[verifier::rlimit(40)]
    pub fn next(&mut self) -> (r: Option<(usize, usize, i64)>)
        ensures
            final(self).spec_rows() == old(self).spec_rows(),
            final(self).spec_indptr() == old(self).spec_indptr(),
            final(self).spec_indices() == old(self).spec_indices(),
            final(self).spec_coefficients() == old(self).spec_coefficients(),
            final(self).spec_position() <= final(self).spec_indices().len(),
            old(self).spec_position() < old(self).spec_indices().len() ==> r == Some(old(self).entry_at(
                old(self).spec_position() as int,
            )) && final(self).spec_position() == old(self).spec_position() + 1,
            old(self).spec_position() >= old(self).spec_indices().len() ==> r is None && final(self).spec_position()
                == old(self).spec_position(),
    {
        proof {
            use_type_invariant(&*self);
        }
        if self.position == self.indices.len() {
            return None;
        }
        let position = self.position;
        let mut row = self.row;
        let ghost target = row_of(self.indptr@, self.rows as int, position as int);
        proof {
            lemma_row_of(self.indptr@, self.rows as int, self.indices@.len() as int, position as int);
            if row > target {
                assert(self.indptr@[target + 1] <= self.indptr@[row as int]);
            }
        }
        while row < self.rows && position >= self.indptr[row + 1]
            invariant
                row <= target < self.rows,
                self.indptr@.len() == self.rows + 1,
                position < self.indptr@[target + 1],
            decreases self.rows - row,
        {
            row = row + 1;
        }
        proof {
            if row < target {
                assert(self.indptr@[row + 1] <= self.indptr@[target]);
            }
        }
        let coefficient: i64 = match self.coefficients {
            CoefficientSlice::I8(values) => values[position] as i64,
            CoefficientSlice::I64(values) => values[position],
        };
        let entry = (row, self.indices[position], coefficient);
        self.row = row;
        self.position = position + 1;
        Some(entry)
    }

    /// Number of entries not yet given.
    pub fn remaining(&self) -> (r: usize)
        ensures
            r == self.spec_indices().len() - self.spec_position(),
    {
        proof {
            use_type_invariant(self);
        }
        self.indices.len() - self.position
    }
}

} // verus!
