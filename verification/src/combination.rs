use vstd::prelude::*;

use crate::error::TopologyError;
use crate::sort::key_views;

verus! {

/// Number of positions `i' < i` whose entry exceeds the entry at `j`.
pub open spec fn greater_before(row: Seq<usize>, j: int, i: int) -> nat
    decreases i,
{
    if i <= 0 {
        0
    } else {
        greater_before(row, j, i - 1) + if row[i - 1] > row[j] {
            1nat
        } else {
            0nat
        }
    }
}

/// Number of inverted pairs `i < j < n`.
pub open spec fn inversions(row: Seq<usize>, n: int) -> nat
    decreases n,
{
    if n <= 0 {
        0
    } else {
        inversions(row, n - 1) + greater_before(row, n - 1, n - 1)
    }
}

/// Whether some entry occurs twice.
pub open spec fn has_repeat(row: Seq<usize>) -> bool {
    exists|i: int, j: int| 0 <= i < j < row.len() && row[i] == row[j]
}

/// Whether the entry at `l` occurs again later in the row.
pub open spec fn repeats_later(row: Seq<usize>, l: int) -> bool {
    exists|r: int| l < r < row.len() && row[r] == row[l]
}

/// The first entry, by position, that occurs again later in the row.
pub open spec fn first_repeated(row: Seq<usize>) -> usize {
    row[choose|l: int|
        0 <= l < row.len() && repeats_later(row, l) && forall|k: int| 0 <= k < l ==> !#[trigger] repeats_later(row, k)]
}

/// Sign of the permutation that sorts a row of distinct entries.
pub open spec fn permutation_sign(row: Seq<usize>) -> i8 {
    if inversions(row, row.len() as int) % 2 == 0 {
        1i8
    } else {
        -1i8
    }
}

/// Sign of the sorting permutation of a row, refusing repeated entries.
pub fn validated_permutation_sign(row: &[usize]) -> (r: Result<i8, TopologyError>)
    ensures
        has_repeat(row@) <==> r is Err,
        r is Err ==> r == Err::<i8, TopologyError>(TopologyError::RepeatedVertex(first_repeated(row@))),
        r matches Ok(s) ==> s == permutation_sign(row@),
{
    let mut left: usize = 0;
    while left < row.len()
        invariant
            left <= row@.len(),
            forall|k: int| 0 <= k < left ==> !#[trigger] repeats_later(row@, k),
        decreases row@.len() - left,
    {
        let mut right: usize = left + 1;
        while right < row.len()
            invariant
                left < right <= row@.len(),
                forall|k: int| 0 <= k < left ==> !#[trigger] repeats_later(row@, k),
                forall|q: int| left < q < right ==> row@[q] != row@[left as int],
            decreases row@.len() - right,
        {
            if row[left] == row[right] {
                proof {
                    assert(repeats_later(row@, left as int));
                    let l = choose|l: int|
                        0 <= l < row@.len() && repeats_later(row@, l) && forall|k: int|
                            0 <= k < l ==> !#[trigger] repeats_later(row@, k);
                    if l < left {
                        assert(!repeats_later(row@, l));
                    } else if l > left {
                        assert(!repeats_later(row@, left as int));
                    }
                    assert(has_repeat(row@)) by {
                        assert(row@[left as int] == row@[right as int]);
                    }
                }
                return Err(TopologyError::RepeatedVertex(row[left]));
            }
            right = right + 1;
        }
        left = left + 1;
    }
    proof {
        assert forall|a: int, b: int| 0 <= a < b < row@.len() implies row@[a] != row@[b] by {
            if row@[a] == row@[b] {
                assert(repeats_later(row@, a));
            }
        }
    }
    let mut odd = false;
    let mut j: usize = 0;
    while j < row.len()
        invariant
            j <= row@.len(),
            odd == (inversions(row@, j as int) % 2 == 1),
            forall|a: int, b: int| 0 <= a < b < row@.len() ==> row@[a] != row@[b],
        decreases row@.len() - j,
    {
        let mut i: usize = 0;
        while i < j
            invariant
                i <= j < row@.len(),
                odd == ((inversions(row@, j as int) + greater_before(row@, j as int, i as int)) % 2 == 1),
                forall|a: int, b: int| 0 <= a < b < row@.len() ==> row@[a] != row@[b],
            decreases j - i,
        {
            if row[i] > row[j] {
                odd = !odd;
            }
            i = i + 1;
        }
        j = j + 1;
    }
    if odd {
        Ok(-1)
    } else {
        Ok(1)
    }
}

/// Each sequence of `cs` with `c` in front.
pub open spec fn prefixed(c: Seq<usize>, cs: Seq<Seq<usize>>) -> Seq<Seq<usize>> {
    cs.map_values(|x: Seq<usize>| c + x)
}

/// The `k`-element subsequences of `row[start..]`, in lexicographic order of
/// their positions.
pub open spec fn combos(row: Seq<usize>, start: int, k: nat) -> Seq<Seq<usize>>
    decreases k, row.len() - start,
{
    if k == 0 {
        seq![Seq::empty()]
    } else if start < 0 || start + k > row.len() {
        Seq::empty()
    } else {
        prefixed(seq![row[start]], combos(row, start + 1, (k - 1) as nat)) + combos(
            row,
            start + 1,
            k,
        )
    }
}

/// The `k`-element subsequences of the first `n` rows, row by row.
pub open spec fn faces_of_rows(rows: Seq<Seq<usize>>, n: int, k: nat) -> Seq<Seq<usize>>
    decreases n,
{
    if n <= 0 {
        Seq::empty()
    } else {
        faces_of_rows(rows, n - 1, k) + combos(rows[n - 1], 0, k)
    }
}

pub proof fn lemma_prefixed_push(c: Seq<usize>, r: usize, cs: Seq<Seq<usize>>)
    ensures
        prefixed(c, prefixed(seq![r], cs)) == prefixed(c.push(r), cs),
{
    assert forall|i: int| 0 <= i < cs.len() implies #[trigger] prefixed(c, prefixed(seq![r], cs))[i]
        == prefixed(c.push(r), cs)[i] by {
        assert(c + (seq![r] + cs[i]) =~= c.push(r) + cs[i]);
    }
    assert(prefixed(c, prefixed(seq![r], cs)) =~= prefixed(c.push(r), cs));
}

pub proof fn lemma_prefixed_concat(c: Seq<usize>, a: Seq<Seq<usize>>, b: Seq<Seq<usize>>)
    ensures
        prefixed(c, a + b) == prefixed(c, a) + prefixed(c, b),
{
    assert(prefixed(c, a + b) =~= prefixed(c, a) + prefixed(c, b));
}

pub proof fn lemma_combo_lengths(row: Seq<usize>, start: int, k: nat)
    ensures
        forall|i: int| 0 <= i < combos(row, start, k).len() ==> (#[trigger] combos(row, start, k)[i]).len()
            == k,
    decreases k, row.len() - start,
{
    if k == 0 {
    } else if start < 0 || start + k > row.len() {
    } else {
        lemma_combo_lengths(row, start + 1, (k - 1) as nat);
        lemma_combo_lengths(row, start + 1, k);
        let a = combos(row, start + 1, (k - 1) as nat);
        let b = combos(row, start + 1, k);
        assert forall|i: int| 0 <= i < combos(row, start, k).len() implies (#[trigger] combos(
            row,
            start,
            k,
        )[i]).len() == k by {
            if i < a.len() {
                assert(combos(row, start, k)[i] == seq![row[start]] + a[i]);
            } else {
                assert(combos(row, start, k)[i] == b[i - a.len()]);
            }
        }
    }
}

pub proof fn lemma_face_lengths(rows: Seq<Seq<usize>>, n: int, k: nat)
    ensures
        forall|i: int| 0 <= i < faces_of_rows(rows, n, k).len() ==> (#[trigger] faces_of_rows(rows, n, k)[i]).len()
            == k,
    decreases n,
{
    if n > 0 {
        lemma_face_lengths(rows, n - 1, k);
        lemma_combo_lengths(rows[n - 1], 0, k);
        let a = faces_of_rows(rows, n - 1, k);
        assert forall|i: int| 0 <= i < faces_of_rows(rows, n, k).len() implies (#[trigger] faces_of_rows(
            rows,
            n,
            k,
        )[i]).len() == k by {
            if i >= a.len() {
                assert(faces_of_rows(rows, n, k)[i] == combos(rows[n - 1], 0, k)[i - a.len()]);
            }
        }
    }
}

/// Append to `output` every way of completing `current` to `selected` entries
/// by choosing entries of `row[start..]` in position order.
pub fn collect_combinations(
    row: &[usize],
    selected: usize,
    start: usize,
    current: &mut Vec<usize>,
    output: &mut Vec<Vec<usize>>,
) -> (r: Result<(), TopologyError>)
    requires
        old(current)@.len() <= selected,
        start <= row@.len(),
    ensures
        final(current)@ == old(current)@,
        r is Err <==> (old(current)@.len() < selected && row@.len() < selected - old(current)@.len()),
        r is Err ==> r == Err::<(), TopologyError>(TopologyError::InternalInvariant) && final(output)@
            == old(output)@,
        r is Ok ==> key_views(final(output)@) == key_views(old(output)@) + prefixed(
            old(current)@,
            combos(row@, start as int, (selected - old(current)@.len()) as nat),
        ),
    decreases selected - old(current)@.len(),
{
    let ghost cur0 = current@;
    let ghost out0 = output@;
    if current.len() == selected {
        let copy = current.clone();
        proof {
            assert(copy@ =~= cur0);
        }
        output.push(copy);
        proof {
            assert(cur0 + Seq::<usize>::empty() =~= cur0);
            assert(prefixed(cur0, seq![Seq::<usize>::empty()]) =~= seq![cur0]);
            assert(key_views(output@) =~= key_views(out0) + seq![cur0]);
        }
        return Ok(());
    }
    let remaining = selected - current.len();
    if row.len() < remaining {
        return Err(TopologyError::InternalInvariant);
    }
    let final_start = row.len() - remaining;
    let ghost rem = remaining as nat;
    let mut index = start;
    proof {
        assert(key_views(output@) + prefixed(cur0, combos(row@, index as int, rem)) =~= key_views(out0)
            + prefixed(cur0, combos(row@, start as int, rem)));
    }
    while index <= final_start
        invariant
            current@ == cur0,
            old(current)@ == cur0,
            cur0.len() + rem == selected,
            rem >= 1,
            final_start + rem == row@.len(),
            start <= index <= row@.len(),
            index <= final_start + 1 || index == start,
            key_views(output@) + prefixed(cur0, combos(row@, index as int, rem)) == key_views(out0)
                + prefixed(cur0, combos(row@, start as int, rem)),
        decreases row@.len() - index,
    {
        let ghost before = output@;
        current.push(row[index]);
        let result = collect_combinations(row, selected, index + 1, current, output);
        match result {
            Ok(()) => {},
            Err(e) => {
                return Err(e);
            },
        }
        let _ = current.pop();
        proof {
            let r = row@[index as int];
            let tail = combos(row@, index + 1, (rem - 1) as nat);
            let rest = combos(row@, index + 1, rem);
            assert(combos(row@, index as int, rem) == prefixed(seq![r], tail) + rest);
            lemma_prefixed_concat(cur0, prefixed(seq![r], tail), rest);
            lemma_prefixed_push(cur0, r, tail);
            assert(current@ =~= cur0);
            assert(key_views(output@) == key_views(before) + prefixed(cur0.push(r), tail));
            assert(key_views(output@) + prefixed(cur0, rest) =~= key_views(before) + prefixed(
                cur0,
                combos(row@, index as int, rem),
            ));
        }
        index = index + 1;
    }
    proof {
        assert(combos(row@, index as int, rem) == Seq::<Seq<usize>>::empty());
        assert(prefixed(cur0, Seq::<Seq<usize>>::empty()) =~= Seq::<Seq<usize>>::empty());
        assert(key_views(output@) + Seq::<Seq<usize>>::empty() =~= key_views(output@));
    }
    Ok(())
}

} // verus!

verus! {

/// There are `C(len - start, k)` subsequences of `k` entries of `row[start..]`.
pub proof fn lemma_combos_len(row: Seq<usize>, start: int, k: nat)
    requires
        0 <= start <= row.len(),
    ensures
        combos(row, start, k).len() == crate::binomial::binomial((row.len() - start) as nat, k),
    decreases k, row.len() - start,
{
    let m = (row.len() - start) as nat;
    if k == 0 {
    } else if start + k > row.len() {
        crate::binomial::lemma_binomial_above(m, k);
    } else {
        lemma_combos_len(row, start + 1, (k - 1) as nat);
        lemma_combos_len(row, start + 1, k);
        assert(crate::binomial::binomial(m, k) == crate::binomial::binomial((m - 1) as nat, (k - 1) as nat)
            + crate::binomial::binomial((m - 1) as nat, k));
    }
}

/// The subsequences of `row[start + 1..]` are among those of `row[start..]`.
pub proof fn lemma_combos_shift(row: Seq<usize>, start: int, k: nat, s: Seq<usize>)
    requires
        0 <= start,
        combos(row, start + 1, k).contains(s),
    ensures
        combos(row, start, k).contains(s),
{
    if k == 0 {
    } else if start + k > row.len() {
    } else {
        let a = prefixed(seq![row[start]], combos(row, start + 1, (k - 1) as nat));
        let b = combos(row, start + 1, k);
        let j = choose|j: int| 0 <= j < b.len() && b[j] == s;
        assert((a + b)[a.len() + j] == s);
    }
}

/// Every entry of a subsequence is an entry of the row.
pub proof fn lemma_combo_entries(row: Seq<usize>, start: int, k: nat, s: Seq<usize>, j: int)
    requires
        combos(row, start, k).contains(s),
        0 <= j < s.len(),
    ensures
        row.contains(s[j]),
    decreases k, row.len() - start,
{
    if k == 0 {
        assert(s.len() == 0);
    } else if start < 0 || start + k > row.len() {
    } else {
        let tail = combos(row, start + 1, (k - 1) as nat);
        let a = prefixed(seq![row[start]], tail);
        let b = combos(row, start + 1, k);
        let i = choose|i: int| 0 <= i < (a + b).len() && (a + b)[i] == s;
        if i < a.len() {
            assert(s == seq![row[start]] + tail[i]);
            if j == 0 {
                assert(row[start] == s[j]);
            } else {
                assert(tail.contains(tail[i]));
                lemma_combo_entries(row, start + 1, (k - 1) as nat, tail[i], j - 1);
            }
        } else {
            assert(b[i - a.len()] == s);
            assert(b.contains(s));
            lemma_combo_entries(row, start + 1, k, s, j);
        }
    }
}

/// Removing one entry of a `k`-subsequence leaves a `k - 1`-subsequence.
pub proof fn lemma_combo_remove(row: Seq<usize>, start: int, k: nat, s: Seq<usize>, r: int)
    requires
        0 <= start,
        combos(row, start, k).contains(s),
        0 <= r < k,
    ensures
        combos(row, start, (k - 1) as nat).contains(s.remove(r)),
    decreases k, row.len() - start,
{
    lemma_combo_lengths(row, start, k);
    if start + k > row.len() {
    } else {
        let tail = combos(row, start + 1, (k - 1) as nat);
        let a = prefixed(seq![row[start]], tail);
        let b = combos(row, start + 1, k);
        let i = choose|i: int| 0 <= i < (a + b).len() && (a + b)[i] == s;
        if i < a.len() {
            let t = tail[i];
            assert(s == seq![row[start]] + t);
            assert(tail.contains(t));
            if r == 0 {
                assert(s.remove(0) =~= t);
                lemma_combos_shift(row, start, (k - 1) as nat, t);
            } else {
                lemma_combo_lengths(row, start + 1, (k - 1) as nat);
                lemma_combo_remove(row, start + 1, (k - 1) as nat, t, r - 1);
                let tail2 = combos(row, start + 1, (k - 2) as nat);
                assert(tail2.contains(t.remove(r - 1)));
                let q = choose|q: int| 0 <= q < tail2.len() && tail2[q] == t.remove(r - 1);
                assert(s.remove(r) =~= seq![row[start]] + t.remove(r - 1));
                let a2 = prefixed(seq![row[start]], tail2);
                let b2 = combos(row, start + 1, (k - 1) as nat);
                assert(combos(row, start, (k - 1) as nat) == a2 + b2);
                assert((a2 + b2)[q] == s.remove(r));
            }
        } else {
            assert(b[i - a.len()] == s);
            assert(b.contains(s));
            lemma_combo_remove(row, start + 1, k, s, r);
            lemma_combos_shift(row, start, (k - 1) as nat, s.remove(r));
        }
    }
}

/// The only subsequence of `row[start..]` with all its entries is itself.
pub proof fn lemma_combos_full(row: Seq<usize>, start: int)
    requires
        0 <= start <= row.len(),
    ensures
        combos(row, start, (row.len() - start) as nat) == seq![row.subrange(start, row.len() as int)],
    decreases row.len() - start,
{
    let k = (row.len() - start) as nat;
    if k == 0 {
        assert(row.subrange(start, row.len() as int) =~= Seq::<usize>::empty());
    } else {
        lemma_combos_full(row, start + 1);
        let tail = combos(row, start + 1, (k - 1) as nat);
        assert(combos(row, start + 1, k) == Seq::<Seq<usize>>::empty());
        assert(seq![row[start]] + row.subrange(start + 1, row.len() as int) =~= row.subrange(start, row.len() as int));
        assert(prefixed(seq![row[start]], tail) =~= seq![row.subrange(start, row.len() as int)]);
        assert(combos(row, start, k) =~= seq![row.subrange(start, row.len() as int)]);
    }
}

/// The `w`-element faces of rows of width `w` are the rows themselves.
pub proof fn lemma_faces_full(rows: Seq<Seq<usize>>, n: int, w: nat)
    requires
        0 <= n <= rows.len(),
        forall|i: int| 0 <= i < rows.len() ==> (#[trigger] rows[i]).len() == w,
    ensures
        faces_of_rows(rows, n, w) == rows.take(n),
    decreases n,
{
    if n > 0 {
        lemma_faces_full(rows, n - 1, w);
        lemma_combos_full(rows[n - 1], 0);
        assert(rows[n - 1].subrange(0, w as int) =~= rows[n - 1]);
        assert(rows.take(n - 1).push(rows[n - 1]) =~= rows.take(n));
    } else {
        assert(rows.take(0) =~= Seq::<Seq<usize>>::empty());
    }
}

/// There are `n * C(w, k)` faces, with repeats, of `n` rows of width `w`.
pub proof fn lemma_faces_len(rows: Seq<Seq<usize>>, n: int, w: nat, k: nat)
    requires
        0 <= n <= rows.len(),
        forall|i: int| 0 <= i < rows.len() ==> (#[trigger] rows[i]).len() == w,
    ensures
        faces_of_rows(rows, n, k).len() == n * crate::binomial::binomial(w, k),
    decreases n,
{
    if n > 0 {
        lemma_faces_len(rows, n - 1, w, k);
        lemma_combos_len(rows[n - 1], 0, k);
        assert(n * crate::binomial::binomial(w, k) == (n - 1) * crate::binomial::binomial(w, k)
            + crate::binomial::binomial(w, k)) by (nonlinear_arith);
    } else {
        assert(n * crate::binomial::binomial(w, k) == 0) by (nonlinear_arith)
            requires
                n == 0,
        ;
    }
}

/// A face of the first `n` rows is a subsequence of one of them.
pub proof fn lemma_face_origin(rows: Seq<Seq<usize>>, n: int, k: nat, s: Seq<usize>)
    requires
        0 <= n <= rows.len(),
        faces_of_rows(rows, n, k).contains(s),
    ensures
        exists|i: int| 0 <= i < n && #[trigger] combos(rows[i], 0, k).contains(s),
    decreases n,
{
    if n > 0 {
        let a = faces_of_rows(rows, n - 1, k);
        let b = combos(rows[n - 1], 0, k);
        let j = choose|j: int| 0 <= j < (a + b).len() && (a + b)[j] == s;
        if j < a.len() {
            assert(a[j] == s);
            assert(a.contains(s));
            lemma_face_origin(rows, n - 1, k, s);
        } else {
            assert(b[j - a.len()] == s);
            assert(b.contains(s));
        }
    }
}

/// A subsequence of one of the first `n` rows is a face of them.
pub proof fn lemma_face_of_row(rows: Seq<Seq<usize>>, n: int, k: nat, s: Seq<usize>, i: int)
    requires
        0 <= i < n <= rows.len(),
        combos(rows[i], 0, k).contains(s),
    ensures
        faces_of_rows(rows, n, k).contains(s),
    decreases n,
{
    let a = faces_of_rows(rows, n - 1, k);
    let b = combos(rows[n - 1], 0, k);
    if i < n - 1 {
        lemma_face_of_row(rows, n - 1, k, s, i);
        let j = choose|j: int| 0 <= j < a.len() && a[j] == s;
        assert((a + b)[j] == s);
    } else {
        let j = choose|j: int| 0 <= j < b.len() && b[j] == s;
        assert((a + b)[a.len() + j] == s);
    }
}

} // verus!
