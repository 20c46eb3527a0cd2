use vstd::prelude::*;

verus! {

/// The items `q < k` whose row is `r`, in increasing order.
pub open spec fn bucket(rows: Seq<usize>, k: int, r: int) -> Seq<usize>
    decreases k,
{
    if k <= 0 {
        Seq::empty()
    } else if rows[k - 1] == r {
        bucket(rows, k - 1, r).push((k - 1) as usize)
    } else {
        bucket(rows, k - 1, r)
    }
}

/// Total size of the buckets of rows `0..upto` over the first `k` items.
pub open spec fn bucket_total(rows: Seq<usize>, k: int, upto: int) -> int
    decreases upto,
{
    if upto <= 0 {
        0
    } else {
        bucket_total(rows, k, upto - 1) + bucket(rows, k, upto - 1).len()
    }
}

pub proof fn lemma_bucket_step_total(rows: Seq<usize>, k: int, upto: int)
    requires
        0 <= k,
    ensures
        bucket_total(rows, k + 1, upto) == bucket_total(rows, k, upto) + if 0 <= rows[k] < upto {
            1int
        } else {
            0int
        },
    decreases upto,
{
    if upto > 0 {
        lemma_bucket_step_total(rows, k, upto - 1);
    }
}

pub proof fn lemma_bucket_total_all(rows: Seq<usize>, k: int, count: int)
    requires
        0 <= k <= rows.len(),
        forall|q: int| 0 <= q < rows.len() ==> #[trigger] rows[q] < count,
    ensures
        bucket_total(rows, k, count) == k,
    decreases k,
{
    if k == 0 {
        lemma_bucket_total_empty(rows, count);
    } else {
        lemma_bucket_total_all(rows, k - 1, count);
        lemma_bucket_step_total(rows, k - 1, count);
    }
}

proof fn lemma_bucket_total_empty(rows: Seq<usize>, upto: int)
    ensures
        bucket_total(rows, 0, upto) == 0,
    decreases upto,
{
    if upto > 0 {
        lemma_bucket_total_empty(rows, upto - 1);
    }
}

pub proof fn lemma_bucket_total_monotone(rows: Seq<usize>, k: int, a: int, b: int)
    requires
        0 <= a <= b,
    ensures
        bucket_total(rows, k, a) <= bucket_total(rows, k, b),
    decreases b - a,
{
    if a < b {
        lemma_bucket_total_monotone(rows, k, a, b - 1);
    }
}

/// Members of a bucket are items of that row, below `k`, in increasing order.
pub proof fn lemma_bucket_members(rows: Seq<usize>, k: int, r: int)
    requires
        0 <= k <= rows.len() <= usize::MAX,
    ensures
        forall|i: int|
            0 <= i < bucket(rows, k, r).len() ==> #[trigger] bucket(rows, k, r)[i] < k && rows[bucket(
                rows,
                k,
                r,
            )[i] as int] == r,
        forall|i: int, j: int|
            0 <= i < j < bucket(rows, k, r).len() ==> #[trigger] bucket(rows, k, r)[i] < #[trigger] bucket(
                rows,
                k,
                r,
            )[j],
        forall|q: int| 0 <= q < k && rows[q] == r ==> #[trigger] bucket(rows, k, r).contains(q as usize),
    decreases k,
{
    if k > 0 {
        lemma_bucket_members(rows, k - 1, r);
        let b = bucket(rows, k - 1, r);
        if rows[k - 1] == r {
            assert forall|q: int| 0 <= q < k && rows[q] == r implies #[trigger] bucket(rows, k, r).contains(
                q as usize,
            ) by {
                if q < k - 1 {
                    assert(b.contains(q as usize));
                    let i = choose|i: int| 0 <= i < b.len() && b[i] == q as usize;
                    assert(b.push((k - 1) as usize)[i] == q as usize);
                } else {
                    assert(b.push((k - 1) as usize)[b.len() as int] == q as usize);
                }
            }
        } else {
            assert forall|q: int| 0 <= q < k && rows[q] == r implies #[trigger] bucket(rows, k, r).contains(
                q as usize,
            ) by {
                assert(q < k - 1);
                assert(b.contains(q as usize));
            }
        }
    }
}

/// Counting-sort placement of items into rows: `order[indptr[r]..indptr[r + 1]]`
/// lists the items of row `r` in increasing order.
pub fn bucket_order(rows: &Vec<usize>, row_count: usize) -> (r: (Vec<usize>, Vec<usize>))
    requires
        forall|q: int| 0 <= q < rows@.len() ==> #[trigger] rows@[q] < row_count,
    ensures
        r.0@.len() == row_count + 1,
        r.0@[0] == 0,
        r.0@[row_count as int] == rows@.len(),
        r.1@.len() == rows@.len(),
        forall|a: int, b: int| 0 <= a <= b <= row_count ==> #[trigger] r.0@[a] <= #[trigger] r.0@[b],
        forall|x: int|
            0 <= x < row_count ==> r.1@.subrange(r.0@[x] as int, r.0@[x + 1] as int) == #[trigger] bucket(
                rows@,
                rows@.len() as int,
                x,
            ),
{
    let n = rows.len();
    let ghost rs = rows@;
    let mut counts: Vec<usize> = Vec::new();
    let mut x: usize = 0;
    while x < row_count
        invariant
            x <= row_count,
            counts@.len() == x,
            forall|y: int| 0 <= y < x ==> counts@[y] == 0,
        decreases row_count - x,
    {
        counts.push(0);
        x = x + 1;
    }
    let mut q: usize = 0;
    while q < n
        invariant
            q <= n,
            n == rows@.len(),
            rs == rows@,
            counts@.len() == row_count,
            forall|p: int| 0 <= p < n ==> #[trigger] rs[p] < row_count,
            forall|y: int| 0 <= y < row_count ==> #[trigger] counts@[y] == bucket(rs, q as int, y).len(),
            forall|y: int| 0 <= y < row_count ==> #[trigger] counts@[y] <= q,
        decreases n - q,
    {
        let row = rows[q];
        counts.set(row, counts[row] + 1);
        q = q + 1;
    }
    let mut indptr: Vec<usize> = Vec::new();
    indptr.push(0);
    let mut x: usize = 0;
    while x < row_count
        invariant
            x <= row_count,
            n == rows@.len(),
            rs == rows@,
            counts@.len() == row_count,
            forall|p: int| 0 <= p < n ==> #[trigger] rs[p] < row_count,
            forall|y: int| 0 <= y < row_count ==> #[trigger] counts@[y] == bucket(rs, n as int, y).len(),
            indptr@.len() == x + 1,
            forall|y: int| 0 <= y <= x ==> #[trigger] indptr@[y] == bucket_total(rs, n as int, y),
        decreases row_count - x,
    {
        proof {
            lemma_bucket_total_all(rs, n as int, row_count as int);
            lemma_bucket_total_monotone(rs, n as int, x + 1, row_count as int);
        }
        let next = indptr[x] + counts[x];
        indptr.push(next);
        x = x + 1;
    }
    let mut cursors: Vec<usize> = Vec::new();
    let mut x: usize = 0;
    while x < row_count
        invariant
            x <= row_count,
            indptr@.len() == row_count + 1,
            cursors@.len() == x,
            forall|y: int| 0 <= y < x ==> cursors@[y] == indptr@[y],
        decreases row_count - x,
    {
        cursors.push(indptr[x]);
        x = x + 1;
    }
    let mut order: Vec<usize> = Vec::new();
    let mut p: usize = 0;
    while p < n
        invariant
            p <= n,
            order@.len() == p,
            cursors@.len() == row_count,
            forall|y: int| 0 <= y < row_count ==> cursors@[y] == indptr@[y],
        decreases n - p,
    {
        order.push(0);
        p = p + 1;
    }
    proof {
        lemma_bucket_total_all(rs, n as int, row_count as int);
        assert forall|a: int, b: int| 0 <= a <= b <= row_count implies #[trigger] indptr@[a] <= #[trigger] indptr@[b] by {
            lemma_bucket_total_monotone(rs, n as int, a, b);
        }
        assert forall|y: int|
            0 <= y < row_count implies order@.subrange(indptr@[y] as int, #[trigger] cursors@[y] as int)
                == bucket(rs, 0, y) by {
            assert(indptr@[y] <= indptr@[row_count as int]);
            assert(order@.subrange(indptr@[y] as int, cursors@[y] as int) =~= Seq::<usize>::empty());
        }
    }
    let mut q: usize = 0;
    while q < n
        invariant
            q <= n,
            n == rows@.len(),
            rs == rows@,
            order@.len() == n,
            cursors@.len() == row_count,
            indptr@.len() == row_count + 1,
            indptr@[0] == 0,
            indptr@[row_count as int] == n,
            forall|p: int| 0 <= p < n ==> #[trigger] rs[p] < row_count,
            forall|y: int| 0 <= y <= row_count ==> #[trigger] indptr@[y] == bucket_total(rs, n as int, y),
            forall|a: int, b: int| 0 <= a <= b <= row_count ==> #[trigger] indptr@[a] <= #[trigger] indptr@[b],
            forall|y: int| 0 <= y < row_count ==> #[trigger] cursors@[y] == indptr@[y] + bucket(rs, q as int, y).len(),
            forall|y: int|
                0 <= y < row_count ==> order@.subrange(indptr@[y] as int, #[trigger] cursors@[y] as int)
                    == bucket(rs, q as int, y),
        decreases n - q,
    {
        let row = rows[q];
        proof {
            assert(indptr@[row + 1] == indptr@[row as int] + bucket(rs, n as int, row as int).len());
            lemma_bucket_prefix_len(rs, q as int, n as int, row as int);
        }
        let position = cursors[row];
        let ghost old_order = order@;
        order.set(position, q);
        cursors.set(row, position + 1);
        proof {
            assert forall|y: int|
                0 <= y < row_count implies order@.subrange(indptr@[y] as int, #[trigger] cursors@[y] as int)
                    == bucket(rs, q + 1, y) by {
                if y == row {
                    assert(order@.subrange(indptr@[y] as int, cursors@[y] as int) == old_order.subrange(
                        indptr@[y] as int,
                        position as int,
                    ).push(q));
                } else {
                    assert(bucket(rs, q + 1, y) == bucket(rs, q as int, y));
                    lemma_bucket_prefix_len(rs, q as int, n as int, y);
                    assert(indptr@[y + 1] == indptr@[y] + bucket(rs, n as int, y).len());
                    if y < row {
                        assert(indptr@[y + 1] <= indptr@[row as int]);
                    } else {
                        assert(indptr@[row + 1] <= indptr@[y]);
                    }
                    assert(order@.subrange(indptr@[y] as int, cursors@[y] as int) =~= old_order.subrange(
                        indptr@[y] as int,
                        cursors@[y] as int,
                    ));
                }
            }
        }
        q = q + 1;
    }
    proof {
        assert forall|y: int| 0 <= y < row_count implies order@.subrange(indptr@[y] as int, indptr@[y + 1] as int)
            == #[trigger] bucket(rs, n as int, y) by {
            assert(cursors@[y] == indptr@[y] + bucket(rs, n as int, y).len());
            assert(indptr@[y + 1] == indptr@[y] + bucket(rs, n as int, y).len());
        }
    }
    (indptr, order)
}

pub proof fn lemma_bucket_prefix_len(rows: Seq<usize>, k: int, n: int, r: int)
    requires
        0 <= k <= n,
    ensures
        bucket(rows, k, r).len() <= bucket(rows, n, r).len(),
        k < n && rows[k] == r ==> bucket(rows, k, r).len() < bucket(rows, n, r).len(),
    decreases n - k,
{
    if k < n {
        lemma_bucket_prefix_len(rows, k + 1, n, r);
    }
}

} // verus!
