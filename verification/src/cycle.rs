use vstd::prelude::*;

use crate::orbit::{OrbitIndex, lemma_segment_of};

verus! {

/// `h` after `k` steps of `succ`.
pub open spec fn iterate(succ: Seq<usize>, h: int, k: nat) -> int
    decreases k,
{
    if k == 0 {
        h
    } else {
        succ[iterate(succ, h, (k - 1) as nat)] as int
    }
}

/// Whether `b` lies on the `succ` cycle through `a`.
pub open spec fn same_orbit(succ: Seq<usize>, a: int, b: int) -> bool {
    exists|k: nat| #[trigger] iterate(succ, a, k) == b
}

pub proof fn lemma_iterate_add(succ: Seq<usize>, a: int, j: nat, k: nat)
    ensures
        iterate(succ, a, j + k) == iterate(succ, iterate(succ, a, j), k),
    decreases k,
{
    if k > 0 {
        lemma_iterate_add(succ, a, j, (k - 1) as nat);
        assert((j + k - 1) as nat == j + (k - 1) as nat);
    }
}


    /// Walking from position `p` of orbit `o` for `k` steps, without passing
    /// the end of the orbit, reaches position `p + k`.
    proof fn lemma_walk_within(index: &OrbitIndex, succ: Seq<usize>, o: int, p: int, k: nat)
        requires
            index.wf(succ),
            0 <= o < index.count_spec(),
            index.offsets@[o] <= p,
            p + k < index.offsets@[o + 1],
        ensures
            iterate(succ, index.halfedges@[p] as int, k) == index.halfedges@[p + k],
        decreases k,
    {
        index.lemma_wf_facts(succ);
        if k > 0 {
            lemma_walk_within(index, succ, o, p, (k - 1) as nat);
            assert(index.offsets@[o] <= p + k - 1 < index.offsets@[o + 1] - 1);
        }
    }

    /// The `succ` walk from a halfedge stays in its orbit.
    proof fn lemma_walk_stays(index: &OrbitIndex, succ: Seq<usize>, a: int, k: nat)
        requires
            index.wf(succ),
            forall|h: int| 0 <= h < succ.len() ==> #[trigger] succ[h] < succ.len(),
            0 <= a < succ.len(),
        ensures
            0 <= iterate(succ, a, k) < succ.len(),
            index.of_halfedge@[iterate(succ, a, k)] == index.of_halfedge@[a],
        decreases k,
    {
        index.lemma_wf_facts(succ);
        if k > 0 {
            lemma_walk_stays(index, succ, a, (k - 1) as nat);
        }
    }

    /// The position of a halfedge lies in the segment of its orbit.
    proof fn lemma_position(index: &OrbitIndex, succ: Seq<usize>, a: int) -> (p: int)
        requires
            index.wf(succ),
            0 <= a < succ.len(),
        ensures
            index.offsets@[index.of_halfedge@[a] as int] <= p < index.offsets@[index.of_halfedge@[a] + 1],
            index.halfedges@[p] == a,
    {
        reveal(OrbitIndex::wf_parts);
        let p = index.position@[a];
        let o = lemma_segment_of(index.offsets@, index.count_spec(), succ.len() as int, p);
        assert(index.offsets@[o] <= p < index.offsets@[o + 1]);
        p
    }

    /// Two halfedges share an orbit exactly when one reaches the other.
    pub(crate) proof fn lemma_same_orbit(index: &OrbitIndex, succ: Seq<usize>, a: int, b: int)
        requires
            index.wf(succ),
            forall|h: int| 0 <= h < succ.len() ==> #[trigger] succ[h] < succ.len(),
            0 <= a < succ.len(),
            0 <= b < succ.len(),
        ensures
            same_orbit(succ, a, b) <==> index.of_halfedge@[a] == index.of_halfedge@[b],
    {
        index.lemma_wf_facts(succ);
        if same_orbit(succ, a, b) {
            let k = choose|k: nat| #[trigger] iterate(succ, a, k) == b;
            lemma_walk_stays(index, succ, a, k);
        }
        if index.of_halfedge@[a] == index.of_halfedge@[b] {
            let o = index.of_halfedge@[a] as int;
            let pa = lemma_position(index, succ, a);
            let pb = lemma_position(index, succ, b);
            let start = index.offsets@[o] as int;
            let last = index.offsets@[o + 1] - 1;
            if pa <= pb {
                lemma_walk_within(index, succ, o, pa, (pb - pa) as nat);
                assert(iterate(succ, a, (pb - pa) as nat) == b);
            } else {
                let j = (last - pa) as nat;
                lemma_walk_within(index, succ, o, pa, j);
                let tail = index.halfedges@[last] as int;
                assert(iterate(succ, a, j) == tail);
                assert(succ[tail] == index.halfedges@[start]);
                assert(iterate(succ, a, j + 1) == index.halfedges@[start]) by {
                    lemma_iterate_add(succ, a, j, 1);
                    assert(iterate(succ, tail, 1) == succ[iterate(succ, tail, 0)] as int);
                }
                lemma_walk_within(index, succ, o, start, (pb - start) as nat);
                lemma_iterate_add(succ, a, j + 1, (pb - start) as nat);
                assert(iterate(succ, a, (j + 1 + pb - start) as nat) == b);
            }
        }
    }


/// Distinct positions of the packed members hold distinct halfedges.
#[verifier::spinoff_prover]
pub(crate) proof fn lemma_packed_distinct(index: &OrbitIndex, succ: Seq<usize>, a: int, b: int)
    requires
        index.wf(succ),
        0 <= a < b < succ.len(),
    ensures
        index.halfedges@[a] != index.halfedges@[b],
{
    reveal(OrbitIndex::wf_parts);
    assert(index.position@[index.halfedges@[a] as int] == a);
    assert(index.position@[index.halfedges@[b] as int] == b);
}

/// Whether `h` is the least halfedge on its `succ` cycle.
pub open spec fn least_on_cycle(succ: Seq<usize>, h: int) -> bool {
    forall|k: int| 0 <= k < h ==> !#[trigger] same_orbit(succ, k, h)
}

/// Number of halfedges among `0..n` that are least on their `succ` cycle.
pub open spec fn least_count(succ: Seq<usize>, n: int) -> nat
    decreases n,
{
    if n <= 0 {
        0
    } else {
        least_count(succ, n - 1) + if least_on_cycle(succ, n - 1) {
            1nat
        } else {
            0nat
        }
    }
}

/// Number of cycles of the permutation `succ`: one least halfedge each.
pub open spec fn cycle_count(succ: Seq<usize>) -> nat {
    least_count(succ, succ.len() as int)
}

/// An increasing list of exactly the least halfedges below `n` has
/// `least_count` entries.
proof fn lemma_increasing_count(succ: Seq<usize>, s: Seq<usize>, n: int)
    requires
        0 <= n <= usize::MAX,
        forall|i: int, j: int| 0 <= i < j < s.len() ==> #[trigger] s[i] < #[trigger] s[j],
        forall|i: int| 0 <= i < s.len() ==> #[trigger] s[i] < n,
        forall|h: int| 0 <= h < n ==> (#[trigger] least_on_cycle(succ, h) <==> s.contains(h as usize)),
    ensures
        s.len() == least_count(succ, n),
    decreases n,
{
    if n == 0 {
        if s.len() > 0 {
            assert(s[0] < 0);
        }
    } else if least_on_cycle(succ, n - 1) {
        assert(s.contains((n - 1) as usize));
        let j = choose|j: int| 0 <= j < s.len() && s[j] == (n - 1) as usize;
        let last = s.len() - 1;
        if j < last {
            assert(s[j] < s[last]);
        }
        assert(s[last] == (n - 1) as usize);
        let t = s.drop_last();
        assert forall|i: int| 0 <= i < t.len() implies #[trigger] t[i] < n - 1 by {
            assert(s[i] < s[last]);
        }
        assert forall|h: int| 0 <= h < n - 1 implies (#[trigger] least_on_cycle(succ, h) <==> t.contains(h as usize)) by {
            if s.contains(h as usize) {
                let k = choose|k: int| 0 <= k < s.len() && s[k] == h as usize;
                assert(k != last);
                assert(t[k] == h as usize);
            }
            if t.contains(h as usize) {
                let k = choose|k: int| 0 <= k < t.len() && t[k] == h as usize;
                assert(s[k] == h as usize);
            }
        }
        lemma_increasing_count(succ, t, n - 1);
    } else {
        assert forall|i: int| 0 <= i < s.len() implies #[trigger] s[i] < n - 1 by {
            if s[i] == n - 1 {
                assert(s.contains((n - 1) as usize));
            }
        }
        lemma_increasing_count(succ, s, n - 1);
    }
}

/// An orbit index whose representatives increase and are each the least
/// halfedge of their orbit has one representative per cycle.
pub(crate) proof fn lemma_representatives_count(index: &OrbitIndex, succ: Seq<usize>)
    requires
        index.wf(succ),
        succ.len() <= usize::MAX,
        forall|h: int| 0 <= h < succ.len() ==> #[trigger] succ[h] < succ.len(),
        forall|o: int, q: int| 0 <= o < q < index.representatives@.len() ==> #[trigger] index.representatives@[o]
            < #[trigger] index.representatives@[q],
        forall|h: int| 0 <= h < succ.len() ==> index.representatives@[#[trigger] index.of_halfedge@[h] as int] <= h,
    ensures
        index.representatives@.len() == cycle_count(succ),
{
    index.lemma_wf_facts(succ);
    let n = succ.len() as int;
    let reps = index.representatives@;
    assert forall|o: int| 0 <= o < reps.len() implies #[trigger] index.of_halfedge@[reps[o] as int] == o by {
        let p = index.offsets@[o] as int;
        assert(index.offsets@[o] <= p < index.offsets@[o + 1]);
        assert(index.halfedges@[p] < succ.len() && index.of_halfedge@[index.halfedges@[p] as int] == o);
    }
    assert forall|h: int| 0 <= h < n implies (#[trigger] least_on_cycle(succ, h) <==> reps.contains(h as usize)) by {
        let o = index.of_halfedge@[h] as int;
        let r = reps[o] as int;
        if least_on_cycle(succ, h) {
            if r < h {
                lemma_same_orbit(index, succ, r, h);
                assert(same_orbit(succ, r, h));
            }
            assert(reps[o] == h as usize);
        }
        if reps.contains(h as usize) {
            let q = choose|q: int| 0 <= q < reps.len() && reps[q] == h as usize;
            assert(index.of_halfedge@[h] == q);
            assert forall|k: int| 0 <= k < h implies !#[trigger] same_orbit(succ, k, h) by {
                lemma_same_orbit(index, succ, k, h);
                if same_orbit(succ, k, h) {
                    assert(reps[index.of_halfedge@[k] as int] <= k);
                }
            }
        }
    }
    lemma_increasing_count(succ, reps, n);
}

} // verus!
