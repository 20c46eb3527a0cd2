use vstd::prelude::*;

use crate::error::{HalfedgeRole, TopologyError};
use crate::halfedge::{UNASSIGNED, is_permutation, is_twin_involution};

verus! {

/// Opaque form of [`is_permutation`], revealed only where injectivity is used.
#[verifier::opaque]
pub open spec fn permutes(s: Seq<usize>) -> bool {
    is_permutation(s)
}

pub proof fn lemma_permutes(s: Seq<usize>)
    requires
        is_permutation(s),
    ensures
        permutes(s),
{
    reveal(permutes);
}

pub proof fn lemma_permutes_bounded(s: Seq<usize>)
    requires
        permutes(s),
    ensures
        forall|h: int| 0 <= h < s.len() ==> #[trigger] s[h] < s.len(),
{
    reveal(permutes);
}

/// Distinct values below `n` number at most `n`.
pub proof fn lemma_distinct_bounded_len(s: Seq<int>, n: int)
    requires
        forall|i: int| 0 <= i < s.len() ==> 0 <= #[trigger] s[i] < n,
        forall|i: int, j: int| 0 <= i < j < s.len() ==> s[i] != s[j],
    ensures
        s.len() <= if n < 0 { 0 } else { n },
    decreases s.len(),
{
    if s.len() > 0 {
        if n <= 0 {
            assert(0 <= s[0] < n);
        } else if s.contains(n - 1) {
            let k = choose|k: int| 0 <= k < s.len() && s[k] == n - 1;
            let r = s.remove(k);
            assert forall|i: int| 0 <= i < r.len() implies 0 <= #[trigger] r[i] < n - 1 by {
                if i < k {
                    assert(r[i] == s[i]);
                } else {
                    assert(r[i] == s[i + 1]);
                }
            }
            assert forall|i: int, j: int| 0 <= i < j < r.len() implies r[i] != r[j] by {
                let si = if i < k { i } else { i + 1 };
                let sj = if j < k { j } else { j + 1 };
                assert(r[i] == s[si]);
                assert(r[j] == s[sj]);
            }
            lemma_distinct_bounded_len(r, n - 1);
        } else {
            assert forall|i: int| 0 <= i < s.len() implies 0 <= #[trigger] s[i] < n - 1 by {
                if s[i] == n - 1 {
                    assert(s.contains(n - 1));
                }
            }
            lemma_distinct_bounded_len(s.drop_last(), n - 1);
            assert(s.drop_last().len() <= n - 1);
        }
    }
}

/// Distinct indices below `n` number at most `n`.
pub proof fn lemma_distinct_bounded_len_usize(s: Seq<usize>, n: int)
    requires
        forall|i: int| 0 <= i < s.len() ==> #[trigger] s[i] < n,
        forall|i: int, j: int| 0 <= i < j < s.len() ==> s[i] != s[j],
    ensures
        s.len() <= if n < 0 { 0 } else { n },
{
    let t = s.map_values(|v: usize| v as int);
    assert forall|i: int, j: int| 0 <= i < j < t.len() implies t[i] != t[j] by {
        assert(s[i] != s[j]);
    }
    assert forall|i: int| 0 <= i < t.len() implies 0 <= #[trigger] t[i] < n by {
        assert(s[i] < n);
    }
    lemma_distinct_bounded_len(t, n);
}

/// Packed `next`-style orbits of one permutation of halfedges.
///
/// Orbit `o` holds `halfedges[offsets[o]..offsets[o + 1]]` in walk order: each
/// member's successor is the following member, and the last member's
/// successor is the representative that starts the orbit.
pub(crate) struct OrbitIndex {
    pub(crate) of_halfedge: Vec<usize>,
    pub(crate) representatives: Vec<usize>,
    pub(crate) offsets: Vec<usize>,
    pub(crate) halfedges: Vec<usize>,
    pub(crate) position: Ghost<Seq<int>>,
}

/// Whether `offsets` is a monotone partition of `0..n` into `count` nonempty segments.
pub open spec fn segments_wf(offsets: Seq<usize>, count: int, n: int) -> bool {
    &&& offsets.len() == count + 1
    &&& offsets[0] == 0
    &&& offsets[count] == n
    &&& forall|o: int| 0 <= o < count ==> #[trigger] offsets[o] < offsets[o + 1]
    &&& forall|a: int, b: int| 0 <= a <= b <= count ==> offsets[a] <= offsets[b]
}

/// The segment that holds position `p` of a partition.
pub proof fn lemma_segment_of(offsets: Seq<usize>, count: int, n: int, p: int) -> (o: int)
    requires
        count >= 0,
        segments_wf(offsets, count, n),
        0 <= p < n,
    ensures
        0 <= o < count,
        offsets[o] <= p < offsets[o + 1],
    decreases count,
{
    if count <= 0 {
        assert(offsets[0] == 0);
    }
    if p >= offsets[count - 1] {
        count - 1
    } else {
        let shorter = offsets.take(count);
        assert(shorter.len() == count);
        assert(shorter[0] == offsets[0]);
        assert(shorter[count - 1] == offsets[count - 1]);
        assert(segments_wf(shorter, count - 1, offsets[count - 1] as int)) by {
            assert forall|a: int, b: int| 0 <= a <= b <= count - 1 implies shorter[a] <= shorter[b] by {
                assert(offsets[a] <= offsets[b]);
            }
            assert forall|o: int| 0 <= o < count - 1 implies #[trigger] shorter[o] < shorter[o + 1] by {
                assert(offsets[o] < offsets[o + 1]);
            }
        }
        lemma_segment_of(shorter, count - 1, offsets[count - 1] as int, p)
    }
}

proof fn lemma_offsets_grow(offsets: Seq<usize>, count: int, n: int, o: int)
    requires
        segments_wf(offsets, count, n),
        0 <= o <= count,
    ensures
        offsets[o] >= o,
    decreases o,
{
    if o > 0 {
        lemma_offsets_grow(offsets, count, n, o - 1);
        assert(offsets[o - 1] < offsets[o]);
    }
}

impl OrbitIndex {
    pub(crate) open spec fn count_spec(&self) -> int {
        self.representatives@.len() as int
    }

    /// The members of orbit `o`, in walk order.
    pub(crate) open spec fn members_spec(&self, o: int) -> Seq<usize> {
        self.halfedges@.subrange(self.offsets@[o] as int, self.offsets@[o + 1] as int)
    }

    /// Progress of an orbit enumeration: `orbit` orbits are complete and
    /// occupy `halfedges[..start]`; `halfedges[start..]` is the walk of the
    /// orbit in progress.
    #[verifier::opaque]
    pub(crate) open spec fn progress(
        succ: Seq<usize>,
        of: Seq<usize>,
        off: Seq<usize>,
        hs: Seq<usize>,
        pos: Seq<int>,
        orbit: int,
        start: int,
    ) -> bool {
        let n = succ.len() as int;
        &&& of.len() == n
        &&& pos.len() == n
        &&& 0 <= orbit
        &&& 0 <= start <= hs.len() <= n
        &&& segments_wf(off, orbit, start)
        &&& forall|h: int|
            0 <= h < n && #[trigger] of[h] != UNASSIGNED ==> of[h] <= orbit && 0 <= pos[h] < hs.len()
                && hs[pos[h]] == h
        &&& forall|p: int|
            0 <= p < hs.len() ==> #[trigger] hs[p] < n && of[hs[p] as int] != UNASSIGNED && pos[hs[p] as int]
                == p
        &&& forall|o: int, p: int|
            #![trigger off[o], hs[p]]
            0 <= o < orbit && off[o] <= p < off[o + 1] ==> of[hs[p] as int] == o
        &&& forall|p: int| start <= p < hs.len() ==> #[trigger] of[hs[p] as int] == orbit
        &&& forall|o: int, p: int|
            #![trigger off[o], hs[p]]
            0 <= o < orbit && off[o] <= p < off[o + 1] - 1 ==> succ[hs[p] as int] == hs[p + 1]
        &&& forall|p: int| start <= p < hs.len() - 1 ==> #[trigger] succ[hs[p] as int] == hs[p + 1]
        &&& forall|o: int| 0 <= o < orbit ==> succ[hs[#[trigger] off[o + 1] - 1] as int] == hs[off[o] as int]
    }

    pub(crate) proof fn lemma_progress_start(succ: Seq<usize>, of: Seq<usize>)
        requires
            of.len() == succ.len(),
            forall|h: int| 0 <= h < of.len() ==> #[trigger] of[h] == UNASSIGNED,
        ensures
            Self::progress(
                succ,
                of,
                seq![0usize],
                Seq::empty(),
                Seq::new(succ.len(), |h: int| 0int),
                0,
                0,
            ),
    {
        reveal(OrbitIndex::progress);
        assert(segments_wf(seq![0usize], 0, 0));
    }

    pub(crate) proof fn lemma_progress_push(
        succ: Seq<usize>,
        of: Seq<usize>,
        off: Seq<usize>,
        hs: Seq<usize>,
        pos: Seq<int>,
        orbit: int,
        start: int,
        h: int,
    )
        requires
            Self::progress(succ, of, off, hs, pos, orbit, start),
            0 <= h < succ.len() <= usize::MAX,
            of[h] == UNASSIGNED,
            orbit <= hs.len(),
            hs.len() > start ==> h == succ[hs[hs.len() - 1] as int],
        ensures
            hs.len() < succ.len(),
            Self::progress(
                succ,
                of.update(h, orbit as usize),
                off,
                hs.push(h as usize),
                pos.update(h, hs.len() as int),
                orbit,
                start,
            ),
    {
        reveal(OrbitIndex::progress);
        let n = succ.len() as int;
        let cur = hs.push(h as usize);
        assert forall|i: int, j: int| 0 <= i < j < cur.len() implies cur[i] != cur[j] by {
            assert(cur[i] == hs[i]);
            if j < cur.len() - 1 {
                assert(cur[j] == hs[j]);
                assert(pos[hs[i] as int] == i);
                assert(pos[hs[j] as int] == j);
            } else {
                assert(i < hs.len());
                assert(hs[i] < n && of[hs[i] as int] != UNASSIGNED);
                assert(cur[j] == h);
                assert(of[h] == UNASSIGNED);
            }
        }
        lemma_distinct_bounded_len_usize(cur, n);
        assert(orbit < UNASSIGNED);
        let of2 = of.update(h, orbit as usize);
        let pos2 = pos.update(h, hs.len() as int);
        assert forall|p: int| 0 <= p < cur.len() implies #[trigger] cur[p] < n && of2[cur[p] as int]
            != UNASSIGNED && pos2[cur[p] as int] == p by {
            if p < hs.len() {
                assert(cur[p] == hs[p]);
                assert(pos[hs[p] as int] == p);
                assert(of[hs[p] as int] != UNASSIGNED);
                assert(hs[p] != h);
            }
        }
        assert forall|o: int, p: int|
            #![trigger off[o], cur[p]]
            0 <= o < orbit && off[o] <= p < off[o + 1] implies of2[cur[p] as int] == o by {
            assert(off[o + 1] <= off[orbit]);
            assert(cur[p] == hs[p]);
            assert(of[hs[p] as int] == o);
        }
        assert forall|o: int, p: int|
            #![trigger off[o], cur[p]]
            0 <= o < orbit && off[o] <= p < off[o + 1] - 1 implies succ[cur[p] as int] == cur[p + 1] by {
            assert(off[o + 1] <= off[orbit]);
            assert(cur[p] == hs[p]);
            assert(cur[p + 1] == hs[p + 1]);
            assert(succ[hs[p] as int] == hs[p + 1]);
        }
        assert forall|o: int| 0 <= o < orbit implies succ[cur[#[trigger] off[o + 1] - 1] as int]
            == cur[off[o] as int] by {
            assert(off[o + 1] <= off[orbit]);
            assert(off[o] <= off[orbit]);
            assert(off[o] < off[o + 1]);
        }
        assert forall|p: int| start <= p < cur.len() implies #[trigger] of2[cur[p] as int] == orbit by {
            if p < hs.len() {
                assert(pos[hs[p] as int] == p);
                assert(of[hs[p] as int] == orbit);
            }
        }
        assert forall|p: int| start <= p < cur.len() - 1 implies #[trigger] succ[cur[p] as int]
            == cur[p + 1] by {
            if p < hs.len() - 1 {
                assert(succ[hs[p] as int] == hs[p + 1]);
            }
        }
        assert forall|x: int|
            0 <= x < n && #[trigger] of2[x] != UNASSIGNED implies of2[x] <= orbit && 0 <= pos2[x]
                < cur.len() && cur[pos2[x]] == x by {
            if x != h {
                assert(of[x] != UNASSIGNED);
            }
        }
    }

    pub(crate) proof fn lemma_progress_close(
        succ: Seq<usize>,
        of: Seq<usize>,
        off: Seq<usize>,
        hs: Seq<usize>,
        pos: Seq<int>,
        orbit: int,
        start: int,
    )
        requires
            Self::progress(succ, of, off, hs, pos, orbit, start),
            hs.len() > start,
            succ[hs[hs.len() - 1] as int] == hs[start],
            hs.len() <= usize::MAX,
        ensures
            Self::progress(succ, of, off.push(hs.len() as usize), hs, pos, orbit + 1, hs.len() as int),
    {
        reveal(OrbitIndex::progress);
        let off2 = off.push(hs.len() as usize);
        let count = orbit + 1;
        assert forall|a: int, b: int| 0 <= a <= b <= count implies off2[a] <= off2[b] by {
            if b == count && a < count {
                assert(off[a] <= off[orbit]);
            }
        }
        assert(segments_wf(off2, count, hs.len() as int));
        assert forall|o: int, p: int|
            #![trigger off2[o], hs[p]]
            0 <= o < count && off2[o] <= p < off2[o + 1] implies of[hs[p] as int] == o by {
            if o < orbit {
                assert(off2[o] == off[o]);
                assert(off2[o + 1] == off[o + 1]);
            }
        }
        assert forall|o: int, p: int|
            #![trigger off2[o], hs[p]]
            0 <= o < count && off2[o] <= p < off2[o + 1] - 1 implies succ[hs[p] as int] == hs[p + 1] by {
            if o < orbit {
                assert(off2[o] == off[o]);
                assert(off2[o + 1] == off[o + 1]);
            }
        }
        assert forall|o: int| 0 <= o < count implies succ[hs[#[trigger] off2[o + 1] - 1] as int]
            == hs[off2[o] as int] by {
            if o < orbit {
                assert(off2[o] == off[o]);
                assert(off2[o + 1] == off[o + 1]);
            }
        }
    }

    /// Walking a permutation from an unclaimed representative can only
    /// meet an already claimed halfedge at the representative itself.
    #[verifier::spinoff_prover]
    #[verifier::rlimit(40)]
    pub(crate) proof fn lemma_walk_closes(
        succ: Seq<usize>,
        of: Seq<usize>,
        off: Seq<usize>,
        hs: Seq<usize>,
        pos: Seq<int>,
        orbit: int,
        start: int,
        x: int,
    )
        requires
            permutes(succ),
            Self::progress(succ, of, off, hs, pos, orbit, start),
            0 <= x < succ.len(),
            of[x] != UNASSIGNED,
            start < hs.len(),
            x == succ[hs[hs.len() - 1] as int],
        ensures
            x == hs[start],
    {
        reveal(OrbitIndex::progress);
        reveal(permutes);
        if x == hs[start] {
            return;
        }
        let last = hs[hs.len() - 1] as int;
        let p = pos[x];
        assert(hs[p] == x);
        if p >= start {
            assert(p != start);
            let y = hs[p - 1] as int;
            assert(succ[y] == x);
            if y != last {
                if y < last {
                    assert(succ[y] != succ[last]);
                } else {
                    assert(succ[last] != succ[y]);
                }
            }
            assert(pos[y] == p - 1);
            assert(pos[last] == hs.len() - 1);
        } else {
            let o = lemma_segment_of(off, orbit, start, p);
            let y = if p == off[o] {
                hs[off[o + 1] - 1] as int
            } else {
                hs[p - 1] as int
            };
            assert(succ[y] == x);
            assert(of[y] == o);
            assert(of[last] == orbit);
            if y != last {
                if y < last {
                    assert(succ[y] != succ[last]);
                } else {
                    assert(succ[last] != succ[y]);
                }
            }
        }
    }

    /// A finished enumeration in which every halfedge is claimed is well formed.
    pub(crate) proof fn lemma_progress_finish(
        succ: Seq<usize>,
        of: Seq<usize>,
        off: Seq<usize>,
        hs: Seq<usize>,
        pos: Seq<int>,
        reps: Seq<usize>,
    )
        requires
            Self::progress(succ, of, off, hs, pos, reps.len() as int, hs.len() as int),
            forall|h: int| 0 <= h < succ.len() ==> #[trigger] of[h] != UNASSIGNED,
            forall|o: int| 0 <= o < reps.len() ==> #[trigger] reps[o] == hs[off[o] as int],
        ensures
            hs.len() == succ.len(),
            Self::wf_parts(succ, of, reps, off, hs, pos),
    {
        reveal(OrbitIndex::progress);
        reveal(OrbitIndex::wf_parts);
        let n = succ.len() as int;
        let count = reps.len() as int;
        let len = hs.len() as int;
        let ps = Seq::new(n as nat, |h: int| pos[h]);
        assert forall|i: int, j: int| 0 <= i < j < ps.len() implies ps[i] != ps[j] by {
            assert(of[i] != UNASSIGNED);
            assert(of[j] != UNASSIGNED);
            assert(hs[pos[i]] == i);
            assert(hs[pos[j]] == j);
        }
        assert forall|i: int| 0 <= i < ps.len() implies 0 <= #[trigger] ps[i] < len by {
            assert(of[i] != UNASSIGNED);
        }
        lemma_distinct_bounded_len(ps, len);
        assert(len == n);
        assert forall|h: int| 0 <= h < n implies #[trigger] of[h] < count by {
            assert(of[h] != UNASSIGNED);
            let p = pos[h];
            let o = lemma_segment_of(off, count, n, p);
            assert(hs[p] == h);
        }
        assert forall|h: int| 0 <= h < n implies #[trigger] of[succ[h] as int] == of[h] by {
            assert(of[h] != UNASSIGNED);
            let p = pos[h];
            let o = lemma_segment_of(off, count, n, p);
            assert(hs[p] == h);
            assert(of[h] == o);
            if p < off[o + 1] - 1 {
                assert(succ[h] == hs[p + 1]);
                assert(of[hs[p + 1] as int] == o);
            } else {
                assert(succ[h] == hs[off[o] as int]);
                assert(of[hs[off[o] as int] as int] == o);
            }
        }
        assert forall|h: int| 0 <= h < n implies 0 <= #[trigger] pos[h] < n && hs[pos[h]] == h by {
            assert(of[h] != UNASSIGNED);
        }
    }

    /// Structural well-formedness of the parts of an orbit index against the
    /// successor permutation `succ`.
    #[verifier::opaque]
    pub(crate) open spec fn wf_parts(
        succ: Seq<usize>,
        of: Seq<usize>,
        reps: Seq<usize>,
        off: Seq<usize>,
        hs: Seq<usize>,
        pos: Seq<int>,
    ) -> bool {
        let n = succ.len() as int;
        let count = reps.len() as int;
        &&& of.len() == n
        &&& hs.len() == n
        &&& pos.len() == n
        &&& segments_wf(off, count, n)
        &&& forall|o: int| 0 <= o < count ==> #[trigger] reps[o] == hs[off[o] as int]
        &&& forall|h: int| 0 <= h < n ==> 0 <= #[trigger] pos[h] < n && hs[pos[h]] == h
        &&& forall|p: int| 0 <= p < n ==> #[trigger] hs[p] < n && pos[hs[p] as int] == p
        &&& forall|o: int, p: int|
            #![trigger off[o], hs[p]]
            0 <= o < count && off[o] <= p < off[o + 1] ==> of[hs[p] as int] == o
        &&& forall|o: int, p: int|
            #![trigger off[o], hs[p]]
            0 <= o < count && off[o] <= p < off[o + 1] - 1 ==> succ[hs[p] as int] == hs[p + 1]
        &&& forall|o: int| 0 <= o < count ==> succ[hs[#[trigger] off[o + 1] - 1] as int] == hs[off[o] as int]
        &&& forall|h: int| 0 <= h < n ==> #[trigger] of[h] < count
        &&& forall|h: int| 0 <= h < n ==> #[trigger] of[succ[h] as int] == of[h]
    }

    /// The content of [`OrbitIndex::wf`], for proofs that reason about the index.
    pub(crate) proof fn lemma_wf_facts(&self, succ: Seq<usize>)
        requires
            self.wf(succ),
        ensures
            Self::wf_parts(
                succ,
                self.of_halfedge@,
                self.representatives@,
                self.offsets@,
                self.halfedges@,
                self.position@,
            ),
            self.of_halfedge@.len() == succ.len(),
            self.halfedges@.len() == succ.len(),
            self.offsets@.len() == self.count_spec() + 1,
            self.count_spec() <= succ.len(),
            forall|h: int| 0 <= h < succ.len() ==> #[trigger] self.of_halfedge@[h] < self.count_spec(),
            forall|h: int|
                0 <= h < succ.len() ==> #[trigger] self.of_halfedge@[succ[h] as int] == self.of_halfedge@[h],
            forall|o: int| 0 <= o < self.count_spec() ==> #[trigger] self.representatives@[o] < succ.len(),
            forall|o: int| 0 <= o <= self.count_spec() ==> #[trigger] self.offsets@[o] <= succ.len(),
            forall|o: int| 0 <= o < self.count_spec() ==> #[trigger] self.offsets@[o] < self.offsets@[o + 1],
            forall|o: int, p: int|
                #![trigger self.offsets@[o], self.halfedges@[p]]
                0 <= o < self.count_spec() && self.offsets@[o] <= p < self.offsets@[o + 1]
                    ==> self.halfedges@[p] < succ.len() && self.of_halfedge@[self.halfedges@[p] as int] == o,
            forall|o: int, p: int|
                #![trigger self.offsets@[o], self.halfedges@[p]]
                0 <= o < self.count_spec() && self.offsets@[o] <= p < self.offsets@[o + 1] - 1
                    ==> succ[self.halfedges@[p] as int] == self.halfedges@[p + 1],
            forall|o: int|
                0 <= o < self.count_spec() ==> succ[self.halfedges@[#[trigger] self.offsets@[o + 1] - 1] as int]
                    == self.halfedges@[self.offsets@[o] as int],
            forall|o: int|
                0 <= o < self.count_spec() ==> #[trigger] self.representatives@[o]
                    == self.halfedges@[self.offsets@[o] as int],
    {
        reveal(OrbitIndex::wf_parts);
        assert forall|o: int| 0 <= o <= self.count_spec() implies #[trigger] self.offsets@[o] <= succ.len() by {
            assert(self.offsets@[o] <= self.offsets@[self.count_spec()]);
        }
        let count = self.count_spec();
        let n = succ.len() as int;
        assert forall|o: int| 0 <= o < count implies #[trigger] self.representatives@[o] < succ.len() by {
            assert(self.offsets@[o] < self.offsets@[o + 1]);
            assert(self.offsets@[o + 1] <= self.offsets@[count]);
        }
        if count > n {
            assert forall|o: int| 0 <= o <= count implies #[trigger] self.offsets@[o] >= o by {
                lemma_offsets_grow(self.offsets@, count, n, o);
            }
            assert(self.offsets@[count] >= count);
        }
    }

    /// Structural well-formedness against the successor permutation `succ`.
    pub(crate) open spec fn wf(&self, succ: Seq<usize>) -> bool {
        Self::wf_parts(
            succ,
            self.of_halfedge@,
            self.representatives@,
            self.offsets@,
            self.halfedges@,
            self.position@,
        )
    }

    /// Walk one orbit from an unclaimed representative, claiming each
    /// member for orbit `orbit`.
    #[verifier::rlimit(50)]
    fn walk_orbit(
        successor: &Vec<usize>,
        of_in: Vec<usize>,
        hs_in: Vec<usize>,
        offsets: &Vec<usize>,
        pos: Ghost<Seq<int>>,
        representative: usize,
        orbit: usize,
    ) -> (out: (Vec<usize>, Vec<usize>, Ghost<Seq<int>>))
        requires
            permutes(successor@),
            forall|h: int| 0 <= h < successor@.len() ==> #[trigger] successor@[h] < successor@.len(),
            representative < successor@.len(),
            of_in@.len() == successor@.len(),
            pos@.len() == successor@.len(),
            of_in@[representative as int] == UNASSIGNED,
            orbit as int == offsets@.len() - 1,
            orbit <= hs_in@.len(),
            hs_in@.len() <= successor@.len(),
            offsets@[orbit as int] == hs_in@.len(),
            Self::progress(
                successor@,
                of_in@,
                offsets@,
                hs_in@,
                pos@,
                orbit as int,
                hs_in@.len() as int,
            ),
        ensures
            out.0@.len() == successor@.len(),
            out.0@[representative as int] != UNASSIGNED,
            out.1@.len() <= successor@.len(),
            out.2@.len() == successor@.len(),
            Self::progress(
                successor@,
                out.0@,
                offsets@,
                out.1@,
                out.2@,
                orbit as int,
                hs_in@.len() as int,
            ),
            out.1@.len() > hs_in@.len(),
            out.1@[hs_in@.len() as int] == representative,
            successor@[out.1@[out.1@.len() - 1] as int] == representative,
            out.1@.take(hs_in@.len() as int) == hs_in@,
            forall|h: int|
                0 <= h < successor@.len() && of_in@[h] != UNASSIGNED
                    ==> #[trigger] out.0@[h] == of_in@[h],
    {
        let ghost succ = successor@;
        let n = successor.len();
        let mut of_halfedge = of_in;
        let mut halfedges = hs_in;
        let start = halfedges.len();
        let ghost mut p = pos@;
        let ghost hs0 = halfedges@;
        let ghost of0 = of_halfedge@;
        let mut halfedge = representative;
        loop
            invariant
                succ == successor@,
                n == succ.len(),
                permutes(succ),
                halfedge < n,
                representative < n,
                of_halfedge@.len() == n,
                p.len() == n,
                start == hs0.len(),
                orbit as int == offsets@.len() - 1,
                orbit <= start,
                halfedges@.len() <= n,
                halfedges@.len() > start ==> of_halfedge@[representative as int] != UNASSIGNED,
                Self::progress(succ, of_halfedge@, offsets@, halfedges@, p, orbit as int, start as int),
                halfedges@.len() >= start,
                halfedges@.take(start as int) == hs0,
                forall|h: int|
                    0 <= h < n && of0[h] != UNASSIGNED ==> #[trigger] of_halfedge@[h] == of0[h],
                halfedges@.len() == start ==> halfedge == representative
                    && of_halfedge@[representative as int] == UNASSIGNED,
                halfedges@.len() > start ==> halfedges@[start as int] == representative && halfedge
                    == succ[halfedges@[halfedges@.len() - 1] as int],
            ensures
                of_halfedge@.len() == n,
                of_halfedge@[representative as int] != UNASSIGNED,
                halfedges@.len() <= n,
                p.len() == n,
                Self::progress(succ, of_halfedge@, offsets@, halfedges@, p, orbit as int, start as int),
                halfedges@.len() > start,
                halfedges@[start as int] == representative,
                succ[halfedges@[halfedges@.len() - 1] as int] == representative,
                halfedges@.take(start as int) == hs0,
                forall|h: int|
                    0 <= h < n && of0[h] != UNASSIGNED ==> #[trigger] of_halfedge@[h] == of0[h],
            decreases n - halfedges@.len(),
        {
            if of_halfedge[halfedge] != UNASSIGNED {
                proof {
                    Self::lemma_walk_closes(
                        succ,
                        of_halfedge@,
                        offsets@,
                        halfedges@,
                        p,
                        orbit as int,
                        start as int,
                        halfedge as int,
                    );
                }
                break;
            }
            proof {
                Self::lemma_progress_push(
                    succ,
                    of_halfedge@,
                    offsets@,
                    halfedges@,
                    p,
                    orbit as int,
                    start as int,
                    halfedge as int,
                );
                p = p.update(halfedge as int, halfedges@.len() as int);
            }
            proof {
                assert(orbit < UNASSIGNED);
                assert(halfedge != representative || halfedges@.len() == start);
            }
            let ghost hs_before = halfedges@;
            of_halfedge.set(halfedge, orbit);
            halfedges.push(halfedge);
            proof {
                assert(halfedges@.take(start as int) == hs_before.take(start as int));
            }
            proof {
                assert(succ[halfedge as int] < n) by {
                    reveal(permutes);
                }
            }
            halfedge = successor[halfedge];
        }
        (of_halfedge, halfedges, Ghost(p))
    }

    /// Enumerate the orbits of a permutation, taking orbit representatives in
    /// increasing halfedge order.
    #[verifier::spinoff_prover]
    #[verifier::rlimit(40)]
    pub(crate) fn enumerate(successor: &Vec<usize>) -> (r: OrbitIndex)
        requires
            permutes(successor@),
        ensures
            r.wf(successor@),
            forall|o: int, q: int| 0 <= o < q < r.count_spec() ==> #[trigger] r.representatives@[o]
                < #[trigger] r.representatives@[q],
            forall|h: int| 0 <= h < successor@.len() ==> r.representatives@[#[trigger] r.of_halfedge@[h] as int] <= h,
    {
        let n = successor.len();
        let ghost succ = successor@;
        let mut of_halfedge: Vec<usize> = Vec::new();
        let mut i: usize = 0;
        while i < n
            invariant
                i <= n,
                n == successor.len(),
                of_halfedge@.len() == i,
                forall|h: int| 0 <= h < i ==> of_halfedge@[h] == UNASSIGNED,
            decreases n - i,
        {
            of_halfedge.push(UNASSIGNED);
            i = i + 1;
        }
        let mut representatives: Vec<usize> = Vec::new();
        let mut offsets: Vec<usize> = Vec::new();
        offsets.push(0);
        let mut halfedges: Vec<usize> = Vec::new();
        let ghost mut pos: Seq<int> = Seq::new(n as nat, |h: int| 0int);
        proof {
            lemma_permutes_bounded(succ);
            Self::lemma_progress_start(succ, of_halfedge@);
            assert(offsets@ == seq![0usize]);
            assert(halfedges@ == Seq::<usize>::empty());
        }
        let mut representative: usize = 0;
        while representative < n
            invariant
                n == successor.len(),
                succ == successor@,
                permutes(succ),
                forall|h: int| 0 <= h < n ==> #[trigger] succ[h] < n,
                representative <= n,
                of_halfedge@.len() == n,
                pos.len() == n,
                Self::progress(
                    succ,
                    of_halfedge@,
                    offsets@,
                    halfedges@,
                    pos,
                    representatives@.len() as int,
                    halfedges@.len() as int,
                ),
                representatives@.len() <= halfedges@.len(),
                halfedges@.len() <= n,
                offsets@.len() == representatives@.len() + 1,
                offsets@[representatives@.len() as int] == halfedges@.len(),
                forall|o: int| 0 <= o <= representatives@.len() ==> #[trigger] offsets@[o] <= halfedges@.len(),
                forall|o: int| 0 <= o < representatives@.len() ==> #[trigger] offsets@[o] < offsets@[o + 1],
                forall|o: int| 0 <= o < representatives@.len() ==> #[trigger] representatives@[o]
                    == halfedges@[offsets@[o] as int],
                forall|o: int| 0 <= o < representatives@.len() ==> #[trigger] representatives@[o]
                    < representative,
                forall|o: int, q: int| 0 <= o < q < representatives@.len() ==> #[trigger] representatives@[o]
                    < #[trigger] representatives@[q],
                forall|h: int| 0 <= h < representative ==> #[trigger] of_halfedge@[h] != UNASSIGNED,
                forall|h: int|
                    0 <= h < n && #[trigger] of_halfedge@[h] != UNASSIGNED ==> of_halfedge@[h] < representatives@.len()
                        && representatives@[of_halfedge@[h] as int] <= h,
            decreases n - representative,
        {
            if of_halfedge[representative] != UNASSIGNED {
                representative = representative + 1;
                continue;
            }
            let orbit = representatives.len();
            let start = halfedges.len();
            let ghost old_of = of_halfedge@;
            let ghost old_pos = pos;
            proof {
                assert(Self::progress(succ, old_of, offsets@, halfedges@, old_pos, orbit as int, start as int));
            }
            representatives.push(representative);
            let ghost old_hs = halfedges@;
            let (walked_of, walked_hs, new_pos) = Self::walk_orbit(
                successor,
                of_halfedge,
                halfedges,
                &offsets,
                Ghost(pos),
                representative,
                orbit,
            );
            of_halfedge = walked_of;
            halfedges = walked_hs;
            proof {
                pos = new_pos@;
                assert forall|h: int| 0 <= h < n && #[trigger] of_halfedge@[h] != UNASSIGNED implies of_halfedge@[h]
                    < representatives@.len() && representatives@[of_halfedge@[h] as int] <= h by {
                    assert(Self::progress(succ, of_halfedge@, offsets@, halfedges@, pos, orbit as int, start as int));
                    assert(Self::progress(succ, old_of, offsets@, old_hs, old_pos, orbit as int, start as int));
                    reveal(OrbitIndex::progress);
                    if old_of[h] != UNASSIGNED {
                        assert(of_halfedge@[h] == old_of[h]);
                    } else {
                        let p = pos[h];
                        assert(0 <= p < halfedges@.len() && halfedges@[p] == h);
                        if p < start {
                            assert(halfedges@.take(start as int)[p] == old_hs[p]);
                            assert(old_hs[p] == h);
                            assert(old_of[old_hs[p] as int] != UNASSIGNED);
                        } else {
                            assert(of_halfedge@[halfedges@[p] as int] == orbit);
                            assert(h >= representative);
                        }
                    }
                }
                assert forall|o: int| 0 <= o < orbit implies #[trigger] representatives@[o]
                    == halfedges@[offsets@[o] as int] by {
                    assert(offsets@[o] < offsets@[o + 1]);
                    assert(offsets@[o + 1] <= old_hs.len());
                    assert(old_hs[offsets@[o] as int] == halfedges@[offsets@[o] as int]);
                }
            }
            proof {
                assert(offsets@[orbit as int] <= halfedges@.len());
                Self::lemma_progress_close(
                    succ,
                    of_halfedge@,
                    offsets@,
                    halfedges@,
                    pos,
                    orbit as int,
                    start as int,
                );
            }
            let ghost old_off = offsets@;
            offsets.push(halfedges.len());
            proof {
                assert forall|o: int| 0 <= o <= representatives@.len() implies #[trigger] offsets@[o]
                    <= halfedges@.len() by {
                    if o < representatives@.len() {
                        assert(offsets@[o] == old_off[o]);
                    }
                }
                assert forall|o: int| 0 <= o < representatives@.len() implies #[trigger] offsets@[o]
                    < offsets@[o + 1] by {
                    assert(offsets@[o] == old_off[o]);
                    if o + 1 < representatives@.len() {
                        assert(offsets@[o + 1] == old_off[o + 1]);
                    }
                }
            }
            representative = representative + 1;
        }
        proof {
            Self::lemma_progress_finish(
                succ,
                of_halfedge@,
                offsets@,
                halfedges@,
                pos,
                representatives@,
            );
        }
        OrbitIndex { of_halfedge, representatives, offsets, halfedges, position: Ghost(pos) }
    }
}

} // verus!

verus! {

/// The first failure of `s` to be a permutation of `0..s.len()`, scanning
/// its first `k` values in order.
pub open spec fn permutation_failure(role: HalfedgeRole, s: Seq<usize>, k: nat) -> Option<TopologyError>
    decreases k,
{
    if k == 0 {
        None
    } else {
        match permutation_failure(role, s, (k - 1) as nat) {
            Some(e) => Some(e),
            None => if s[k - 1] >= s.len() {
                Some(TopologyError::HalfedgeRange(role, (k - 1) as usize, s[k - 1], s.len() as usize))
            } else if s.take(k - 1).contains(s[k - 1]) {
                Some(TopologyError::HalfedgePermutation(role, (k - 1) as usize, s[k - 1], s.len() as usize))
            } else {
                None
            },
        }
    }
}

proof fn lemma_permutation_failure_prefix(role: HalfedgeRole, s: Seq<usize>, k: nat, j: nat)
    requires
        j <= k,
        permutation_failure(role, s, k) is None,
    ensures
        permutation_failure(role, s, j) is None,
    decreases k - j,
{
    if j < k {
        lemma_permutation_failure_prefix(role, s, (k - 1) as nat, j);
    }
}

proof fn lemma_permutation_failure_extends(role: HalfedgeRole, s: Seq<usize>, k: nat, m: nat)
    requires
        k <= m,
        permutation_failure(role, s, k) is Some,
    ensures
        permutation_failure(role, s, m) == permutation_failure(role, s, k),
    decreases m - k,
{
    if k < m {
        lemma_permutation_failure_extends(role, s, k, (m - 1) as nat);
    }
}

/// A scan without failure is exactly a permutation.
pub proof fn lemma_permutation_failure_iff(role: HalfedgeRole, s: Seq<usize>)
    ensures
        permutation_failure(role, s, s.len()) is None <==> is_permutation(s),
{
    if permutation_failure(role, s, s.len()) is None {
        assert forall|i: int| 0 <= i < s.len() implies #[trigger] s[i] < s.len() by {
            lemma_permutation_failure_prefix(role, s, s.len(), (i + 1) as nat);
        }
        assert forall|i: int, j: int| 0 <= i < j < s.len() implies s[i] != s[j] by {
            lemma_permutation_failure_prefix(role, s, s.len(), (j + 1) as nat);
            assert(s.take(j)[i] == s[i]);
        }
    } else {
        let k = lemma_first_failure(role, s, s.len());
        if s[k - 1] >= s.len() {
        } else {
            assert(s.take(k - 1).contains(s[k - 1]));
            let i = choose|i: int| 0 <= i < k - 1 && #[trigger] s.take(k - 1)[i] == s[k - 1];
            assert(s[i] == s[k - 1]);
        }
    }
}

proof fn lemma_first_failure(role: HalfedgeRole, s: Seq<usize>, m: nat) -> (k: nat)
    requires
        permutation_failure(role, s, m) is Some,
    ensures
        1 <= k <= m,
        permutation_failure(role, s, (k - 1) as nat) is None,
        permutation_failure(role, s, k) is Some,
        s[k - 1] >= s.len() || s.take(k - 1).contains(s[k - 1]),
    decreases m,
{
    if permutation_failure(role, s, (m - 1) as nat) is Some {
        lemma_first_failure(role, s, (m - 1) as nat)
    } else {
        m
    }
}

/// Check that `values` is a permutation of `0..values.len()`.
pub(crate) fn validate_permutation(role: HalfedgeRole, values: &Vec<usize>) -> (r: Result<(), TopologyError>)
    ensures
        match permutation_failure(role, values@, values.len() as nat) {
            Some(e) => r == Err::<(), TopologyError>(e),
            None => r is Ok,
        },
        r is Ok <==> is_permutation(values@),
        r matches Err(e) ==> e is HalfedgeRange || e is HalfedgePermutation,
{
    proof {
        lemma_permutation_failure_iff(role, values@);
    }
    let n = values.len();
    let mut seen: Vec<usize> = Vec::new();
    let mut i: usize = 0;
    while i < n
        invariant
            i <= n,
            n == values.len(),
            seen@.len() == i,
            forall|h: int| 0 <= h < i ==> seen@[h] == UNASSIGNED,
        decreases n - i,
    {
        seen.push(UNASSIGNED);
        i = i + 1;
    }
    let mut halfedge: usize = 0;
    while halfedge < n
        invariant
            halfedge <= n,
            n == values.len(),
            seen@.len() == n,
            permutation_failure(role, values@, halfedge as nat) is None,
            forall|v: int|
                0 <= v < n ==> (#[trigger] seen@[v] != UNASSIGNED <==> values@.take(
                    halfedge as int,
                ).contains(v as usize)),
        decreases n - halfedge,
    {
        let value = values[halfedge];
        if value >= n {
            proof {
                lemma_permutation_failure_extends(role, values@, (halfedge + 1) as nat, n as nat);
            }
            return Err(TopologyError::HalfedgeRange(role, halfedge, value, n));
        }
        if seen[value] != UNASSIGNED {
            proof {
                lemma_permutation_failure_extends(role, values@, (halfedge + 1) as nat, n as nat);
            }
            return Err(TopologyError::HalfedgePermutation(role, halfedge, value, n));
        }
        let ghost before = values@.take(halfedge as int);
        seen.set(value, halfedge);
        proof {
            assert(values@.take(halfedge + 1) == before.push(value));
            assert forall|v: int| 0 <= v < n implies (#[trigger] seen@[v] != UNASSIGNED
                <==> values@.take(halfedge + 1).contains(v as usize)) by {
                if v == value {
                    assert(values@.take(halfedge + 1)[halfedge as int] == value);
                } else {
                    if values@.take(halfedge + 1).contains(v as usize) {
                        let j = choose|j: int|
                            0 <= j < halfedge + 1 && #[trigger] values@.take(halfedge + 1)[j] == v as usize;
                        assert(j < halfedge);
                        assert(before[j] == v as usize);
                    }
                    if before.contains(v as usize) {
                        let j = choose|j: int| 0 <= j < halfedge && #[trigger] before[j] == v as usize;
                        assert(values@.take(halfedge + 1)[j] == v as usize);
                    }
                }
            }
        }
        halfedge = halfedge + 1;
    }
    proof {
        assert(values@.take(n as int) == values@);
    }
    Ok(())
}

/// The refusal owed by a permutation `twin` that is not a fixed-point-free
/// involution: its first halfedge that is its own twin or whose twin's twin
/// is another halfedge, with its twin and its twin's twin.
pub open spec fn twin_law_refusal(twin: Seq<usize>, e: TopologyError) -> bool {
    e matches TopologyError::TwinLaw(h, p, b) && {
        &&& h < twin.len()
        &&& p == twin[h as int]
        &&& p < twin.len()
        &&& b == twin[p as int]
        &&& (p == h || b != h)
        &&& forall|k: int| 0 <= k < h ==> #[trigger] twin[k] != k && twin[twin[k] as int] == k
    }
}

/// Check the twin law of an admitted permutation: no halfedge is its own twin,
/// and twinning twice returns to the start.
pub(crate) fn validate_twin(twin: &Vec<usize>) -> (r: Result<(), TopologyError>)
    requires
        is_permutation(twin@),
    ensures
        r is Ok <==> is_twin_involution(twin@),
        r matches Err(e) ==> twin_law_refusal(twin@, e),
{
    let n = twin.len();
    let mut halfedge: usize = 0;
    while halfedge < n
        invariant
            halfedge <= n,
            n == twin.len(),
            is_permutation(twin@),
            forall|h: int|
                0 <= h < halfedge ==> twin@[h] != h && twin@[twin@[h] as int] == h,
        decreases n - halfedge,
    {
        let paired = twin[halfedge];
        let back = twin[paired];
        if paired == halfedge || back != halfedge {
            return Err(TopologyError::TwinLaw(halfedge, paired, back));
        }
        halfedge = halfedge + 1;
    }
    Ok(())
}

/// Packed twin orbits: orbit `o` is the edge `[representatives[o], twin[representatives[o]]]`.
pub(crate) struct EdgeIndex {
    pub(crate) of_halfedge: Vec<usize>,
    pub(crate) representatives: Vec<usize>,
    pub(crate) offsets: Vec<usize>,
    pub(crate) halfedges: Vec<usize>,
}

impl EdgeIndex {
    pub(crate) open spec fn count_spec(&self) -> int {
        self.representatives@.len() as int
    }

    /// Structural well-formedness against the twin involution `twin`.
    pub(crate) open spec fn wf(&self, twin: Seq<usize>) -> bool {
        let n = twin.len() as int;
        let count = self.count_spec();
        let of = self.of_halfedge@;
        let reps = self.representatives@;
        let hs = self.halfedges@;
        let off = self.offsets@;
        &&& of.len() == n
        &&& hs.len() == n
        &&& n == 2 * count
        &&& off.len() == count + 1
        &&& forall|o: int| 0 <= o <= count ==> #[trigger] off[o] == 2 * o
        &&& forall|o: int| 0 <= o < count ==> #[trigger] reps[o] < twin[reps[o] as int] && reps[o] < n
        &&& forall|o: int| 0 <= o < count ==> #[trigger] hs[2 * o] == reps[o] && hs[2 * o + 1] == twin[reps[o] as int]
        &&& forall|o: int| 0 <= o < count ==> #[trigger] of[reps[o] as int] == o
        &&& forall|h: int| 0 <= h < n ==> #[trigger] of[h] < count
        &&& forall|h: int|
            0 <= h < n ==> (h == reps[of[h] as int] || h == twin[reps[of[h] as int] as int])
        &&& forall|h: int| 0 <= h < n ==> #[trigger] of[twin[h] as int] == of[h]
    }

    pub(crate) proof fn lemma_wf_facts(&self, twin: Seq<usize>)
        requires
            self.wf(twin),
        ensures
            forall|o: int| 0 <= o < self.count_spec() ==> #[trigger] self.representatives@[o] < twin.len(),
            self.count_spec() <= twin.len(),
    {
        assert forall|o: int| 0 <= o < self.count_spec() implies #[trigger] self.representatives@[o]
            < twin.len() by {
            assert(self.representatives@[o] < twin[self.representatives@[o] as int]);
        }
    }

    /// Validate `twin` as a fixed-point-free involution and pair its orbits,
    /// taking each edge representative as the smaller halfedge of its pair.
    pub(crate) fn validated(twin: &Vec<usize>) -> (r: Result<EdgeIndex, TopologyError>)
        ensures
            match permutation_failure(HalfedgeRole::Twin, twin@, twin.len() as nat) {
                Some(e) => r == Err::<EdgeIndex, TopologyError>(e),
                None => if is_twin_involution(twin@) {
                    r matches Ok(index) && index.wf(twin@)
                } else {
                    r matches Err(e) && twin_law_refusal(twin@, e)
                },
            },
            r is Ok ==> is_permutation(twin@) && is_twin_involution(twin@),
            r matches Err(e) ==> e is HalfedgeRange || e is HalfedgePermutation || e is TwinLaw,
            r matches Ok(index) ==> forall|o: int, q: int| 0 <= o < q < index.representatives@.len()
                ==> #[trigger] index.representatives@[o] < #[trigger] index.representatives@[q],
    {
        validate_permutation(HalfedgeRole::Twin, twin)?;
        validate_twin(twin)?;
        Ok(Self::enumerate_edges(twin))
    }

    /// The edges of a validated twin involution, by their least halfedge.
    #[verifier::spinoff_prover]
    #[verifier::rlimit(60)]
    fn enumerate_edges(twin: &Vec<usize>) -> (r: EdgeIndex)
        requires
            is_permutation(twin@),
            is_twin_involution(twin@),
        ensures
            r.wf(twin@),
            forall|o: int, q: int| 0 <= o < q < r.representatives@.len() ==> #[trigger] r.representatives@[o]
                < #[trigger] r.representatives@[q],
    {
        let n = twin.len();
        let ghost t = twin@;
        let mut of_halfedge: Vec<usize> = Vec::new();
        let mut i: usize = 0;
        while i < n
            invariant
                i <= n,
                n == twin.len(),
                of_halfedge@.len() == i,
                forall|h: int| 0 <= h < i ==> of_halfedge@[h] == UNASSIGNED,
            decreases n - i,
        {
            of_halfedge.push(UNASSIGNED);
            i = i + 1;
        }
        let mut representatives: Vec<usize> = Vec::new();
        let mut offsets: Vec<usize> = Vec::new();
        offsets.push(0);
        let mut halfedges: Vec<usize> = Vec::new();
        let mut representative: usize = 0;
        while representative < n
            invariant
                n == twin.len(),
                t == twin@,
                is_twin_involution(t),
                representative <= n,
                of_halfedge@.len() == n,
                halfedges@.len() == 2 * representatives@.len(),
                offsets@.len() == representatives@.len() + 1,
                forall|o: int| 0 <= o <= representatives@.len() ==> #[trigger] offsets@[o] == 2 * o,
                forall|o: int| 0 <= o < representatives@.len() ==> #[trigger] representatives@[o]
                    < t[representatives@[o] as int],
                forall|o: int| 0 <= o < representatives@.len() ==> #[trigger] representatives@[o]
                    < representative,
                forall|o: int, q: int| 0 <= o < q < representatives@.len() ==> #[trigger] representatives@[o]
                    < #[trigger] representatives@[q],
                forall|o: int|
                    0 <= o < representatives@.len() ==> #[trigger] halfedges@[2 * o]
                        == representatives@[o] && halfedges@[2 * o + 1]
                        == t[representatives@[o] as int],
                forall|o: int| 0 <= o < representatives@.len() ==> #[trigger] of_halfedge@[representatives@[o] as int] == o,
                forall|o: int| 0 <= o < representatives@.len() ==> of_halfedge@[t[#[trigger] representatives@[o] as int] as int] == o,
                representatives@.len() <= representative,
                forall|h: int| 0 <= h < representative ==> #[trigger] of_halfedge@[h] != UNASSIGNED,
                forall|h: int|
                    0 <= h < n && #[trigger] of_halfedge@[h] != UNASSIGNED ==> of_halfedge@[h]
                        < representatives@.len() && (h == representatives@[of_halfedge@[h] as int]
                        || h == t[representatives@[of_halfedge@[h] as int] as int]),
            decreases n - representative,
        {
            if of_halfedge[representative] != UNASSIGNED {
                representative = representative + 1;
                continue;
            }
            let paired = twin[representative];
            let orbit = representatives.len();
            proof {
                if of_halfedge@[paired as int] != UNASSIGNED {
                    let o = of_halfedge@[paired as int] as int;
                    let r = representatives@[o];
                    assert(of_halfedge@[r as int] == o);
                    assert(of_halfedge@[t[r as int] as int] == o);
                    if paired == r {
                        assert(t[r as int] == representative);
                    } else {
                        assert(paired == t[r as int]);
                        assert(t[paired as int] == r);
                    }
                }
                assert(paired != representative);
                assert(paired > representative);
            }
            let ghost old_halfedges = halfedges@;
            let ghost old_reps = representatives@;
            representatives.push(representative);
            of_halfedge.set(representative, orbit);
            of_halfedge.set(paired, orbit);
            halfedges.push(representative);
            halfedges.push(paired);
            offsets.push(halfedges.len());
            proof {
                assert forall|o: int| 0 <= o < representatives@.len() implies #[trigger] halfedges@[2 * o]
                    == representatives@[o] && halfedges@[2 * o + 1] == t[representatives@[o] as int] by {
                    if o < old_reps.len() {
                        assert(halfedges@[2 * o] == old_halfedges[2 * o]);
                        assert(halfedges@[2 * o + 1] == old_halfedges[2 * o + 1]);
                        assert(representatives@[o] == old_reps[o]);
                    } else {
                        assert(o == old_reps.len());
                        assert(halfedges@[2 * o] == representative);
                        assert(halfedges@[2 * o + 1] == paired);
                    }
                }
            }
            representative = representative + 1;
        }
        proof {
            let count = representatives@.len() as int;
            assert forall|h: int| 0 <= h < n implies #[trigger] of_halfedge@[t[h] as int]
                == of_halfedge@[h] by {
                assert(of_halfedge@[h] != UNASSIGNED);
                assert(of_halfedge@[t[h] as int] != UNASSIGNED);
                let o = of_halfedge@[h] as int;
                let r = representatives@[o];
                if h == r {
                    assert(of_halfedge@[t[h] as int] == o);
                } else {
                    assert(t[h] == r);
                }
            }
            // every halfedge sits at a distinct position of `halfedges`
            let ps = Seq::new(n as nat, |h: int| if h == representatives@[of_halfedge@[h] as int] {
                2 * of_halfedge@[h]
            } else {
                2 * of_halfedge@[h] + 1
            });
            assert forall|h: int| 0 <= h < n implies 0 <= #[trigger] ps[h] < 2 * count && halfedges@[ps[h]] == h by {
                assert(of_halfedge@[h] != UNASSIGNED);
                let o = of_halfedge@[h] as int;
                assert(halfedges@[2 * o] == representatives@[o]);
            }
            assert forall|a: int, b: int| 0 <= a < b < ps.len() implies ps[a] != ps[b] by {
                assert(halfedges@[ps[a]] == a);
                assert(halfedges@[ps[b]] == b);
            }
            lemma_distinct_bounded_len(ps, 2 * count);
            let hs = halfedges@;
            assert forall|i: int, j: int| 0 <= i < j < hs.len() implies hs[i] != hs[j] by {
                let oi = i / 2;
                let oj = j / 2;
                assert(hs[2 * oi] == representatives@[oi]);
                assert(hs[2 * oj] == representatives@[oj]);
                assert(of_halfedge@[hs[i] as int] == oi);
                assert(of_halfedge@[hs[j] as int] == oj);
            }
            assert forall|i: int| 0 <= i < hs.len() implies #[trigger] hs[i] < n by {
                let oi = i / 2;
                assert(hs[2 * oi] == representatives@[oi]);
            }
            lemma_distinct_bounded_len_usize(hs, n as int);
            assert(n == 2 * count);
            assert(hs.len() == n);
            assert(forall|o: int| 0 <= o < count ==> #[trigger] representatives@[o] < n);
            assert(forall|h: int| 0 <= h < n ==> #[trigger] of_halfedge@[h] < count);
        }
        let index = EdgeIndex { of_halfedge, representatives, offsets, halfedges };
        proof {
            assert(index.of_halfedge@.len() == n);
            assert(index.halfedges@.len() == n);
            assert(n == 2 * index.count_spec());
        }
        index
    }
}

} // verus!

