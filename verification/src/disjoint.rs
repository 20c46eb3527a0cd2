use vstd::prelude::*;

verus! {

/// Whether `f` gives both ends of every pair in `pairs` the same label.
pub open spec fn respects(f: spec_fn(int) -> int, pairs: Seq<(int, int)>) -> bool {
    forall|k: int| 0 <= k < pairs.len() ==> f(#[trigger] pairs[k].0) == f(pairs[k].1)
}

/// Number of class representatives among the first `k` elements.
pub open spec fn root_count(rep: Seq<int>, k: int) -> nat
    decreases k,
{
    if k <= 0 {
        0
    } else {
        root_count(rep, k - 1) + if rep[k - 1] == k - 1 {
            1nat
        } else {
            0nat
        }
    }
}

/// Fallible-free union-find over `0..n` with path halving.
///
/// Its classes are the finest partition in which every joined pair shares a
/// class.
pub struct DisjointSet {
    parent: Vec<usize>,
    rep: Ghost<Seq<int>>,
    depth: Ghost<Seq<nat>>,
    joined: Ghost<Seq<(int, int)>>,
}

impl DisjointSet {
    /// The class representative of each element.
    pub closed spec fn classes(&self) -> Seq<int> {
        self.rep@
    }

    /// Every pair joined so far.
    pub closed spec fn pairs(&self) -> Seq<(int, int)> {
        self.joined@
    }

    pub closed spec fn size(&self) -> nat {
        self.parent@.len()
    }

    pub closed spec fn wf(&self) -> bool {
        let n = self.parent@.len() as int;
        let p = self.parent@;
        let rep = self.rep@;
        let d = self.depth@;
        &&& rep.len() == n
        &&& d.len() == n
        &&& forall|v: int| 0 <= v < n ==> #[trigger] p[v] < n
        &&& forall|v: int| 0 <= v < n ==> 0 <= #[trigger] rep[v] < n && rep[rep[v]] == rep[v]
        &&& forall|v: int| 0 <= v < n ==> #[trigger] rep[p[v] as int] == rep[v]
        &&& forall|v: int| 0 <= v < n ==> (#[trigger] p[v] == v <==> rep[v] == v)
        &&& forall|v: int| 0 <= v < n && p[v] != v ==> #[trigger] d[p[v] as int] < d[v]
        &&& forall|k: int|
            0 <= k < self.joined@.len() ==> 0 <= #[trigger] self.joined@[k].0 < n && 0
                <= self.joined@[k].1 < n && rep[self.joined@[k].0] == rep[self.joined@[k].1]
        &&& forall|f: spec_fn(int) -> int, u: int|
            respects(f, self.joined@) && 0 <= u < n ==> #[trigger] f(u) == f(rep[u])
    }

    /// The facts of well-formedness that callers reason with.
    pub proof fn lemma_wf_facts(&self)
        requires
            self.wf(),
        ensures
            self.classes().len() == self.size(),
            forall|v: int|
                0 <= v < self.size() ==> 0 <= #[trigger] self.classes()[v] < self.size()
                    && self.classes()[self.classes()[v]] == self.classes()[v],
            forall|k: int|
                0 <= k < self.pairs().len() ==> self.classes()[#[trigger] self.pairs()[k].0]
                    == self.classes()[self.pairs()[k].1],
            forall|f: spec_fn(int) -> int, u: int|
                respects(f, self.pairs()) && 0 <= u < self.size() ==> #[trigger] f(u) == f(
                    self.classes()[u],
                ),
    {
    }

    pub fn try_new(length: usize) -> (s: DisjointSet)
        ensures
            s.wf(),
            s.size() == length,
            s.pairs().len() == 0,
            forall|v: int| 0 <= v < length ==> #[trigger] s.classes()[v] == v,
    {
        let mut parent: Vec<usize> = Vec::new();
        let mut v: usize = 0;
        while v < length
            invariant
                v <= length,
                parent@.len() == v,
                forall|w: int| 0 <= w < v ==> parent@[w] == w,
            decreases length - v,
        {
            parent.push(v);
            v = v + 1;
        }
        let s = DisjointSet {
            parent,
            rep: Ghost(Seq::new(length as nat, |v: int| v)),
            depth: Ghost(Seq::new(length as nat, |v: int| 0nat)),
            joined: Ghost(Seq::empty()),
        };
        s
    }

    /// The representative of `value`, halving the path walked.
    fn root(&mut self, value: usize) -> (r: usize)
        requires
            old(self).wf(),
            value < old(self).size(),
        ensures
            final(self).wf(),
            final(self).size() == old(self).size(),
            final(self).classes() == old(self).classes(),
            final(self).pairs() == old(self).pairs(),
            r == old(self).classes()[value as int],
    {
        let ghost target = old(self).classes()[value as int];
        let mut value = value;
        while self.parent[value] != value
            invariant
                self.wf(),
                self.size() == old(self).size(),
                self.classes() == old(self).classes(),
                self.pairs() == old(self).pairs(),
                value < self.size(),
                self.rep@[value as int] == target,
            decreases self.depth@[value as int],
        {
            let grand = self.parent[self.parent[value]];
            let ghost p = self.parent@;
            self.parent.set(value, grand);
            proof {
                let n = p.len() as int;
                let pv = p[value as int] as int;
                assert(self.rep@[pv] == self.rep@[value as int]);
                assert forall|v: int| 0 <= v < n implies #[trigger] self.rep@[self.parent@[v] as int]
                    == self.rep@[v] by {
                    if v != value {
                        assert(self.parent@[v] == p[v]);
                    }
                }
                assert forall|v: int| 0 <= v < n implies (#[trigger] self.parent@[v] == v
                    <==> self.rep@[v] == v) by {
                    if v == value {
                        if grand == value {
                            assert(self.rep@[pv] == self.rep@[value as int]);
                            assert(p[pv] == value);
                            assert(self.depth@[pv] < self.depth@[value as int]);
                            assert(self.depth@[value as int] < self.depth@[pv]);
                        }
                    }
                }
                assert forall|v: int| 0 <= v < n && self.parent@[v] != v implies #[trigger] self.depth@[self.parent@[v] as int]
                    < self.depth@[v] by {
                    if v == value {
                        if p[pv] != pv {
                            assert(self.depth@[p[pv] as int] < self.depth@[pv]);
                        }
                    }
                }
            }
            value = self.parent[value];
        }
        value
    }

    pub fn join(&mut self, left: usize, right: usize) -> (changed: bool)
        requires
            old(self).wf(),
            left < old(self).size(),
            right < old(self).size(),
        ensures
            final(self).wf(),
            final(self).size() == old(self).size(),
            final(self).pairs() == old(self).pairs().push((left as int, right as int)),
            changed == (old(self).classes()[left as int] != old(self).classes()[right as int]),
            forall|v: int|
                0 <= v < old(self).size() ==> #[trigger] final(self).classes()[v] == if old(
                    self,
                ).classes()[v] == old(self).classes()[right as int] {
                    old(self).classes()[left as int]
                } else {
                    old(self).classes()[v]
                },
    {
        let left_root = self.root(left);
        let right_root = self.root(right);
        if left_root == right_root {
            proof {
                let pairs = self.joined@.push((left as int, right as int));
                assert forall|f: spec_fn(int) -> int, u: int|
                    respects(f, pairs) && 0 <= u < self.parent@.len() implies #[trigger] f(u) == f(
                    self.rep@[u],
                ) by {
                    assert forall|k: int| 0 <= k < self.joined@.len() implies f(
                        #[trigger] self.joined@[k].0,
                    ) == f(self.joined@[k].1) by {
                        assert(pairs[k] == self.joined@[k]);
                    }
                }
                self.joined@ = pairs;
            }
            return false;
        }
        let ghost old_rep = self.rep@;
        let ghost old_depth = self.depth@;
        let ghost old_pairs = self.joined@;
        let ghost n = self.parent@.len() as int;
        self.parent.set(right_root, left_root);
        proof {
            let lr = left_root as int;
            let rr = right_root as int;
            let shift = old_depth[lr] + 1;
            self.rep@ = Seq::new(n as nat, |v: int| if old_rep[v] == rr { lr } else { old_rep[v] });
            self.depth@ = Seq::new(n as nat, |v: int| if old_rep[v] == rr {
                (old_depth[v] + shift) as nat
            } else {
                old_depth[v]
            });
            let pairs = old_pairs.push((left as int, right as int));
            self.joined@ = pairs;
            assert forall|v: int| 0 <= v < n implies #[trigger] self.rep@[self.parent@[v] as int]
                == self.rep@[v] by {
                if v != rr {
                    assert(old_rep[self.parent@[v] as int] == old_rep[v]);
                }
            }
            assert forall|v: int| 0 <= v < n && self.parent@[v] != v implies #[trigger] self.depth@[self.parent@[v] as int]
                < self.depth@[v] by {
                if v != rr {
                    assert(old_rep[self.parent@[v] as int] == old_rep[v]);
                }
            }
            assert forall|v: int| 0 <= v < n implies (#[trigger] self.parent@[v] == v
                <==> self.rep@[v] == v) by {
                if v != rr && old_rep[v] == rr {
                    assert(old_rep[rr] == rr);
                }
            }
            assert forall|k: int|
                0 <= k < pairs.len() implies 0 <= #[trigger] pairs[k].0 < n && 0 <= pairs[k].1 < n
                && self.rep@[pairs[k].0] == self.rep@[pairs[k].1] by {
                if k < old_pairs.len() {
                    assert(pairs[k] == old_pairs[k]);
                }
            }
            assert forall|f: spec_fn(int) -> int, u: int|
                respects(f, pairs) && 0 <= u < n implies #[trigger] f(u) == f(self.rep@[u]) by {
                assert forall|k: int| 0 <= k < old_pairs.len() implies f(#[trigger] old_pairs[k].0)
                    == f(old_pairs[k].1) by {
                    assert(pairs[k] == old_pairs[k]);
                }
                assert(f(pairs[old_pairs.len() as int].0) == f(pairs[old_pairs.len() as int].1));
                assert(f(u) == f(old_rep[u]));
                assert(f(left as int) == f(lr));
                assert(f(right as int) == f(rr));
            }
        }
        true
    }

    /// Whether `value` represents its class.
    pub fn is_root(&mut self, value: usize) -> (r: bool)
        requires
            old(self).wf(),
            value < old(self).size(),
        ensures
            final(self).wf(),
            final(self).size() == old(self).size(),
            final(self).classes() == old(self).classes(),
            final(self).pairs() == old(self).pairs(),
            r == (old(self).classes()[value as int] == value),
    {
        self.root(value) == value
    }
}

} // verus!
