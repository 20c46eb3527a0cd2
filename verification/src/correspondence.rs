use vstd::prelude::*;

use crate::error::TopologyError;
use crate::halfedge::UNASSIGNED;

verus! {

/// Whether `targets` and `signs` form a signed permutation: `targets` lists
/// each of `0..targets.len()` once and every sign is `1` or `-1`.
pub open spec fn signed_permutation(targets: Seq<usize>, signs: Seq<i8>) -> bool {
    &&& targets.len() == signs.len()
    &&& forall|s: int| 0 <= s < targets.len() ==> #[trigger] targets[s] < targets.len()
    &&& forall|a: int, b: int| 0 <= a < b < targets.len() ==> targets[a] != targets[b]
    &&& forall|s: int| 0 <= s < signs.len() ==> #[trigger] signs[s] == 1 || signs[s] == -1
}

/// A basis correspondence: each source index goes to one target index with
/// an orientation sign, and back.
#[derive(Debug)]
pub struct SignedPermutation {
    target_of_source: Vec<usize>,
    source_of_target: Vec<usize>,
    signs: Vec<i8>,
}

impl SignedPermutation {
    #[verifier::type_invariant]
    closed spec fn permutation_inv(&self) -> bool {
        self.wf()
    }

    /// Well-formedness: a signed permutation together with its inverse.
    pub open spec fn wf(&self) -> bool {
        &&& signed_permutation(self.spec_targets(), self.spec_signs())
        &&& self.spec_sources().len() == self.spec_targets().len()
        &&& forall|s: int|
            0 <= s < self.spec_targets().len() ==> self.spec_sources()[#[trigger] self.spec_targets()[s] as int]
                == s
        &&& forall|t: int|
            0 <= t < self.spec_sources().len() ==> #[trigger] self.spec_sources()[t] < self.spec_targets().len()
                && self.spec_targets()[self.spec_sources()[t] as int] == t
    }

    pub closed spec fn spec_targets(&self) -> Seq<usize> {
        self.target_of_source@
    }

    pub closed spec fn spec_sources(&self) -> Seq<usize> {
        self.source_of_target@
    }

    pub closed spec fn spec_signs(&self) -> Seq<i8> {
        self.signs@
    }

    /// Admit a signed permutation, refusing repeated or out-of-range targets,
    /// signs other than `1` and `-1`, and mismatched lengths.
    pub fn from_parts(target_of_source: Vec<usize>, signs: Vec<i8>) -> (r: Result<SignedPermutation, TopologyError>)
        ensures
            r is Ok <==> signed_permutation(target_of_source@, signs@),
            r is Err ==> r == Err::<SignedPermutation, TopologyError>(TopologyError::CorrespondenceLaw),
            r matches Ok(p) ==> p.wf() && p.spec_targets() == target_of_source@ && p.spec_signs() == signs@,
    {
        let n = target_of_source.len();
        if n != signs.len() {
            return Err(TopologyError::CorrespondenceLaw);
        }
        let mut source_of_target: Vec<usize> = Vec::new();
        let mut t: usize = 0;
        while t < n
            invariant
                t <= n,
                source_of_target@ == Seq::new(t as nat, |i: int| UNASSIGNED),
            decreases n - t,
        {
            source_of_target.push(UNASSIGNED);
            t = t + 1;
            proof {
                assert(source_of_target@ =~= Seq::new(t as nat, |i: int| UNASSIGNED));
            }
        }
        let ghost targets = target_of_source@;
        let mut source: usize = 0;
        while source < n
            invariant
                source <= n,
                n == targets.len(),
                targets == target_of_source@,
                signs@.len() == n,
                source_of_target@.len() == n,
                forall|s: int| 0 <= s < source ==> #[trigger] targets[s] < n,
                forall|a: int, b: int| 0 <= a < b < source ==> targets[a] != targets[b],
                forall|s: int| 0 <= s < source ==> #[trigger] signs@[s] == 1 || signs@[s] == -1,
                forall|s: int| 0 <= s < source ==> source_of_target@[#[trigger] targets[s] as int] == s,
                forall|x: int|
                    0 <= x < n ==> (#[trigger] source_of_target@[x] == UNASSIGNED || (source_of_target@[x]
                        < source && targets[source_of_target@[x] as int] == x)),
            decreases n - source,
        {
            let target = target_of_source[source];
            let sign = signs[source];
            if target >= n || source_of_target[target] != UNASSIGNED || !(sign == -1 || sign == 1) {
                proof {
                    if target < n && source_of_target@[target as int] != UNASSIGNED {
                        let earlier = source_of_target@[target as int];
                        assert(targets[earlier as int] == target);
                        assert(!signed_permutation(targets, signs@)) by {
                            assert(targets[earlier as int] == targets[source as int]);
                        }
                    }
                }
                return Err(TopologyError::CorrespondenceLaw);
            }
            proof {
                assert forall|s: int| 0 <= s < source implies targets[s] != target by {
                    assert(source_of_target@[targets[s] as int] == s);
                }
            }
            source_of_target.set(target, source);
            source = source + 1;
        }
        proof {
            assert forall|x: int| 0 <= x < n implies #[trigger] source_of_target@[x] < n && targets[source_of_target@[x] as int] == x by {
                if source_of_target@[x] == UNASSIGNED {
                    lemma_injection_onto(targets, n as int, x);
                    let s = choose|s: int| 0 <= s < n && targets[s] == x;
                    assert(source_of_target@[targets[s] as int] == s);
                }
            }
        }
        Ok(SignedPermutation { target_of_source, source_of_target, signs })
    }

    /// Number of basis indices.
    pub fn len(&self) -> (r: usize)
        ensures
            r == self.spec_targets().len(),
            self.wf(),
    {
        proof {
            use_type_invariant(self);
        }
        self.target_of_source.len()
    }

    /// An equal, separately owned signed permutation.
    pub fn duplicate(&self) -> (r: SignedPermutation)
        ensures
            r.spec_targets() == self.spec_targets(),
            r.spec_sources() == self.spec_sources(),
            r.spec_signs() == self.spec_signs(),
    {
        proof {
            use_type_invariant(self);
        }
        let mut targets: Vec<usize> = Vec::new();
        let mut sources: Vec<usize> = Vec::new();
        let mut signs: Vec<i8> = Vec::new();
        let n = self.target_of_source.len();
        let mut i: usize = 0;
        while i < n
            invariant
                i <= n,
                n == self.target_of_source@.len(),
                n == self.source_of_target@.len(),
                n == self.signs@.len(),
                targets@ == self.target_of_source@.take(i as int),
                sources@ == self.source_of_target@.take(i as int),
                signs@ == self.signs@.take(i as int),
            decreases n - i,
        {
            targets.push(self.target_of_source[i]);
            sources.push(self.source_of_target[i]);
            signs.push(self.signs[i]);
            i = i + 1;
            proof {
                assert(targets@ =~= self.target_of_source@.take(i as int));
                assert(sources@ =~= self.source_of_target@.take(i as int));
                assert(signs@ =~= self.signs@.take(i as int));
            }
        }
        proof {
            assert(targets@ =~= self.target_of_source@);
            assert(sources@ =~= self.source_of_target@);
            assert(signs@ =~= self.signs@);
        }
        SignedPermutation { target_of_source: targets, source_of_target: sources, signs }
    }

    /// Target of every source index.
    pub fn target_of_source(&self) -> (r: &[usize])
        ensures
            r@ == self.spec_targets(),
    {
        self.target_of_source.as_slice()
    }

    /// Orientation sign of every source index.
    pub fn signs(&self) -> (r: &[i8])
        ensures
            r@ == self.spec_signs(),
    {
        self.signs.as_slice()
    }

    /// Map one source basis index to its target and orientation sign.
    pub fn map_basis(&self, source: usize) -> (r: Result<(usize, i8), TopologyError>)
        ensures
            source < self.spec_targets().len() ==> r == Ok::<(usize, i8), TopologyError>(
                (self.spec_targets()[source as int], self.spec_signs()[source as int]),
            ),
            source >= self.spec_targets().len() ==> r == Err::<(usize, i8), TopologyError>(
                TopologyError::DegreeOutside(source),
            ),
    {
        proof {
            use_type_invariant(self);
        }
        if source < self.target_of_source.len() {
            Ok((self.target_of_source[source], self.signs[source]))
        } else {
            Err(TopologyError::DegreeOutside(source))
        }
    }

    /// Map one target basis index back to its source and orientation sign.
    pub fn inverse_basis(&self, target: usize) -> (r: Result<(usize, i8), TopologyError>)
        ensures
            target < self.spec_targets().len() ==> (r matches Ok(pair) && pair.0 == self.spec_sources()[target as int]
                && pair.0 < self.spec_targets().len()
                && self.spec_targets()[pair.0 as int] == target && pair.1 == self.spec_signs()[pair.0 as int]),
            target >= self.spec_targets().len() ==> r == Err::<(usize, i8), TopologyError>(
                TopologyError::DegreeOutside(target),
            ),
    {
        proof {
            use_type_invariant(self);
        }
        if target >= self.source_of_target.len() {
            return Err(TopologyError::DegreeOutside(target));
        }
        let source = self.source_of_target[target];
        Ok((source, self.signs[source]))
    }
}

/// An injection of `0..n` into `0..n` reaches every `x < n`.
pub proof fn lemma_injection_onto(targets: Seq<usize>, n: int, x: int)
    requires
        targets.len() == n,
        forall|s: int| 0 <= s < n ==> #[trigger] targets[s] < n,
        forall|a: int, b: int| 0 <= a < b < n ==> targets[a] != targets[b],
        0 <= x < n,
    ensures
        exists|s: int| 0 <= s < n && targets[s] == x,
{
    if !(exists|s: int| 0 <= s < n && targets[s] == x) {
        // the values avoid `x`, so they fit in `n - 1` slots
        let squeezed = targets.map_values(|v: usize| if v > x { (v - 1) as usize } else { v });
        assert forall|i: int| 0 <= i < squeezed.len() implies #[trigger] squeezed[i] < n - 1 by {
            assert(targets[i] != x);
        }
        assert forall|i: int, j: int| 0 <= i < j < squeezed.len() implies squeezed[i] != squeezed[j] by {
            assert(targets[i] != x && targets[j] != x);
            assert(targets[i] != targets[j]);
        }
        crate::orbit::lemma_distinct_bounded_len_usize(squeezed, n - 1);
    }
}

/// Mapping a source index and inverting its target gives back the source
/// and the same sign.
pub proof fn law_inverse_undoes_map(p: SignedPermutation, source: int)
    requires
        p.wf(),
        0 <= source < p.spec_targets().len(),
    ensures
        p.spec_sources()[p.spec_targets()[source] as int] == source,
        p.spec_signs()[p.spec_sources()[p.spec_targets()[source] as int] as int] == p.spec_signs()[source],
{
}

/// Inverting a target index and mapping its source gives back the target.
pub proof fn law_map_undoes_inverse(p: SignedPermutation, target: int)
    requires
        p.wf(),
        0 <= target < p.spec_targets().len(),
    ensures
        p.spec_targets()[p.spec_sources()[target] as int] == target,
{
}

} // verus!
