use vstd::prelude::*;
use std::sync::Arc;

use crate::error::{HalfedgeRole, TopologyError};
use crate::disjoint::{DisjointSet, respects, root_count};
use crate::orbit::{OrbitIndex, EdgeIndex, validate_permutation, permutation_failure, lemma_permutes, lemma_permutation_failure_iff, twin_law_refusal};
use crate::surface::{SurfaceChain, boundary_composed, build_surface_chain, composed, edge_entries, face_entries, lemma_held_composed, lemma_surface_composes, surface_chain_holds};
use crate::complex::{ChainOwner, ChainView};
use crate::cycle::{same_orbit, cycle_count, lemma_representatives_count};

verus! {

/// Marker for a halfedge slot that no relation has claimed yet.
pub const UNASSIGNED: usize = usize::MAX;

/// The largest halfedge count a presentation may declare: counts travel
/// through signed 64-bit transport values.
pub open spec fn max_halfedge_count() -> int {
    0x7fff_ffff_ffff_ffff
}

/// Whether `s` is a permutation of `0..s.len()`.
pub open spec fn is_permutation(s: Seq<usize>) -> bool {
    &&& forall|i: int| 0 <= i < s.len() ==> #[trigger] s[i] < s.len()
    &&& forall|i: int, j: int| 0 <= i < j < s.len() ==> s[i] != s[j]
}

/// Whether `t` is a fixed-point-free involution of `0..t.len()`.
pub open spec fn is_twin_involution(t: Seq<usize>) -> bool {
    forall|h: int|
        0 <= h < t.len() ==> {
            &&& #[trigger] t[h] < t.len()
            &&& t[h] != h
            &&& t[t[h] as int] == h
        }
}

/// The first classified failure among the first `k` values of a transport
/// stream that may hold at most `bound` values.
pub open spec fn stream_failure(
    values: Seq<Result<usize, TopologyError>>,
    bound: nat,
    k: nat,
) -> Option<TopologyError>
    decreases k,
{
    if k == 0 {
        None
    } else {
        match stream_failure(values, bound, (k - 1) as nat) {
            Some(e) => Some(e),
            None => if k - 1 == bound {
                Some(TopologyError::HalfedgeShape)
            } else if values[k - 1] is Err {
                Some(values[k - 1]->Err_0)
            } else {
                None
            },
        }
    }
}

/// The admitted indices of an error-free transport stream.
pub open spec fn stream_values(values: Seq<Result<usize, TopologyError>>) -> Seq<usize> {
    values.map_values(|v: Result<usize, TopologyError>| v->Ok_0)
}

/// Result of collecting a stream that must hold exactly `expected` values.
pub open spec fn exact_collection(
    values: Seq<Result<usize, TopologyError>>,
    expected: nat,
) -> Result<Seq<usize>, TopologyError> {
    match stream_failure(values, expected, values.len()) {
        Some(e) => Err(e),
        None => if values.len() != expected {
            Err(TopologyError::HalfedgeShape)
        } else {
            Ok(stream_values(values))
        },
    }
}

/// Result of collecting a stream that may hold at most `maximum` values.
pub open spec fn bounded_collection(
    values: Seq<Result<usize, TopologyError>>,
    maximum: nat,
) -> Result<Seq<usize>, TopologyError> {
    match stream_failure(values, maximum, values.len()) {
        Some(e) => Err(e),
        None => Ok(stream_values(values)),
    }
}

/// Admission of one unsigned transport value into the native index domain.
pub open spec fn unsigned_index(value: u128) -> Result<usize, TopologyError> {
    if value > usize::MAX {
        Err(TopologyError::IndexOverflow(value))
    } else {
        Ok(value as usize)
    }
}

/// Admission of one signed transport value into the native index domain.
pub open spec fn signed_index(value: i128) -> Result<usize, TopologyError> {
    if value < 0 {
        Err(TopologyError::NegativeIndex(value))
    } else if value > usize::MAX {
        Err(TopologyError::IndexOverflow(value as u128))
    } else {
        Ok(value as usize)
    }
}

proof fn lemma_stream_failure_none_prefix(
    values: Seq<Result<usize, TopologyError>>,
    bound: nat,
    k: nat,
    j: nat,
)
    requires
        j <= k <= values.len(),
        stream_failure(values, bound, k) is None,
    ensures
        stream_failure(values, bound, j) is None,
    decreases k - j,
{
    if j < k {
        lemma_stream_failure_none_prefix(values, bound, (k - 1) as nat, j);
    }
}

proof fn lemma_stream_failure_none_elements(
    values: Seq<Result<usize, TopologyError>>,
    bound: nat,
    k: nat,
)
    requires
        k <= values.len(),
        stream_failure(values, bound, k) is None,
    ensures
        forall|i: int| 0 <= i < k ==> #[trigger] values[i] is Ok && i != bound,
{
    assert forall|i: int| 0 <= i < k implies #[trigger] values[i] is Ok && i != bound by {
        lemma_stream_failure_none_prefix(values, bound, k, (i + 1) as nat);
    }
}

fn collect_stream(
    values: &Vec<Result<usize, TopologyError>>,
    bound: usize,
) -> (r: Result<Vec<usize>, TopologyError>)
    ensures
        match stream_failure(values@, bound as nat, values.len() as nat) {
            Some(e) => r == Err::<Vec<usize>, TopologyError>(e),
            None => r matches Ok(v) && v@ == stream_values(values@),
        },
{
    let mut output: Vec<usize> = Vec::new();
    let mut i: usize = 0;
    while i < values.len()
        invariant
            i <= values.len(),
            stream_failure(values@, bound as nat, i as nat) is None,
            output@ == stream_values(values@.take(i as int)),
        decreases values.len() - i,
    {
        if output.len() == bound {
            proof {
                lemma_stream_failure_none_elements(values@, bound as nat, i as nat);
                assert(stream_failure(values@, bound as nat, (i + 1) as nat) == Some(
                    TopologyError::HalfedgeShape,
                ));
                lemma_stream_failure_some_extends(values@, bound as nat, (i + 1) as nat, values.len() as nat);
            }
            return Err(TopologyError::HalfedgeShape);
        }
        match values[i] {
            Ok(value) => {
                output.push(value);
            },
            Err(e) => {
                proof {
                    lemma_stream_failure_some_extends(values@, bound as nat, (i + 1) as nat, values.len() as nat);
                }
                return Err(e);
            },
        }
        proof {
            assert(values@.take(i + 1) == values@.take(i as int).push(values@[i as int]));
        }
        i = i + 1;
    }
    proof {
        assert(values@.take(values.len() as int) == values@);
    }
    Ok(output)
}

proof fn lemma_stream_failure_some_extends(
    values: Seq<Result<usize, TopologyError>>,
    bound: nat,
    k: nat,
    m: nat,
)
    requires
        k <= m,
        stream_failure(values, bound, k) is Some,
    ensures
        stream_failure(values, bound, m) == stream_failure(values, bound, k),
    decreases m - k,
{
    if k < m {
        lemma_stream_failure_some_extends(values, bound, k, (m - 1) as nat);
    }
}

fn collect_exact(
    values: &Vec<Result<usize, TopologyError>>,
    expected: usize,
) -> (r: Result<Vec<usize>, TopologyError>)
    ensures
        match exact_collection(values@, expected as nat) {
            Ok(s) => r matches Ok(v) && v@ == s,
            Err(e) => r == Err::<Vec<usize>, TopologyError>(e),
        },
{
    let output = collect_stream(values, expected)?;
    if output.len() != expected {
        return Err(TopologyError::HalfedgeShape);
    }
    Ok(output)
}

fn collect_bounded(
    values: &Vec<Result<usize, TopologyError>>,
    maximum: usize,
) -> (r: Result<Vec<usize>, TopologyError>)
    ensures
        match bounded_collection(values@, maximum as nat) {
            Ok(s) => r matches Ok(v) && v@ == s,
            Err(e) => r == Err::<Vec<usize>, TopologyError>(e),
        },
{
    collect_stream(values, maximum)
}

fn checked_count(halfedge_count: usize) -> (r: Result<(), TopologyError>)
    ensures
        r is Ok <==> halfedge_count <= max_halfedge_count(),
        r is Err ==> r == Err::<(), TopologyError>(TopologyError::CountOverflow),
{
    if halfedge_count as u64 > 0x7fff_ffff_ffff_ffffu64 {
        return Err(TopologyError::CountOverflow);
    }
    Ok(())
}

pub(crate) fn convert_unsigned(values: &[u128]) -> (r: Vec<Result<usize, TopologyError>>)
    ensures
        r@ == values@.map_values(|v: u128| unsigned_index(v)),
{
    let mut output: Vec<Result<usize, TopologyError>> = Vec::new();
    let mut i: usize = 0;
    while i < values.len()
        invariant
            i <= values.len(),
            output@ == values@.take(i as int).map_values(|v: u128| unsigned_index(v)),
        decreases values.len() - i,
    {
        let value = values[i];
        if value > usize::MAX as u128 {
            output.push(Err(TopologyError::IndexOverflow(value)));
        } else {
            output.push(Ok(value as usize));
        }
        proof {
            assert(values@.take(i + 1) == values@.take(i as int).push(values@[i as int]));
        }
        i = i + 1;
    }
    proof {
        assert(values@.take(values.len() as int) == values@);
    }
    output
}

pub(crate) fn convert_signed(values: &[i128]) -> (r: Vec<Result<usize, TopologyError>>)
    ensures
        r@ == values@.map_values(|v: i128| signed_index(v)),
{
    let mut output: Vec<Result<usize, TopologyError>> = Vec::new();
    let mut i: usize = 0;
    while i < values.len()
        invariant
            i <= values.len(),
            output@ == values@.take(i as int).map_values(|v: i128| signed_index(v)),
        decreases values.len() - i,
    {
        let value = values[i];
        if value < 0 {
            output.push(Err(TopologyError::NegativeIndex(value)));
        } else if value > usize::MAX as i128 {
            output.push(Err(TopologyError::IndexOverflow(value as u128)));
        } else {
            output.push(Ok(value as usize));
        }
        proof {
            assert(values@.take(i + 1) == values@.take(i as int).push(values@[i as int]));
        }
        i = i + 1;
    }
    proof {
        assert(values@.take(values.len() as int) == values@);
    }
    output
}

/// Checked transport payload for one halfedge combinatorial surface.
#[derive(Debug)]
pub struct HalfedgeInput {
    next: Vec<usize>,
    twin: Vec<usize>,
    exterior_seeds: Vec<usize>,
}

impl HalfedgeInput {
    #[verifier::type_invariant]
    closed spec fn shape_inv(&self) -> bool {
        Self::shaped(self.next@, self.twin@, self.exterior_seeds@)
    }

    pub closed spec fn spec_next(&self) -> Seq<usize> {
        self.next@
    }

    pub closed spec fn spec_twin(&self) -> Seq<usize> {
        self.twin@
    }

    pub closed spec fn spec_exterior_seeds(&self) -> Seq<usize> {
        self.exterior_seeds@
    }

    /// Whether three collected relations have the shape of one presentation.
    pub open spec fn shaped(next: Seq<usize>, twin: Seq<usize>, seeds: Seq<usize>) -> bool {
        &&& next.len() <= max_halfedge_count()
        &&& twin.len() == next.len()
        &&& seeds.len() <= next.len()
    }

    /// Consume native-index buffers; the halfedge count is their length, and
    /// the buffers are moved, never copied.
    pub fn native(next: Box<[usize]>, twin: Box<[usize]>, exterior_seeds: Box<[usize]>) -> (r:
        Result<HalfedgeInput, TopologyError>)
        ensures
            next@.len() > max_halfedge_count() ==> r == Err::<HalfedgeInput, TopologyError>(
                TopologyError::CountOverflow,
            ),
            next@.len() <= max_halfedge_count() && !Self::shaped(next@, twin@, exterior_seeds@)
                ==> r == Err::<HalfedgeInput, TopologyError>(TopologyError::HalfedgeShape),
            Self::shaped(next@, twin@, exterior_seeds@) ==> (r matches Ok(input) && Self::holds(
                input,
                next@,
                twin@,
                exterior_seeds@,
            )),
    {
        checked_count(next.len())?;
        if twin.len() != next.len() || exterior_seeds.len() > next.len() {
            return Err(TopologyError::HalfedgeShape);
        }
        Ok(HalfedgeInput {
            next: next.into_vec(),
            twin: twin.into_vec(),
            exterior_seeds: exterior_seeds.into_vec(),
        })
    }

    /// Admit unsigned transport relations into the native index domain.
    pub fn unsigned(next: &[u128], twin: &[u128], exterior_seeds: &[u128], halfedge_count: usize) -> (r:
        Result<HalfedgeInput, TopologyError>)
        ensures
            halfedge_count > max_halfedge_count() ==> r == Err::<HalfedgeInput, TopologyError>(
                TopologyError::CountOverflow,
            ),
            halfedge_count <= max_halfedge_count() ==> Self::checked_result(
                next@.map_values(|v: u128| unsigned_index(v)),
                twin@.map_values(|v: u128| unsigned_index(v)),
                exterior_seeds@.map_values(|v: u128| unsigned_index(v)),
                halfedge_count as nat,
                r,
            ),
    {
        checked_count(halfedge_count)?;
        let next = convert_unsigned(next);
        let twin = convert_unsigned(twin);
        let exterior_seeds = convert_unsigned(exterior_seeds);
        Self::checked(&next, &twin, &exterior_seeds, halfedge_count)
    }

    /// Admit signed transport relations into the native index domain.
    pub fn signed(next: &[i128], twin: &[i128], exterior_seeds: &[i128], halfedge_count: usize) -> (r:
        Result<HalfedgeInput, TopologyError>)
        ensures
            halfedge_count > max_halfedge_count() ==> r == Err::<HalfedgeInput, TopologyError>(
                TopologyError::CountOverflow,
            ),
            halfedge_count <= max_halfedge_count() ==> Self::checked_result(
                next@.map_values(|v: i128| signed_index(v)),
                twin@.map_values(|v: i128| signed_index(v)),
                exterior_seeds@.map_values(|v: i128| signed_index(v)),
                halfedge_count as nat,
                r,
            ),
    {
        checked_count(halfedge_count)?;
        let next = convert_signed(next);
        let twin = convert_signed(twin);
        let exterior_seeds = convert_signed(exterior_seeds);
        Self::checked(&next, &twin, &exterior_seeds, halfedge_count)
    }

    fn checked(
        next: &Vec<Result<usize, TopologyError>>,
        twin: &Vec<Result<usize, TopologyError>>,
        exterior_seeds: &Vec<Result<usize, TopologyError>>,
        halfedge_count: usize,
    ) -> (r: Result<HalfedgeInput, TopologyError>)
        requires
            halfedge_count <= max_halfedge_count(),
        ensures
            Self::checked_result(next@, twin@, exterior_seeds@, halfedge_count as nat, r),
    {
        let next_values = collect_exact(next, halfedge_count)?;
        let twin_values = collect_exact(twin, halfedge_count)?;
        let seed_values = collect_bounded(exterior_seeds, halfedge_count)?;
        proof {
            lemma_stream_failure_none_elements(
                exterior_seeds@,
                halfedge_count as nat,
                exterior_seeds@.len(),
            );
            if exterior_seeds@.len() > halfedge_count {
                assert(exterior_seeds@[halfedge_count as int] is Ok);
            }
        }
        Ok(HalfedgeInput { next: next_values, twin: twin_values, exterior_seeds: seed_values })
    }

    /// Whether `input` holds exactly the three given relations.
    pub open spec fn holds(input: HalfedgeInput, next: Seq<usize>, twin: Seq<usize>, seeds: Seq<
        usize,
    >) -> bool {
        input.spec_next() == next && input.spec_twin() == twin && input.spec_exterior_seeds()
            == seeds
    }

    /// Whether `r` is the admission result of three converted transport streams.
    pub open spec fn checked_result(
        next: Seq<Result<usize, TopologyError>>,
        twin: Seq<Result<usize, TopologyError>>,
        seeds: Seq<Result<usize, TopologyError>>,
        count: nat,
        r: Result<HalfedgeInput, TopologyError>,
    ) -> bool {
        match exact_collection(next, count) {
            Err(e) => r == Err::<HalfedgeInput, TopologyError>(e),
            Ok(n) => match exact_collection(twin, count) {
                Err(e) => r == Err::<HalfedgeInput, TopologyError>(e),
                Ok(t) => match bounded_collection(seeds, count) {
                    Err(e) => r == Err::<HalfedgeInput, TopologyError>(e),
                    Ok(s) => r matches Ok(input) && Self::holds(input, n, t, s),
                },
            },
        }
    }
}

} // verus!

verus! {

/// The vertex rotation `h ↦ next(twin(h))`, whose orbits are the vertices.
pub open spec fn vertex_rotation(next: Seq<usize>, twin: Seq<usize>) -> Seq<usize> {
    Seq::new(next.len(), |h: int| next[twin[h] as int])
}

proof fn lemma_vertex_rotation_permutes(next: Seq<usize>, twin: Seq<usize>)
    requires
        is_permutation(next),
        is_twin_involution(twin),
        twin.len() == next.len(),
    ensures
        is_permutation(vertex_rotation(next, twin)),
{
    let v = vertex_rotation(next, twin);
    assert forall|i: int, j: int| 0 <= i < j < v.len() implies v[i] != v[j] by {
        if twin[i] != twin[j] {
            if twin[i] < twin[j] {
                assert(next[twin[i] as int] != next[twin[j] as int]);
            } else {
                assert(next[twin[j] as int] != next[twin[i] as int]);
            }
        }
    }
}

fn compute_vertex_rotation(next: &Vec<usize>, twin: &Vec<usize>) -> (r: Vec<usize>)
    requires
        is_permutation(next@),
        is_twin_involution(twin@),
        twin@.len() == next@.len(),
    ensures
        r@ == vertex_rotation(next@, twin@),
{
    let n = next.len();
    let mut rotation: Vec<usize> = Vec::new();
    let mut h: usize = 0;
    while h < n
        invariant
            h <= n,
            n == next.len(),
            twin@.len() == n,
            is_permutation(next@),
            is_twin_involution(twin@),
            rotation@ == vertex_rotation(next@, twin@).take(h as int),
        decreases n - h,
    {
        rotation.push(next[twin[h]]);
        proof {
            assert(vertex_rotation(next@, twin@).take(h + 1) == vertex_rotation(next@, twin@).take(
                h as int,
            ).push(next@[twin@[h as int] as int]));
        }
        h = h + 1;
    }
    proof {
        assert(vertex_rotation(next@, twin@).take(n as int) == vertex_rotation(next@, twin@));
    }
    rotation
}

/// Classification of a `next` orbit in halfedge terminology.
#[derive(Clone, Copy, Debug, PartialEq, Eq, Structural)]
pub enum FaceKind {
    Material,
    Exterior,
}

} // verus!

verus! {

/// Whether the face orbit of halfedge `h` is exterior under labels `of` and kinds `kinds`.
pub open spec fn exterior_at(of: Seq<usize>, kinds: Seq<FaceKind>, h: int) -> bool {
    kinds[of[h] as int] == FaceKind::Exterior
}

fn classify_faces(seeds: &Vec<usize>, of: &Vec<usize>, count: usize) -> (r: Result<
    Vec<FaceKind>,
    TopologyError,
>)
    requires
        forall|h: int| 0 <= h < of@.len() ==> #[trigger] of@[h] < count,
    ensures
        r matches Ok(kinds) ==> {
            &&& kinds@.len() == count
            &&& forall|j: int| 0 <= j < seeds@.len() ==> #[trigger] seeds@[j] < of@.len()
            &&& forall|i: int, j: int|
                0 <= i < j < seeds@.len() ==> of@[seeds@[i] as int] != of@[seeds@[j] as int]
            &&& forall|f: int|
                0 <= f < count ==> (#[trigger] kinds@[f] == FaceKind::Exterior <==> exists|j: int|
                    0 <= j < seeds@.len() && of@[#[trigger] seeds@[j] as int] == f)
        },
        r matches Err(e) ==> e is HalfedgeRange || e is ExteriorInconsistency,
        (exists|j: int| 0 <= j < seeds@.len() && #[trigger] seeds@[j] >= of@.len()) ==> r is Err,
        (forall|j: int| 0 <= j < seeds@.len() ==> #[trigger] seeds@[j] < of@.len()) && (forall|i: int, j: int|
            0 <= i < j < seeds@.len() ==> of@[seeds@[i] as int] != of@[seeds@[j] as int]) ==> r is Ok,
{
    let mut kinds: Vec<FaceKind> = Vec::new();
    let mut f: usize = 0;
    while f < count
        invariant
            f <= count,
            kinds@.len() == f,
            forall|g: int| 0 <= g < f ==> kinds@[g] == FaceKind::Material,
        decreases count - f,
    {
        kinds.push(FaceKind::Material);
        f = f + 1;
    }
    let mut j: usize = 0;
    while j < seeds.len()
        invariant
            j <= seeds.len(),
            kinds@.len() == count,
            forall|h: int| 0 <= h < of@.len() ==> #[trigger] of@[h] < count,
            forall|i: int| 0 <= i < j ==> #[trigger] seeds@[i] < of@.len(),
            forall|a: int, b: int| 0 <= a < b < j ==> of@[seeds@[a] as int] != of@[seeds@[b] as int],
            forall|g: int|
                0 <= g < count ==> (#[trigger] kinds@[g] == FaceKind::Exterior <==> exists|i: int|
                    0 <= i < j && of@[#[trigger] seeds@[i] as int] == g),
        decreases seeds.len() - j,
    {
        let seed = seeds[j];
        if seed >= of.len() {
            return Err(TopologyError::HalfedgeRange(HalfedgeRole::ExteriorSeed, seed, seed, of.len()));
        }
        let face = of[seed];
        if kinds[face] == FaceKind::Exterior {
            proof {
                let i = choose|i: int| 0 <= i < j && of@[#[trigger] seeds@[i] as int] == face;
                assert(of@[seeds@[i] as int] == of@[seeds@[j as int] as int]);
            }
            return Err(TopologyError::ExteriorInconsistency(seed, face));
        }
        proof {
            assert forall|a: int| 0 <= a < j implies of@[seeds@[a] as int] != face by {
                if of@[seeds@[a] as int] == face {
                    assert(kinds@[face as int] == FaceKind::Exterior);
                }
            }
        }
        kinds.set(face, FaceKind::Exterior);
        proof {
            assert forall|g: int|
                0 <= g < count implies (#[trigger] kinds@[g] == FaceKind::Exterior <==> exists|i: int|
                    0 <= i < j + 1 && of@[#[trigger] seeds@[i] as int] == g) by {
                if g == face {
                    assert(of@[seeds@[j as int] as int] == g);
                } else {
                    if exists|i: int| 0 <= i < j + 1 && of@[#[trigger] seeds@[i] as int] == g {
                        let i = choose|i: int| 0 <= i < j + 1 && of@[#[trigger] seeds@[i] as int] == g;
                        assert(i < j);
                    }
                }
            }
        }
        j = j + 1;
    }
    proof {
        if exists|i: int| 0 <= i < seeds@.len() && #[trigger] seeds@[i] >= of@.len() {
            let i = choose|i: int| 0 <= i < seeds@.len() && #[trigger] seeds@[i] >= of@.len();
            assert(seeds@[i] < of@.len());
        }
    }
    Ok(kinds)
}

fn check_exterior_edges(
    twin: &Vec<usize>,
    reps: &Vec<usize>,
    edge_of: &Vec<usize>,
    face_of: &Vec<usize>,
    kinds: &Vec<FaceKind>,
) -> (r: Result<(), TopologyError>)
    requires
        is_twin_involution(twin@),
        face_of@.len() == twin@.len(),
        edge_of@.len() == twin@.len(),
        forall|h: int| 0 <= h < twin@.len() ==> #[trigger] face_of@[h] < kinds@.len(),
        forall|o: int| 0 <= o < reps@.len() ==> #[trigger] reps@[o] < twin@.len(),
        forall|h: int| 0 <= h < twin@.len() ==> #[trigger] edge_of@[h] < reps@.len(),
        forall|h: int|
            0 <= h < twin@.len() ==> (h == reps@[edge_of@[h] as int] || h == twin@[reps@[edge_of@[h] as int] as int]),
    ensures
        r is Ok <==> forall|h: int|
            0 <= h < twin@.len() ==> !(exterior_at(face_of@, kinds@, h) && exterior_at(
                face_of@,
                kinds@,
                twin@[h] as int,
            )),
        r matches Err(e) ==> e is ExteriorInconsistency,
{
    let mut e: usize = 0;
    while e < reps.len()
        invariant
            e <= reps.len(),
            is_twin_involution(twin@),
            face_of@.len() == twin@.len(),
            forall|h: int| 0 <= h < twin@.len() ==> #[trigger] face_of@[h] < kinds@.len(),
            forall|o: int| 0 <= o < reps@.len() ==> #[trigger] reps@[o] < twin@.len(),
            forall|o: int|
                0 <= o < e ==> !(exterior_at(face_of@, kinds@, #[trigger] reps@[o] as int) && exterior_at(
                    face_of@,
                    kinds@,
                    twin@[reps@[o] as int] as int,
                )),
        decreases reps.len() - e,
    {
        let h = reps[e];
        let paired = twin[h];
        if kinds[face_of[h]] == FaceKind::Exterior && kinds[face_of[paired]] == FaceKind::Exterior {
            proof {
                assert(exterior_at(face_of@, kinds@, h as int));
            }
            return Err(TopologyError::ExteriorInconsistency(h, paired));
        }
        e = e + 1;
    }
    proof {
        assert forall|h: int| 0 <= h < twin@.len() implies !(exterior_at(face_of@, kinds@, h)
            && exterior_at(face_of@, kinds@, twin@[h] as int)) by {
            let r = reps@[edge_of@[h] as int];
            assert(!(exterior_at(face_of@, kinds@, r as int) && exterior_at(
                face_of@,
                kinds@,
                twin@[r as int] as int,
            )));
            if h != r {
                assert(twin@[h] == r);
            }
        }
    }
    Ok(())
}

/// Link each exterior halfedge to its exterior successor, refusing two
/// exterior halfedges that leave one vertex.
fn link_boundary(
    next: &Vec<usize>,
    vertex_of: &Vec<usize>,
    vertex_count: usize,
    face_of: &Vec<usize>,
    kinds: &Vec<FaceKind>,
) -> (r: Result<Vec<usize>, TopologyError>)
    requires
        vertex_of@.len() == next@.len(),
        face_of@.len() == next@.len(),
        forall|h: int| 0 <= h < next@.len() ==> #[trigger] vertex_of@[h] < vertex_count,
        forall|h: int| 0 <= h < next@.len() ==> #[trigger] face_of@[h] < kinds@.len(),
    ensures
        r is Ok <==> forall|a: int, b: int|
            0 <= a < b < next@.len() && exterior_at(face_of@, kinds@, a) && exterior_at(
                face_of@,
                kinds@,
                b,
            ) ==> vertex_of@[a] != vertex_of@[b],
        r matches Err(e) ==> e is BoundaryCycle,
        r matches Ok(links) ==> links@.len() == next@.len() && forall|h: int|
            0 <= h < next@.len() ==> #[trigger] links@[h] == if exterior_at(face_of@, kinds@, h) {
                next@[h]
            } else {
                UNASSIGNED
            },
{
    let n = next.len();
    let mut exterior_at_vertex: Vec<usize> = Vec::new();
    let mut v: usize = 0;
    while v < vertex_count
        invariant
            v <= vertex_count,
            exterior_at_vertex@.len() == v,
            forall|w: int| 0 <= w < v ==> exterior_at_vertex@[w] == UNASSIGNED,
        decreases vertex_count - v,
    {
        exterior_at_vertex.push(UNASSIGNED);
        v = v + 1;
    }
    let mut links: Vec<usize> = Vec::new();
    let mut h: usize = 0;
    while h < n
        invariant
            h <= n,
            n == next@.len(),
            vertex_of@.len() == n,
            face_of@.len() == n,
            forall|x: int| 0 <= x < n ==> #[trigger] vertex_of@[x] < vertex_count,
            forall|x: int| 0 <= x < n ==> #[trigger] face_of@[x] < kinds@.len(),
            exterior_at_vertex@.len() == vertex_count,
            links@.len() == h,
            forall|x: int|
                0 <= x < h ==> #[trigger] links@[x] == if exterior_at(face_of@, kinds@, x) {
                    next@[x]
                } else {
                    UNASSIGNED
                },
            forall|a: int, b: int|
                0 <= a < b < h && exterior_at(face_of@, kinds@, a) && exterior_at(face_of@, kinds@, b)
                    ==> vertex_of@[a] != vertex_of@[b],
            forall|w: int|
                0 <= w < vertex_count ==> (#[trigger] exterior_at_vertex@[w] != UNASSIGNED <==> exists|a: int|
                    0 <= a < h && exterior_at(face_of@, kinds@, a) && #[trigger] vertex_of@[a] == w),
            forall|w: int|
                0 <= w < vertex_count && #[trigger] exterior_at_vertex@[w] != UNASSIGNED ==> {
                    let a = exterior_at_vertex@[w] as int;
                    0 <= a < h && exterior_at(face_of@, kinds@, a) && vertex_of@[a] == w
                },
        decreases n - h,
    {
        if kinds[face_of[h]] == FaceKind::Exterior {
            let vertex = vertex_of[h];
            if exterior_at_vertex[vertex] != UNASSIGNED {
                proof {
                    let a = exterior_at_vertex@[vertex as int] as int;
                    assert(exterior_at(face_of@, kinds@, h as int));
                    assert(!(forall|a: int, b: int|
                        0 <= a < b < n && exterior_at(face_of@, kinds@, a) && exterior_at(
                            face_of@,
                            kinds@,
                            b,
                        ) ==> vertex_of@[a] != vertex_of@[b]));
                }
                return Err(TopologyError::BoundaryCycle(h, exterior_at_vertex[vertex]));
            }
            proof {
                assert forall|a: int|
                    0 <= a < h && exterior_at(face_of@, kinds@, a) implies vertex_of@[a] != vertex by {
                    if vertex_of@[a] == vertex {
                        assert(exterior_at_vertex@[vertex as int] != UNASSIGNED);
                    }
                }
            }
            exterior_at_vertex.set(vertex, h);
            links.push(next[h]);
        } else {
            links.push(UNASSIGNED);
        }
        proof {
            assert forall|w: int|
                0 <= w < vertex_count implies (#[trigger] exterior_at_vertex@[w] != UNASSIGNED <==> exists|a: int|
                    0 <= a < h + 1 && exterior_at(face_of@, kinds@, a) && #[trigger] vertex_of@[a] == w) by {
                if exists|a: int|
                    0 <= a < h + 1 && exterior_at(face_of@, kinds@, a) && #[trigger] vertex_of@[a] == w {
                    let a = choose|a: int|
                        0 <= a < h + 1 && exterior_at(face_of@, kinds@, a) && #[trigger] vertex_of@[a] == w;
                    if a < h {
                        assert(exterior_at_vertex@[w] != UNASSIGNED);
                    }
                }
                if exterior_at_vertex@[w] != UNASSIGNED && !(exterior_at(face_of@, kinds@, h as int)
                    && vertex_of@[h as int] == w) {
                    let a = choose|a: int|
                        0 <= a < h && exterior_at(face_of@, kinds@, a) && #[trigger] vertex_of@[a] == w;
                    assert(0 <= a < h + 1);
                }
                if exterior_at(face_of@, kinds@, h as int) && vertex_of@[h as int] == w {
                    assert(vertex_of@[h as int] == w);
                }
            }
        }
        h = h + 1;
    }
    Ok(links)
}

} // verus!

verus! {

/// Whether `count` is the number of classes of the finest partition of
/// `0..n` in which both ends of every pair share a class.
pub open spec fn counts_components(pairs: Seq<(int, int)>, n: int, count: int) -> bool {
    exists|rep: Seq<int>|
        #![trigger root_count(rep, n)]
        {
            &&& rep.len() == n
            &&& forall|v: int| 0 <= v < n ==> 0 <= #[trigger] rep[v] < n && rep[rep[v]] == rep[v]
            &&& forall|k: int|
                0 <= k < pairs.len() ==> rep[#[trigger] pairs[k].0] == rep[pairs[k].1]
            &&& forall|f: spec_fn(int) -> int, u: int|
                respects(f, pairs) && 0 <= u < n ==> #[trigger] f(u) == f(rep[u])
            &&& count == root_count(rep, n)
        }
}

/// The vertex pairs joined by the edges of a surface.
pub open spec fn edge_endpoint_pairs(
    vertex_of: Seq<usize>,
    twin: Seq<usize>,
    reps: Seq<usize>,
) -> Seq<(int, int)> {
    Seq::new(
        reps.len(),
        |e: int| (vertex_of[reps[e] as int] as int, vertex_of[twin[reps[e] as int] as int] as int),
    )
}

struct SurfaceFacts {
    boundary_components: usize,
    connected_components: usize,
    euler_characteristic: i64,
    genus: Option<usize>,
}

fn surface_facts(
    vertex_of: &Vec<usize>,
    vertex_count: usize,
    edge_reps: &Vec<usize>,
    twin: &Vec<usize>,
    boundary_components: usize,
    material_faces: usize,
) -> (r: Result<SurfaceFacts, TopologyError>)
    requires
        vertex_of@.len() == twin@.len(),
        forall|h: int| 0 <= h < twin@.len() ==> #[trigger] vertex_of@[h] < vertex_count,
        forall|o: int| 0 <= o < edge_reps@.len() ==> #[trigger] edge_reps@[o] < twin@.len(),
        is_twin_involution(twin@),
    ensures
        r matches Ok(facts) ==> {
            &&& facts.boundary_components == boundary_components
            &&& facts.euler_characteristic == vertex_count - edge_reps@.len() + material_faces
            &&& counts_components(
                edge_endpoint_pairs(vertex_of@, twin@, edge_reps@),
                vertex_count as int,
                facts.connected_components as int,
            )
            &&& facts.genus is Some <==> facts.connected_components == 1
            &&& facts.genus matches Some(g) ==> 2 * g == 2 - boundary_components
                - facts.euler_characteristic
        },
        r matches Err(e) ==> e == TopologyError::CountOverflow || e == TopologyError::InternalInvariant,
        r == Err::<SurfaceFacts, TopologyError>(TopologyError::InternalInvariant) ==> ({
            let numerator = 2 - boundary_components - (vertex_count - edge_reps@.len() + material_faces);
            numerator < 0 || numerator % 2 == 1
        }),
        vertex_count <= i64::MAX && edge_reps@.len() <= i64::MAX && material_faces <= i64::MAX
            && boundary_components <= i64::MAX && -0x8000_0000_0000_0000 <= vertex_count - edge_reps@.len()
            + material_faces <= i64::MAX && vertex_count - edge_reps@.len() <= i64::MAX
            && -0x8000_0000_0000_0000 <= 2 - boundary_components - (vertex_count - edge_reps@.len()
            + material_faces) <= i64::MAX ==> r is Ok || r == Err::<SurfaceFacts, TopologyError>(TopologyError::InternalInvariant),
{
    let mut components = DisjointSet::try_new(vertex_count);
    let ghost pairs = edge_endpoint_pairs(vertex_of@, twin@, edge_reps@);
    let mut e: usize = 0;
    while e < edge_reps.len()
        invariant
            e <= edge_reps.len(),
            components.wf(),
            components.size() == vertex_count,
            components.pairs() == pairs.take(e as int),
            pairs == edge_endpoint_pairs(vertex_of@, twin@, edge_reps@),
            vertex_of@.len() == twin@.len(),
            forall|h: int| 0 <= h < twin@.len() ==> #[trigger] vertex_of@[h] < vertex_count,
            forall|o: int| 0 <= o < edge_reps@.len() ==> #[trigger] edge_reps@[o] < twin@.len(),
            is_twin_involution(twin@),
        decreases edge_reps.len() - e,
    {
        let representative = edge_reps[e];
        let left = vertex_of[representative];
        let right = vertex_of[twin[representative]];
        components.join(left, right);
        proof {
            assert(pairs.take(e + 1) == pairs.take(e as int).push(pairs[e as int]));
        }
        e = e + 1;
    }
    proof {
        assert(pairs.take(edge_reps.len() as int) == pairs);
    }
    let ghost classes = components.classes();
    let mut connected_components: usize = 0;
    let mut v: usize = 0;
    while v < vertex_count
        invariant
            v <= vertex_count,
            components.wf(),
            components.size() == vertex_count,
            components.classes() == classes,
            components.pairs() == pairs,
            connected_components == root_count(classes, v as int),
            connected_components <= v,
        decreases vertex_count - v,
    {
        if components.is_root(v) {
            connected_components = connected_components + 1;
        }
        v = v + 1;
    }
    proof {
        assert(root_count(classes, vertex_count as int) == connected_components);
        assert(counts_components(pairs, vertex_count as int, connected_components as int)) by {
            reveal_components(&components);
        }
    }
    if vertex_count as u64 > 0x7fff_ffff_ffff_ffffu64 || edge_reps.len() as u64 > 0x7fff_ffff_ffff_ffffu64
        || material_faces as u64 > 0x7fff_ffff_ffff_ffffu64 {
        return Err(TopologyError::CountOverflow);
    }
    let vertices = vertex_count as i64;
    let edges = edge_reps.len() as i64;
    let faces = material_faces as i64;
    let euler_characteristic = match vertices.checked_sub(edges) {
        Some(value) => match value.checked_add(faces) {
            Some(value) => value,
            None => return Err(TopologyError::CountOverflow),
        },
        None => return Err(TopologyError::CountOverflow),
    };
    let genus = if connected_components == 1 {
        if boundary_components as u64 > 0x7fff_ffff_ffff_ffffu64 {
            return Err(TopologyError::CountOverflow);
        }
        let boundary = boundary_components as i64;
        let numerator = match 2i64.checked_sub(boundary) {
            Some(value) => match value.checked_sub(euler_characteristic) {
                Some(value) => value,
                None => return Err(TopologyError::CountOverflow),
            },
            None => return Err(TopologyError::CountOverflow),
        };
        if numerator < 0 || numerator % 2 != 0 {
            return Err(TopologyError::InternalInvariant);
        }
        Some((numerator / 2) as usize)
    } else {
        None
    };
    Ok(SurfaceFacts { boundary_components, connected_components, euler_characteristic, genus })
}

proof fn reveal_components(components: &DisjointSet)
    requires
        components.wf(),
    ensures
        counts_components(
            components.pairs(),
            components.size() as int,
            root_count(components.classes(), components.size() as int) as int,
        ),
{
    let rep = components.classes();
    let n = components.size() as int;
    let pairs = components.pairs();
    components.lemma_wf_facts();
    assert(root_count(rep, n) == root_count(rep, n));
}

} // verus!

verus! {

fn material_face_lists(kinds: &Vec<FaceKind>) -> (r: (Vec<usize>, Vec<usize>))
    ensures
        r.1@.len() == kinds@.len(),
        r.0@.len() <= kinds@.len(),
        forall|i: int|
            0 <= i < r.0@.len() ==> #[trigger] r.0@[i] < kinds@.len() && kinds@[r.0@[i] as int]
                == FaceKind::Material && r.1@[r.0@[i] as int] == i,
        forall|i: int, j: int| 0 <= i < j < r.0@.len() ==> #[trigger] r.0@[i] < #[trigger] r.0@[j],
        forall|f: int|
            0 <= f < kinds@.len() ==> (#[trigger] kinds@[f] == FaceKind::Material <==> r.1@[f]
                != UNASSIGNED),
        forall|f: int|
            0 <= f < kinds@.len() && #[trigger] r.1@[f] != UNASSIGNED ==> r.1@[f] < r.0@.len()
                && r.0@[r.1@[f] as int] == f,
{
    let mut material: Vec<usize> = Vec::new();
    let mut of_orbit: Vec<usize> = Vec::new();
    let mut f: usize = 0;
    while f < kinds.len()
        invariant
            f <= kinds.len(),
            of_orbit@.len() == f,
            material@.len() <= f,
            forall|i: int|
                0 <= i < material@.len() ==> #[trigger] material@[i] < f && kinds@[material@[i] as int]
                    == FaceKind::Material && of_orbit@[material@[i] as int] == i,
            forall|i: int, j: int| 0 <= i < j < material@.len() ==> #[trigger] material@[i] < #[trigger] material@[j],
            forall|g: int|
                0 <= g < f ==> (#[trigger] kinds@[g] == FaceKind::Material <==> of_orbit@[g] != UNASSIGNED),
            forall|g: int|
                0 <= g < f && #[trigger] of_orbit@[g] != UNASSIGNED ==> of_orbit@[g] < material@.len()
                    && material@[of_orbit@[g] as int] == g,
        decreases kinds.len() - f,
    {
        if kinds[f] == FaceKind::Material {
            of_orbit.push(material.len());
            material.push(f);
        } else {
            of_orbit.push(UNASSIGNED);
        }
        f = f + 1;
    }
    (material, of_orbit)
}

/// The members of face orbit `f` are halfedges that `next` walks in order,
/// from the last back to the first.
proof fn lemma_face_orbit_facts(faces: &OrbitIndex, next: Seq<usize>, f: int)
    requires
        faces.wf(next),
        0 <= f < faces.count_spec(),
    ensures
        0 <= faces.offsets@[f] < faces.offsets@[f + 1] <= faces.halfedges@.len(),
        forall|p: int| faces.offsets@[f] <= p < faces.offsets@[f + 1] ==> #[trigger] faces.halfedges@[p] < next.len(),
        forall|p: int|
            faces.offsets@[f] <= p < faces.offsets@[f + 1] - 1 ==> #[trigger] next[faces.halfedges@[p] as int]
                == faces.halfedges@[p + 1],
        next[faces.halfedges@[faces.offsets@[f + 1] - 1] as int] == faces.halfedges@[faces.offsets@[f] as int],
{
    faces.lemma_wf_facts(next);
    assert(faces.offsets@[f] < faces.offsets@[f + 1]);
    assert forall|p: int| faces.offsets@[f] <= p < faces.offsets@[f + 1] implies #[trigger] faces.halfedges@[p]
        < next.len() by {
        assert(faces.offsets@[f] <= p < faces.offsets@[f + 1]);
    }
    assert forall|p: int| faces.offsets@[f] <= p < faces.offsets@[f + 1] - 1 implies #[trigger] next[faces.halfedges@[p] as int]
        == faces.halfedges@[p + 1] by {
        assert(faces.offsets@[f] <= p < faces.offsets@[f + 1] - 1);
    }
}

/// The vertex of `next(twin(h))` is the vertex of `h`.
proof fn lemma_rotation_facts(vertices: &OrbitIndex, next: Seq<usize>, twin: Seq<usize>)
    requires
        vertices.wf(vertex_rotation(next, twin)),
    ensures
        forall|h: int|
            0 <= h < next.len() ==> #[trigger] vertices.of_halfedge@[next[twin[h] as int] as int]
                == vertices.of_halfedge@[h],
{
    let rotation = vertex_rotation(next, twin);
    vertices.lemma_wf_facts(rotation);
    assert forall|h: int| 0 <= h < next.len() implies #[trigger] vertices.of_halfedge@[next[twin[h] as int] as int]
        == vertices.of_halfedge@[h] by {
        assert(rotation[h] == next[twin[h] as int]);
        assert(vertices.of_halfedge@[rotation[h] as int] == vertices.of_halfedge@[h]);
    }
}

/// Every halfedge is the representative of its edge or the twin of it.
proof fn lemma_edge_facts(edges: &EdgeIndex, twin: Seq<usize>)
    requires
        edges.wf(twin),
    ensures
        forall|h: int|
            0 <= h < twin.len() ==> #[trigger] edges.of_halfedge@[h] < edges.representatives@.len() && (h
                == edges.representatives@[edges.of_halfedge@[h] as int] || h == twin[edges.representatives@[edges.of_halfedge@[h] as int] as int]),
        forall|e: int| 0 <= e < edges.representatives@.len() ==> #[trigger] edges.representatives@[e] < twin.len(),
        edges.of_halfedge@.len() == twin.len(),
        2 * edges.representatives@.len() == twin.len(),
{
    edges.lemma_wf_facts(twin);
}

/// The bounds of the orbit tables that the chain of a surface reads.
proof fn lemma_chain_inputs(
    next: Seq<usize>,
    twin: Seq<usize>,
    faces: &OrbitIndex,
    edges: &EdgeIndex,
    vertices: &OrbitIndex,
    rotation: Seq<usize>,
)
    requires
        faces.wf(next),
        edges.wf(twin),
        vertices.wf(rotation),
        rotation.len() == next.len(),
        twin.len() == next.len(),
    ensures
        crate::orbit::segments_wf(faces.offsets@, faces.count_spec(), next.len() as int),
        faces.halfedges@.len() == next.len(),
        forall|p: int| 0 <= p < next.len() ==> #[trigger] faces.halfedges@[p] < next.len(),
        faces.offsets@.len() == faces.count_spec() + 1,
        edges.of_halfedge@.len() == next.len(),
        2 * edges.representatives@.len() == next.len(),
        forall|e: int| 0 <= e < edges.representatives@.len() ==> #[trigger] edges.representatives@[e] < next.len(),
        forall|h: int| 0 <= h < next.len() ==> #[trigger] edges.of_halfedge@[h] < edges.representatives@.len(),
        vertices.of_halfedge@.len() == next.len(),
        vertices.representatives@.len() <= next.len(),
        forall|h: int| 0 <= h < next.len() ==> #[trigger] vertices.of_halfedge@[h] < vertices.representatives@.len(),
{
    faces.lemma_wf_facts(next);
    edges.lemma_wf_facts(twin);
    vertices.lemma_wf_facts(rotation);
    reveal(OrbitIndex::wf_parts);
}

/// The chain of a surface from its validated orbit tables.
#[verifier::rlimit(100)]
fn surface_chain_of(
    next: &Vec<usize>,
    twin: &Vec<usize>,
    vertices: &OrbitIndex,
    edges: &EdgeIndex,
    faces: &OrbitIndex,
    material_faces: &Vec<usize>,
) -> (r: Result<SurfaceChain, TopologyError>)
    requires
        next@.len() <= max_halfedge_count(),
        twin@.len() == next@.len(),
        is_twin_involution(twin@),
        crate::orbit::segments_wf(faces.offsets@, faces.count_spec(), next@.len() as int),
        faces.halfedges@.len() == next@.len(),
        forall|p: int| 0 <= p < next@.len() ==> #[trigger] faces.halfedges@[p] < next@.len(),
        faces.offsets@.len() == faces.count_spec() + 1,
        edges.of_halfedge@.len() == next@.len(),
        2 * edges.representatives@.len() == next@.len(),
        forall|e: int| 0 <= e < edges.representatives@.len() ==> #[trigger] edges.representatives@[e] < next@.len(),
        forall|h: int| 0 <= h < next@.len() ==> #[trigger] edges.of_halfedge@[h] < edges.representatives@.len(),
        vertices.of_halfedge@.len() == next@.len(),
        vertices.representatives@.len() <= next@.len(),
        forall|h: int| 0 <= h < next@.len() ==> #[trigger] vertices.of_halfedge@[h] < vertices.representatives@.len(),
        forall|i: int| 0 <= i < material_faces@.len() ==> #[trigger] material_faces@[i] < faces.count_spec(),
        forall|i: int, j: int|
            0 <= i < j < material_faces@.len() ==> #[trigger] material_faces@[i] < #[trigger] material_faces@[j],
    ensures
        r matches Ok(chain) && surface_chain_holds(
            chain,
            vertices.of_halfedge@,
            twin@,
            edges.representatives@,
            edges.of_halfedge@,
            faces.offsets@,
            faces.halfedges@,
            material_faces@,
            vertices.count_spec(),
        ),
{
    proof {
        assert(faces.offsets@.len() - 1 == faces.count_spec());
    }
    build_surface_chain(
        next.len(),
        vertices.of_halfedge.as_slice(),
        vertices.representatives.len(),
        twin.as_slice(),
        edges.representatives.as_slice(),
        edges.of_halfedge.as_slice(),
        faces.offsets.as_slice(),
        faces.halfedges.as_slice(),
        material_faces.as_slice(),
    )
}


/// Whether the representatives of an orbit index increase with the orbit
/// number and each is the least halfedge of its orbit.
pub(crate) open spec fn least_representatives(index: &OrbitIndex, n: int) -> bool {
    &&& forall|o: int, q: int| 0 <= o < q < index.representatives@.len() ==> #[trigger] index.representatives@[o]
        < #[trigger] index.representatives@[q]
    &&& forall|h: int| 0 <= h < n ==> index.representatives@[#[trigger] index.of_halfedge@[h] as int] <= h
}

/// The Euler numerator `2 - b - χ` of a presentation, twice the genus of a
/// connected surface: two, less the `next` cycles (faces) and the rotation
/// cycles (vertices), plus the edges, half the halfedges.
pub open spec fn euler_numerator(next: Seq<usize>, twin: Seq<usize>) -> int {
    2 - cycle_count(next) - cycle_count(vertex_rotation(next, twin)) + next.len() / 2
}

/// Whether halfedge `h` shares a face orbit, by the orbit labels `of`, with
/// an exterior seed.
pub open spec fn seeded_face(of: Seq<usize>, seeds: Seq<usize>, h: int) -> bool {
    exists|j: int| 0 <= j < seeds.len() && #[trigger] of[seeds[j] as int] == of[h]
}

/// Classify the faces of a validated presentation, link its boundary, count
/// its facts and build its chain.
#[verifier::spinoff_prover]
#[verifier::rlimit(100)]
fn assemble_surface(
    next: Vec<usize>,
    twin: Vec<usize>,
    exterior_seeds: Vec<usize>,
    faces: OrbitIndex,
    edges: EdgeIndex,
    vertices: OrbitIndex,
    Ghost(rotation): Ghost<Seq<usize>>,
    enumerations: usize,
) -> (r: Result<HalfedgeSurfaceCore, TopologyError>)
    requires
        next@.len() <= max_halfedge_count(),
        twin@.len() == next@.len(),
        exterior_seeds@.len() <= next@.len(),
        is_permutation(next@),
        is_twin_involution(twin@),
        rotation == vertex_rotation(next@, twin@),
        faces.wf(next@),
        edges.wf(twin@),
        vertices.wf(rotation),
        enumerations == 3,
        least_representatives(&faces, next@.len() as int),
        least_representatives(&vertices, next@.len() as int),
        forall|o: int, q: int| 0 <= o < q < edges.representatives@.len() ==> #[trigger] edges.representatives@[o]
            < #[trigger] edges.representatives@[q],
    ensures
        (exists|j: int| 0 <= j < exterior_seeds@.len() && #[trigger] exterior_seeds@[j] >= next@.len()) ==> r is Err,
        r matches Ok(core) ==> {
            &&& core.wf()
            &&& core.next_rel() == next@
            &&& core.twin_rel() == twin@
            &&& core.face_of() == faces.of_halfedge@
            &&& core.vertex_of() == vertices.of_halfedge@
            &&& forall|j: int| 0 <= j < exterior_seeds@.len() ==> core.is_exterior(#[trigger] exterior_seeds@[j] as int)
            &&& forall|h: int|
                0 <= h < core.size() ==> (core.is_exterior(h) <==> seeded_face(faces.of_halfedge@, exterior_seeds@, h))
            &&& forall|i: int, j: int|
                0 <= i < j < exterior_seeds@.len() ==> core.face_of()[exterior_seeds@[i] as int]
                    != core.face_of()[exterior_seeds@[j] as int]
        },
        ({
            let of = faces.of_halfedge@;
            let seeds = exterior_seeds@;
            let n = next@.len() as int;
            &&& n <= 0x3fff_ffff_ffff_ffff
            &&& forall|j: int| 0 <= j < seeds.len() ==> #[trigger] seeds[j] < n
            &&& forall|i: int, j: int| 0 <= i < j < seeds.len() ==> of[seeds[i] as int] != of[seeds[j] as int]
            &&& forall|h: int| 0 <= h < n ==> !(seeded_face(of, seeds, h) && seeded_face(of, seeds, #[trigger] twin@[h] as int))
            &&& forall|a: int, b: int|
                0 <= a < b < n && seeded_face(of, seeds, a) && seeded_face(of, seeds, b) ==> #[trigger] vertices.of_halfedge@[a]
                    != #[trigger] vertices.of_halfedge@[b]
        }) ==> (r is Ok || r == Err::<HalfedgeSurfaceCore, TopologyError>(TopologyError::InternalInvariant)),
        r == Err::<HalfedgeSurfaceCore, TopologyError>(TopologyError::InternalInvariant) ==> ({
            let numerator = 2 - faces.representatives@.len() - vertices.representatives@.len()
                + edges.representatives@.len();
            numerator < 0 || numerator % 2 == 1
        }),
{
    proof {
        faces.lemma_wf_facts(next@);
        vertices.lemma_wf_facts(rotation);
        edges.lemma_wf_facts(twin@);
    }
        let face_count = faces.representatives.len();
        let face_kinds = classify_faces(&exterior_seeds, &faces.of_halfedge, face_count)?;
        check_exterior_edges(
            &twin,
            &edges.representatives,
            &edges.of_halfedge,
            &faces.of_halfedge,
            &face_kinds,
        )?;
        let vertex_count = vertices.representatives.len();
        let boundary_next = link_boundary(
            &next,
            &vertices.of_halfedge,
            vertex_count,
            &faces.of_halfedge,
            &face_kinds,
        )?;
        let (material_faces, material_face_of_orbit) = material_face_lists(&face_kinds);
        let facts = surface_facts(
            &vertices.of_halfedge,
            vertex_count,
            &edges.representatives,
            &twin,
            face_count - material_faces.len(),
            material_faces.len(),
        )?;
        proof {
            lemma_chain_inputs(next@, twin@, &faces, &edges, &vertices, rotation);
        }
        let mut projections: usize = 0;
        let chain = surface_chain_of(&next, &twin, &vertices, &edges, &faces, &material_faces)?;
        projections = projections + 1;
        let core = HalfedgeSurfaceCore {
            next,
            twin,
            boundary_next,
            vertices,
            edges,
            faces,
            face_kinds,
            material_faces,
            material_face_of_orbit,
            chain,
            facts,
            orbit_enumerations: enumerations,
            chain_projections: projections,
        };
    proof {
        assert forall|h: int| 0 <= h < core.size() implies (core.is_exterior(h) <==> seeded_face(
            faces.of_halfedge@,
            exterior_seeds@,
            h,
        )) by {
            assert(core.face_kinds@[core.faces.of_halfedge@[h] as int] == FaceKind::Exterior <==> exists|j: int|
                0 <= j < exterior_seeds@.len() && core.faces.of_halfedge@[#[trigger] exterior_seeds@[j] as int]
                    == core.faces.of_halfedge@[h]);
        }
    }
    Ok(core)
}


/// A fixed-point-free involution is a permutation.
proof fn lemma_involution_permutes(twin: Seq<usize>)
    requires
        is_twin_involution(twin),
    ensures
        is_permutation(twin),
{
    assert forall|i: int, j: int| 0 <= i < j < twin.len() implies twin[i] != twin[j] by {
        if twin[i] == twin[j] {
            assert(twin[twin[i] as int] == i);
            assert(twin[twin[j] as int] == j);
        }
    }
}

/// An admissible presentation meets, on its orbit tables, the conditions that
/// assembly checks.
proof fn lemma_admissible_orbits(
    next: Seq<usize>,
    twin: Seq<usize>,
    seeds: Seq<usize>,
    faces: &OrbitIndex,
    vertices: &OrbitIndex,
    rotation: Seq<usize>,
)
    requires
        HalfedgeSurfaceCore::admissible(next, twin, seeds),
        rotation == vertex_rotation(next, twin),
        is_permutation(rotation),
        faces.wf(next),
        vertices.wf(rotation),
    ensures
        ({
            let of = faces.of_halfedge@;
            let n = next.len() as int;
            &&& forall|i: int, j: int| 0 <= i < j < seeds.len() ==> of[seeds[i] as int] != of[seeds[j] as int]
            &&& forall|h: int| 0 <= h < n ==> !(seeded_face(of, seeds, h) && seeded_face(of, seeds, #[trigger] twin[h] as int))
            &&& forall|a: int, b: int|
                0 <= a < b < n && seeded_face(of, seeds, a) && seeded_face(of, seeds, b) ==> #[trigger] vertices.of_halfedge@[a]
                    != #[trigger] vertices.of_halfedge@[b]
        }),
{
    let of = faces.of_halfedge@;
    let n = next.len() as int;
    assert forall|h: int| 0 <= h < n implies #[trigger] seeded_face(of, seeds, h) == HalfedgeSurfaceCore::seeded(next, seeds, h) by {
        if seeded_face(of, seeds, h) {
            let j = choose|j: int| 0 <= j < seeds.len() && #[trigger] of[seeds[j] as int] == of[h];
            crate::cycle::lemma_same_orbit(faces, next, seeds[j] as int, h);
        }
        if HalfedgeSurfaceCore::seeded(next, seeds, h) {
            let j = choose|j: int| 0 <= j < seeds.len() && #[trigger] same_orbit(next, seeds[j] as int, h);
            crate::cycle::lemma_same_orbit(faces, next, seeds[j] as int, h);
            assert(of[seeds[j] as int] == of[h]);
        }
    }
    assert forall|i: int, j: int| 0 <= i < j < seeds.len() implies of[seeds[i] as int] != of[seeds[j] as int] by {
        crate::cycle::lemma_same_orbit(faces, next, seeds[i] as int, seeds[j] as int);
        assert(!same_orbit(next, seeds[i] as int, seeds[j] as int));
    }
    assert forall|h: int| 0 <= h < n implies !(seeded_face(of, seeds, h) && seeded_face(of, seeds, #[trigger] twin[h] as int)) by {
        assert(seeded_face(of, seeds, twin[h] as int) == HalfedgeSurfaceCore::seeded(next, seeds, twin[h] as int));
    }
    assert forall|a: int, b: int|
        0 <= a < b < n && seeded_face(of, seeds, a) && seeded_face(of, seeds, b) implies #[trigger] vertices.of_halfedge@[a]
            != #[trigger] vertices.of_halfedge@[b] by {
        crate::cycle::lemma_same_orbit(vertices, rotation, a, b);
        assert(!same_orbit(rotation, a, b));
    }
}

/// Immutable authority for one admitted orientable halfedge surface.
pub struct HalfedgeSurfaceCore {
    next: Vec<usize>,
    twin: Vec<usize>,
    boundary_next: Vec<usize>,
    vertices: OrbitIndex,
    edges: EdgeIndex,
    faces: OrbitIndex,
    face_kinds: Vec<FaceKind>,
    material_faces: Vec<usize>,
    material_face_of_orbit: Vec<usize>,
    chain: SurfaceChain,
    facts: SurfaceFacts,
    orbit_enumerations: usize,
    chain_projections: usize,
}

impl HalfedgeSurfaceCore {
    /// Number of halfedges.
    pub closed spec fn size(&self) -> int {
        self.next@.len() as int
    }

    pub closed spec fn next_rel(&self) -> Seq<usize> {
        self.next@
    }

    pub closed spec fn twin_rel(&self) -> Seq<usize> {
        self.twin@
    }

    /// Vertex orbit of each halfedge.
    pub closed spec fn vertex_of(&self) -> Seq<usize> {
        self.vertices.of_halfedge@
    }

    /// Edge orbit of each halfedge.
    pub closed spec fn edge_of(&self) -> Seq<usize> {
        self.edges.of_halfedge@
    }

    /// Face (`next`) orbit of each halfedge.
    pub closed spec fn face_of(&self) -> Seq<usize> {
        self.faces.of_halfedge@
    }

    /// Kind of each face orbit.
    pub closed spec fn kinds(&self) -> Seq<FaceKind> {
        self.face_kinds@
    }

    /// Face orbit of each material face, in increasing orbit order.
    pub closed spec fn material_orbits(&self) -> Seq<usize> {
        self.material_faces@
    }

    /// Material-face index of each face orbit, or `UNASSIGNED` for exterior orbits.
    pub closed spec fn material_index(&self) -> Seq<usize> {
        self.material_face_of_orbit@
    }

    /// Exterior successor of each halfedge, or `UNASSIGNED` for material halfedges.
    pub closed spec fn boundary_links(&self) -> Seq<usize> {
        self.boundary_next@
    }

    pub closed spec fn vertex_total(&self) -> int {
        self.vertices.count_spec()
    }

    pub closed spec fn edge_total(&self) -> int {
        self.edges.count_spec()
    }

    pub closed spec fn face_total(&self) -> int {
        self.faces.count_spec()
    }

    /// The halfedges of vertex `v`, in rotation order from its representative.
    pub closed spec fn vertex_members(&self, v: int) -> Seq<usize> {
        self.vertices.members_spec(v)
    }

    /// The two halfedges of edge `e`: its representative, then its twin.
    pub closed spec fn edge_members(&self, e: int) -> Seq<usize> {
        self.edges.halfedges@.subrange(self.edges.offsets@[e] as int, self.edges.offsets@[e + 1] as int)
    }

    /// The halfedges of face orbit `f`, in `next` order from its representative.
    pub closed spec fn face_members(&self, f: int) -> Seq<usize> {
        self.faces.members_spec(f)
    }

    /// Packed orbit offsets of vertices (`0`), edges (`1`), or faces (`2`).
    pub closed spec fn packed_offsets(&self, which: int) -> Seq<usize> {
        if which == 0 {
            self.vertices.offsets@
        } else if which == 1 {
            self.edges.offsets@
        } else {
            self.faces.offsets@
        }
    }

    /// Packed orbit members of vertices (`0`), edges (`1`), or faces (`2`).
    pub closed spec fn packed_halfedges(&self, which: int) -> Seq<usize> {
        if which == 0 {
            self.vertices.halfedges@
        } else if which == 1 {
            self.edges.halfedges@
        } else {
            self.faces.halfedges@
        }
    }

    pub closed spec fn vertex_representatives(&self) -> Seq<usize> {
        self.vertices.representatives@
    }

    pub closed spec fn edge_representatives(&self) -> Seq<usize> {
        self.edges.representatives@
    }

    pub closed spec fn face_representatives(&self) -> Seq<usize> {
        self.faces.representatives@
    }

    pub closed spec fn spec_boundary_components(&self) -> int {
        self.facts.boundary_components as int
    }

    pub closed spec fn spec_connected_components(&self) -> int {
        self.facts.connected_components as int
    }

    pub closed spec fn spec_euler_characteristic(&self) -> int {
        self.facts.euler_characteristic as int
    }

    pub closed spec fn spec_genus(&self) -> Option<usize> {
        self.facts.genus
    }

    pub closed spec fn spec_orbit_enumerations(&self) -> int {
        self.orbit_enumerations as int
    }

    pub closed spec fn spec_chain_projections(&self) -> int {
        self.chain_projections as int
    }

    /// The retained boundaries of the surface's chain.
    pub closed spec fn spec_chain(&self) -> SurfaceChain {
        self.chain
    }

    /// Whether halfedge `h` lies on an exterior face orbit.
    pub open spec fn is_exterior(&self, h: int) -> bool {
        self.kinds()[self.face_of()[h] as int] == FaceKind::Exterior
    }

    /// Admission invariant of a halfedge surface.
    #[verifier::type_invariant]
    pub closed spec fn wf(&self) -> bool {
        let n = self.next@.len() as int;
        &&& n <= max_halfedge_count()
        &&& self.twin@.len() == n
        &&& self.boundary_next@.len() == n
        &&& is_permutation(self.next@)
        &&& is_twin_involution(self.twin@)
        &&& self.faces.wf(self.next@)
        &&& self.edges.wf(self.twin@)
        &&& self.vertices.wf(vertex_rotation(self.next@, self.twin@))
        &&& self.face_kinds@.len() == self.faces.count_spec()
        &&& self.material_face_of_orbit@.len() == self.faces.count_spec()
        &&& self.material_faces@.len() <= self.faces.count_spec()
        &&& forall|i: int|
            0 <= i < self.material_faces@.len() ==> #[trigger] self.material_faces@[i]
                < self.faces.count_spec() && self.face_kinds@[self.material_faces@[i] as int]
                == FaceKind::Material && self.material_face_of_orbit@[self.material_faces@[i] as int] == i
        &&& forall|i: int, j: int|
            0 <= i < j < self.material_faces@.len() ==> #[trigger] self.material_faces@[i]
                < #[trigger] self.material_faces@[j]
        &&& forall|f: int|
            0 <= f < self.faces.count_spec() ==> (#[trigger] self.face_kinds@[f] == FaceKind::Material
                <==> self.material_face_of_orbit@[f] != UNASSIGNED)
        &&& forall|f: int|
            0 <= f < self.faces.count_spec() && #[trigger] self.material_face_of_orbit@[f] != UNASSIGNED
                ==> self.material_face_of_orbit@[f] < self.material_faces@.len()
                && self.material_faces@[self.material_face_of_orbit@[f] as int] == f
        &&& forall|h: int|
            0 <= h < n ==> #[trigger] self.boundary_next@[h] == if self.face_kinds@[self.faces.of_halfedge@[h] as int]
                == FaceKind::Exterior {
                self.next@[h]
            } else {
                UNASSIGNED
            }
        &&& forall|h: int|
            0 <= h < n ==> !(exterior_at(self.faces.of_halfedge@, self.face_kinds@, h) && exterior_at(
                self.faces.of_halfedge@,
                self.face_kinds@,
                #[trigger] self.twin@[h] as int,
            ))
        &&& forall|a: int, b: int|
            0 <= a < b < n && exterior_at(self.faces.of_halfedge@, self.face_kinds@, a) && exterior_at(
                self.faces.of_halfedge@,
                self.face_kinds@,
                b,
            ) ==> #[trigger] self.vertices.of_halfedge@[a] != #[trigger] self.vertices.of_halfedge@[b]
        &&& self.facts.boundary_components == self.faces.count_spec() - self.material_faces@.len()
        &&& self.facts.euler_characteristic == self.vertices.count_spec() - self.edges.count_spec()
            + self.material_faces@.len()
        &&& counts_components(
            edge_endpoint_pairs(self.vertices.of_halfedge@, self.twin@, self.edges.representatives@),
            self.vertices.count_spec(),
            self.facts.connected_components as int,
        )
        &&& (self.facts.genus is Some <==> self.facts.connected_components == 1)
        &&& (self.facts.genus matches Some(g) ==> 2 * g == 2 - self.facts.boundary_components
            - self.facts.euler_characteristic)
        &&& self.orbit_enumerations == 3
        &&& self.chain_projections == 1
        &&& least_representatives(&self.faces, n)
        &&& least_representatives(&self.vertices, n)
        &&& forall|o: int, q: int| 0 <= o < q < self.edges.representatives@.len() ==> #[trigger] self.edges.representatives@[o]
            < #[trigger] self.edges.representatives@[q]
        &&& surface_chain_holds(
            self.chain,
            self.vertices.of_halfedge@,
            self.twin@,
            self.edges.representatives@,
            self.edges.of_halfedge@,
            self.faces.offsets@,
            self.faces.halfedges@,
            self.material_faces@,
            self.vertices.count_spec(),
        )
    }

    /// Whether halfedge `h` lies on the `next` cycle of an exterior seed.
    pub open spec fn seeded(next: Seq<usize>, seeds: Seq<usize>, h: int) -> bool {
        exists|j: int| 0 <= j < seeds.len() && #[trigger] same_orbit(next, seeds[j] as int, h)
    }

    /// Whether a presentation passes every admission check: `next` is a
    /// permutation, `twin` a fixed-point-free involution of the same length,
    /// the seeds are halfedges on distinct `next` cycles, no edge has both of
    /// its halfedges on seeded cycles, and no cycle of the rotation
    /// `h ↦ next(twin(h))` holds two halfedges on seeded cycles.
    pub open spec fn admissible(next: Seq<usize>, twin: Seq<usize>, seeds: Seq<usize>) -> bool {
        let n = next.len() as int;
        &&& is_permutation(next)
        &&& twin.len() == next.len()
        &&& is_twin_involution(twin)
        &&& forall|j: int| 0 <= j < seeds.len() ==> #[trigger] seeds[j] < n
        &&& forall|i: int, j: int| 0 <= i < j < seeds.len() ==> !same_orbit(next, #[trigger] seeds[i] as int, #[trigger] seeds[j] as int)
        &&& forall|h: int| 0 <= h < n ==> !(Self::seeded(next, seeds, h) && Self::seeded(next, seeds, #[trigger] twin[h] as int))
        &&& forall|a: int, b: int|
            0 <= a < b < n && Self::seeded(next, seeds, a) && Self::seeded(next, seeds, b) ==> !#[trigger] same_orbit(
                vertex_rotation(next, twin),
                a,
                b,
            )
    }

    /// Admit one checked permutation presentation into an immutable owner.
    ///
    /// Admission validates `next` as a permutation, `twin` as a
    /// fixed-point-free involution, each exterior seed as a halfedge on a
    /// distinct face orbit, no edge with both sides exterior, and no vertex
    /// with two exterior halfedges.
    pub fn admit_presentation(input: HalfedgeInput) -> (r: Result<Arc<HalfedgeSurfaceCore>, TopologyError>)
        ensures
            match permutation_failure(HalfedgeRole::Next, input.spec_next(), input.spec_next().len()) {
                Some(e) => r == Err::<Arc<HalfedgeSurfaceCore>, TopologyError>(e),
                None => true,
            },
            permutation_failure(HalfedgeRole::Next, input.spec_next(), input.spec_next().len()) is None
                && input.spec_twin().len() == input.spec_next().len() ==> match permutation_failure(
                HalfedgeRole::Twin,
                input.spec_twin(),
                input.spec_twin().len(),
            ) {
                Some(e) => r == Err::<Arc<HalfedgeSurfaceCore>, TopologyError>(e),
                None => !is_twin_involution(input.spec_twin()) ==> (r matches Err(e) && twin_law_refusal(
                    input.spec_twin(),
                    e,
                )),
            },
            (exists|j: int|
                0 <= j < input.spec_exterior_seeds().len() && #[trigger] input.spec_exterior_seeds()[j]
                    >= input.spec_next().len()) ==> r is Err,
            Self::admissible(input.spec_next(), input.spec_twin(), input.spec_exterior_seeds())
                && input.spec_next().len() <= 0x3fff_ffff_ffff_ffff ==> r is Ok || r == Err::<
                Arc<HalfedgeSurfaceCore>,
                TopologyError,
            >(TopologyError::InternalInvariant),
            r == Err::<Arc<HalfedgeSurfaceCore>, TopologyError>(TopologyError::InternalInvariant) ==> ({
                let numerator = euler_numerator(input.spec_next(), input.spec_twin());
                numerator < 0 || numerator % 2 == 1
            }),
            r matches Ok(core) ==> core.wf(),
            r matches Ok(core) ==> core.next_rel() == input.spec_next(),
            r matches Ok(core) ==> core.twin_rel() == input.spec_twin(),
            r matches Ok(core) ==> forall|j: int|
                0 <= j < input.spec_exterior_seeds().len() ==> core.is_exterior(
                    #[trigger] input.spec_exterior_seeds()[j] as int,
                ),
            r matches Ok(core) ==> forall|h: int|
                0 <= h < core.size() && core.is_exterior(h) ==> exists|j: int|
                    0 <= j < input.spec_exterior_seeds().len() && core.face_of()[h]
                        == core.face_of()[#[trigger] input.spec_exterior_seeds()[j] as int],
            r matches Ok(core) ==> forall|i: int, j: int|
                0 <= i < j < input.spec_exterior_seeds().len() ==> core.face_of()[input.spec_exterior_seeds()[i] as int]
                    != core.face_of()[input.spec_exterior_seeds()[j] as int],
    {
        proof {
            use_type_invariant(&input);
        }
        let ghost input_seeds = input.spec_exterior_seeds();
        let HalfedgeInput { next, twin, exterior_seeds } = input;
        assert(exterior_seeds@ == input_seeds);
        validate_permutation(HalfedgeRole::Next, &next)?;
        let mut enumerations: usize = 0;
        proof {
            if is_twin_involution(twin@) && twin@.len() == next@.len() {
                lemma_involution_permutes(twin@);
                lemma_permutation_failure_iff(HalfedgeRole::Twin, twin@);
            }
        }
        let edges = EdgeIndex::validated(&twin)?;
        enumerations = enumerations + 1;
        proof {
            lemma_permutes(next@);
        }
        let faces = OrbitIndex::enumerate(&next);
        enumerations = enumerations + 1;
        let rotation = compute_vertex_rotation(&next, &twin);
        proof {
            lemma_vertex_rotation_permutes(next@, twin@);
            lemma_permutes(rotation@);
        }
        let vertices = OrbitIndex::enumerate(&rotation);
        enumerations = enumerations + 1;
        let ghost face_of = faces.of_halfedge@;
        let ghost vertex_of = vertices.of_halfedge@;
        let ghost seeds = exterior_seeds@;
        proof {
            if Self::admissible(next@, twin@, seeds) {
                lemma_admissible_orbits(next@, twin@, seeds, &faces, &vertices, rotation@);
            }
        }
        let ghost numerator = 2 - faces.representatives@.len() - vertices.representatives@.len()
            + edges.representatives@.len();
        proof {
            assert(next@.len() == next.len());
            lemma_representatives_count(&faces, next@);
            lemma_representatives_count(&vertices, rotation@);
            lemma_edge_facts(&edges, twin@);
            assert(numerator == euler_numerator(next@, twin@));
        }
        let core = assemble_surface(next, twin, exterior_seeds, faces, edges, vertices, Ghost(rotation@), enumerations)?;
        proof {
            assert(core.face_of() == face_of);
            assert(core.size() == next@.len());
            assert forall|h: int| 0 <= h < core.size() && core.is_exterior(h) implies exists|j: int|
                0 <= j < input_seeds.len() && core.face_of()[h] == core.face_of()[#[trigger] input_seeds[j] as int] by {
                assert(seeded_face(face_of, seeds, h));
                let j = choose|j: int| 0 <= j < seeds.len() && #[trigger] face_of[seeds[j] as int] == face_of[h];
                assert(face_of[h] == face_of[seeds[j] as int]);
                assert(core.face_of()[h] == core.face_of()[seeds[j] as int]);
            }
        }
        Ok(Arc::new(core))
    }
}

} // verus!

verus! {

impl HalfedgeSurfaceCore {
    /// Bounds that every index stored by an admitted surface satisfies.
    pub proof fn lemma_core_facts(&self)
        requires
            self.wf(),
        ensures
            self.twin_rel().len() == self.size(),
            self.vertex_of().len() == self.size(),
            self.edge_of().len() == self.size(),
            self.face_of().len() == self.size(),
            self.boundary_links().len() == self.size(),
            self.kinds().len() == self.face_total(),
            self.material_index().len() == self.face_total(),
            self.material_orbits().len() <= self.face_total(),
            self.vertex_representatives().len() == self.vertex_total(),
            self.edge_representatives().len() == self.edge_total(),
            self.face_representatives().len() == self.face_total(),
            self.face_total() <= self.size(),
            self.vertex_total() <= self.size(),
            self.size() == 2 * self.edge_total(),
            is_permutation(self.next_rel()),
            is_twin_involution(self.twin_rel()),
            forall|h: int| 0 <= h < self.size() ==> #[trigger] self.vertex_of()[h] < self.vertex_total(),
            forall|h: int| 0 <= h < self.size() ==> #[trigger] self.edge_of()[h] < self.edge_total(),
            forall|h: int| 0 <= h < self.size() ==> #[trigger] self.face_of()[h] < self.face_total(),
            forall|v: int| 0 <= v < self.vertex_total() ==> #[trigger] self.vertex_representatives()[v] < self.size(),
            forall|e: int| 0 <= e < self.edge_total() ==> #[trigger] self.edge_representatives()[e] < self.size(),
            forall|f: int| 0 <= f < self.face_total() ==> #[trigger] self.face_representatives()[f] < self.size(),
            forall|i: int|
                0 <= i < self.material_orbits().len() ==> #[trigger] self.material_orbits()[i]
                    < self.face_total() && self.kinds()[self.material_orbits()[i] as int]
                    == FaceKind::Material && self.material_index()[self.material_orbits()[i] as int] == i,
            forall|f: int|
                0 <= f < self.face_total() ==> (#[trigger] self.kinds()[f] == FaceKind::Material
                    <==> self.material_index()[f] != UNASSIGNED),
            forall|f: int|
                0 <= f < self.face_total() && #[trigger] self.material_index()[f] != UNASSIGNED
                    ==> self.material_index()[f] < self.material_orbits().len()
                    && self.material_orbits()[self.material_index()[f] as int] == f,
            forall|h: int|
                0 <= h < self.size() ==> #[trigger] self.boundary_links()[h] == if self.is_exterior(h) {
                    self.next_rel()[h]
                } else {
                    UNASSIGNED
                },
            forall|h: int|
                0 <= h < self.size() ==> !(self.is_exterior(h) && self.is_exterior(
                    #[trigger] self.twin_rel()[h] as int,
                )),
            forall|h: int|
                0 <= h < self.size() ==> #[trigger] self.face_of()[self.next_rel()[h] as int]
                    == self.face_of()[h],
    {
        self.faces.lemma_wf_facts(self.next@);
        self.vertices.lemma_wf_facts(vertex_rotation(self.next@, self.twin@));
        self.edges.lemma_wf_facts(self.twin@);
        assert forall|h: int| 0 <= h < self.size() implies !(self.is_exterior(h) && self.is_exterior(
            #[trigger] self.twin_rel()[h] as int,
        )) by {
            assert(!(exterior_at(self.faces.of_halfedge@, self.face_kinds@, h) && exterior_at(
                self.faces.of_halfedge@,
                self.face_kinds@,
                self.twin@[h] as int,
            )));
        }
    }

    /// Members of orbit `o` of an orbit index are halfedges of that orbit.
    #[verifier::rlimit(50)]
    proof fn lemma_members(index: &OrbitIndex, succ: Seq<usize>, o: int)
        requires
            index.wf(succ),
            0 <= o < index.count_spec(),
        ensures
            index.offsets@[o] < index.offsets@[o + 1] <= succ.len(),
            forall|k: int|
                0 <= k < index.members_spec(o).len() ==> #[trigger] index.members_spec(o)[k] < succ.len()
                    && index.of_halfedge@[index.members_spec(o)[k] as int] == o,
    {
        index.lemma_wf_facts(succ);
        assert forall|k: int| 0 <= k < index.members_spec(o).len() implies #[trigger] index.members_spec(
            o,
        )[k] < succ.len() && index.of_halfedge@[index.members_spec(o)[k] as int] == o by {
            let p = index.offsets@[o] + k;
            assert(index.members_spec(o)[k] == index.halfedges@[p]);
        }
    }
}

/// Owner-issued halfedge with admitted range and identity.
#[derive(Clone, Copy)]
pub struct Halfedge<'a> {
    owner: &'a HalfedgeSurfaceCore,
    index: usize,
}

/// Owner-issued vertex orbit.
#[derive(Clone, Copy)]
pub struct Vertex<'a> {
    owner: &'a HalfedgeSurfaceCore,
    index: usize,
}

/// Owner-issued edge orbit.
#[derive(Clone, Copy)]
pub struct Edge<'a> {
    owner: &'a HalfedgeSurfaceCore,
    index: usize,
}

/// Owner-issued `next` orbit, including material and exterior faces.
#[derive(Clone, Copy)]
pub struct FaceOrbit<'a> {
    owner: &'a HalfedgeSurfaceCore,
    index: usize,
}

/// Owner-issued compact material-face basis element.
#[derive(Clone, Copy)]
pub struct MaterialFace<'a> {
    owner: &'a HalfedgeSurfaceCore,
    index: usize,
}

/// Halfedge refined to an exterior face orbit.
#[derive(Clone, Copy)]
pub struct ExteriorHalfedge<'a> {
    halfedge: Halfedge<'a>,
}

/// Material halfedge whose twin belongs to an exterior face orbit.
#[derive(Clone, Copy)]
pub struct MaterialBoundaryHalfedge<'a> {
    halfedge: Halfedge<'a>,
}

/// Whether `handles` issue exactly the halfedges `indices` of `owner`, in order.
pub open spec fn issues<'a>(
    handles: Seq<Halfedge<'a>>,
    owner: &'a HalfedgeSurfaceCore,
    indices: Seq<usize>,
) -> bool {
    &&& handles.len() == indices.len()
    &&& forall|k: int|
        0 <= k < handles.len() ==> (#[trigger] handles[k]).spec_owner() == owner
            && handles[k].spec_index() == indices[k]
}

impl<'a> Halfedge<'a> {
    #[verifier::type_invariant]
    closed spec fn inv(&self) -> bool {
        self.owner.wf() && self.index < self.owner.size()
    }

    pub closed spec fn spec_owner(&self) -> &'a HalfedgeSurfaceCore {
        self.owner
    }

    pub closed spec fn spec_index(&self) -> int {
        self.index as int
    }

    pub fn owner(self) -> (r: &'a HalfedgeSurfaceCore)
        ensures
            r == self.spec_owner(),
    {
        self.owner
    }

    /// Explicitly forget owner and entity proof for transport.
    pub fn index(self) -> (r: usize)
        ensures
            r == self.spec_index(),
    {
        self.index
    }

    pub fn next(self) -> (r: Halfedge<'a>)
        ensures
            r.spec_owner() == self.spec_owner(),
            r.spec_index() == self.spec_owner().next_rel()[self.spec_index()],
    {
        proof {
            use_type_invariant(&self);
        }
        Halfedge { owner: self.owner, index: self.owner.next[self.index] }
    }

    pub fn twin(self) -> (r: Halfedge<'a>)
        ensures
            r.spec_owner() == self.spec_owner(),
            r.spec_index() == self.spec_owner().twin_rel()[self.spec_index()],
    {
        proof {
            use_type_invariant(&self);
        }
        Halfedge { owner: self.owner, index: self.owner.twin[self.index] }
    }

    pub fn vertex(self) -> (r: Vertex<'a>)
        ensures
            r.spec_owner() == self.spec_owner(),
            r.spec_index() == self.spec_owner().vertex_of()[self.spec_index()],
    {
        proof {
            use_type_invariant(&self);
            self.owner.lemma_core_facts();
        }
        Vertex { owner: self.owner, index: self.owner.vertices.of_halfedge[self.index] }
    }

    pub fn edge(self) -> (r: Edge<'a>)
        ensures
            r.spec_owner() == self.spec_owner(),
            r.spec_index() == self.spec_owner().edge_of()[self.spec_index()],
    {
        proof {
            use_type_invariant(&self);
            self.owner.lemma_core_facts();
        }
        Edge { owner: self.owner, index: self.owner.edges.of_halfedge[self.index] }
    }

    pub fn face_orbit(self) -> (r: FaceOrbit<'a>)
        ensures
            r.spec_owner() == self.spec_owner(),
            r.spec_index() == self.spec_owner().face_of()[self.spec_index()],
    {
        proof {
            use_type_invariant(&self);
            self.owner.lemma_core_facts();
        }
        FaceOrbit { owner: self.owner, index: self.owner.faces.of_halfedge[self.index] }
    }

    pub fn as_exterior(self) -> (r: Option<ExteriorHalfedge<'a>>)
        ensures
            r is Some <==> self.spec_owner().is_exterior(self.spec_index()),
            r matches Some(x) ==> x.spec_halfedge() == self,
    {
        proof {
            use_type_invariant(&self);
        }
        if self.face_orbit().kind() == FaceKind::Exterior {
            Some(ExteriorHalfedge { halfedge: self })
        } else {
            None
        }
    }

    pub fn as_material_boundary(self) -> (r: Option<MaterialBoundaryHalfedge<'a>>)
        ensures
            r is Some <==> !self.spec_owner().is_exterior(self.spec_index())
                && self.spec_owner().is_exterior(self.spec_owner().twin_rel()[self.spec_index()] as int),
            r matches Some(x) ==> x.spec_halfedge() == self,
    {
        proof {
            use_type_invariant(&self);
            self.owner.lemma_core_facts();
        }
        if self.face_orbit().kind() == FaceKind::Material && self.twin().face_orbit().kind()
            == FaceKind::Exterior {
            Some(MaterialBoundaryHalfedge { halfedge: self })
        } else {
            None
        }
    }
}

/// Issue the halfedges `indices` of one owner.
fn issue_all<'a>(owner: &'a HalfedgeSurfaceCore, indices: &Vec<usize>, start: usize, end: usize) -> (r: Vec<
    Halfedge<'a>,
>)
    requires
        owner.wf(),
        start <= end <= indices@.len(),
        forall|k: int| start <= k < end ==> #[trigger] indices@[k] < owner.size(),
    ensures
        issues(r@, owner, indices@.subrange(start as int, end as int)),
{
    let mut output: Vec<Halfedge<'a>> = Vec::new();
    let mut k: usize = start;
    while k < end
        invariant
            start <= k <= end <= indices@.len(),
            owner.wf(),
            forall|j: int| start <= j < end ==> #[trigger] indices@[j] < owner.size(),
            issues(output@, owner, indices@.subrange(start as int, k as int)),
        decreases end - k,
    {
        output.push(Halfedge { owner, index: indices[k] });
        proof {
            let s = indices@.subrange(start as int, k + 1);
            assert forall|j: int| 0 <= j < output@.len() implies (#[trigger] output@[j]).spec_owner() == owner
                && output@[j].spec_index() == s[j] by {
                if j < output@.len() - 1 {
                    assert(indices@.subrange(start as int, k as int)[j] == s[j]);
                }
            }
        }
        k = k + 1;
    }
    output
}

impl<'a> Vertex<'a> {
    #[verifier::type_invariant]
    closed spec fn inv(&self) -> bool {
        self.owner.wf() && self.index < self.owner.vertex_total()
    }

    pub closed spec fn spec_owner(&self) -> &'a HalfedgeSurfaceCore {
        self.owner
    }

    pub closed spec fn spec_index(&self) -> int {
        self.index as int
    }

    pub fn owner(self) -> (r: &'a HalfedgeSurfaceCore)
        ensures
            r == self.spec_owner(),
    {
        self.owner
    }

    pub fn index(self) -> (r: usize)
        ensures
            r == self.spec_index(),
    {
        self.index
    }

    pub fn representative(self) -> (r: Halfedge<'a>)
        ensures
            r.spec_owner() == self.spec_owner(),
            r.spec_index() == self.spec_owner().vertex_representatives()[self.spec_index()],
    {
        proof {
            use_type_invariant(&self);
            self.owner.lemma_core_facts();
        }
        Halfedge { owner: self.owner, index: self.owner.vertices.representatives[self.index] }
    }

    /// The halfedges leaving this vertex, in rotation order from its representative.
    pub fn halfedges(self) -> (r: Vec<Halfedge<'a>>)
        ensures
            issues(r@, self.spec_owner(), self.spec_owner().vertex_members(self.spec_index())),
    {
        proof {
            use_type_invariant(&self);
            HalfedgeSurfaceCore::lemma_members(
                &self.owner.vertices,
                vertex_rotation(self.owner.next@, self.owner.twin@),
                self.index as int,
            );
            self.owner.vertices.lemma_wf_facts(vertex_rotation(self.owner.next@, self.owner.twin@));
        }
        let count = self.owner.vertices.offsets.len();
        let start = self.owner.vertices.offsets[self.index];
        let end = self.owner.vertices.offsets[self.index + 1];
        proof {
            assert forall|k: int| start <= k < end implies #[trigger] self.owner.vertices.halfedges@[k]
                < self.owner.size() by {
                assert(self.owner.vertices.members_spec(self.index as int)[k - start]
                    == self.owner.vertices.halfedges@[k]);
            }
        }
        issue_all(self.owner, &self.owner.vertices.halfedges, start, end)
    }
}

impl<'a> Edge<'a> {
    #[verifier::type_invariant]
    closed spec fn inv(&self) -> bool {
        self.owner.wf() && self.index < self.owner.edge_total()
    }

    pub closed spec fn spec_owner(&self) -> &'a HalfedgeSurfaceCore {
        self.owner
    }

    pub closed spec fn spec_index(&self) -> int {
        self.index as int
    }

    pub fn owner(self) -> (r: &'a HalfedgeSurfaceCore)
        ensures
            r == self.spec_owner(),
    {
        self.owner
    }

    pub fn index(self) -> (r: usize)
        ensures
            r == self.spec_index(),
    {
        self.index
    }

    pub fn representative(self) -> (r: Halfedge<'a>)
        ensures
            r.spec_owner() == self.spec_owner(),
            r.spec_index() == self.spec_owner().edge_representatives()[self.spec_index()],
    {
        proof {
            use_type_invariant(&self);
            self.owner.lemma_core_facts();
        }
        Halfedge { owner: self.owner, index: self.owner.edges.representatives[self.index] }
    }

    /// The two halfedges of this edge: its representative, then its twin.
    pub fn halfedges(self) -> (r: Vec<Halfedge<'a>>)
        ensures
            issues(r@, self.spec_owner(), self.spec_owner().edge_members(self.spec_index())),
            r@.len() == 2,
    {
        proof {
            use_type_invariant(&self);
            self.owner.lemma_core_facts();
        }
        let o = self.index;
        proof {
            let e = self.owner.edges;
            assert(e.halfedges@[2 * o] == e.representatives@[o as int]);
            assert(e.offsets@[o as int] == 2 * o);
            assert(e.offsets@[o + 1] == 2 * o + 2);
        }
        let start = self.owner.edges.offsets[o];
        let end = self.owner.edges.offsets[o + 1];
        issue_all(self.owner, &self.owner.edges.halfedges, start, end)
    }
}

impl<'a> FaceOrbit<'a> {
    #[verifier::type_invariant]
    closed spec fn inv(&self) -> bool {
        self.owner.wf() && self.index < self.owner.face_total()
    }

    pub closed spec fn spec_owner(&self) -> &'a HalfedgeSurfaceCore {
        self.owner
    }

    pub closed spec fn spec_index(&self) -> int {
        self.index as int
    }

    pub fn owner(self) -> (r: &'a HalfedgeSurfaceCore)
        ensures
            r == self.spec_owner(),
    {
        self.owner
    }

    pub fn index(self) -> (r: usize)
        ensures
            r == self.spec_index(),
    {
        self.index
    }

    pub fn kind(self) -> (r: FaceKind)
        ensures
            r == self.spec_owner().kinds()[self.spec_index()],
    {
        proof {
            use_type_invariant(&self);
            self.owner.lemma_core_facts();
        }
        self.owner.face_kinds[self.index]
    }

    pub fn representative(self) -> (r: Halfedge<'a>)
        ensures
            r.spec_owner() == self.spec_owner(),
            r.spec_index() == self.spec_owner().face_representatives()[self.spec_index()],
    {
        proof {
            use_type_invariant(&self);
            self.owner.lemma_core_facts();
        }
        Halfedge { owner: self.owner, index: self.owner.faces.representatives[self.index] }
    }

    /// The halfedges of this face orbit, in `next` order from its representative.
    pub fn halfedges(self) -> (r: Vec<Halfedge<'a>>)
        ensures
            issues(r@, self.spec_owner(), self.spec_owner().face_members(self.spec_index())),
    {
        proof {
            use_type_invariant(&self);
            HalfedgeSurfaceCore::lemma_members(&self.owner.faces, self.owner.next@, self.index as int);
            self.owner.faces.lemma_wf_facts(self.owner.next@);
        }
        let count = self.owner.faces.offsets.len();
        let start = self.owner.faces.offsets[self.index];
        let end = self.owner.faces.offsets[self.index + 1];
        proof {
            assert forall|k: int| start <= k < end implies #[trigger] self.owner.faces.halfedges@[k]
                < self.owner.size() by {
                assert(self.owner.faces.members_spec(self.index as int)[k - start]
                    == self.owner.faces.halfedges@[k]);
            }
        }
        issue_all(self.owner, &self.owner.faces.halfedges, start, end)
    }

    pub fn as_material(self) -> (r: Option<MaterialFace<'a>>)
        ensures
            r is Some <==> self.spec_owner().material_index()[self.spec_index()] != UNASSIGNED,
            r matches Some(m) ==> m.spec_owner() == self.spec_owner() && m.spec_index()
                == self.spec_owner().material_index()[self.spec_index()],
    {
        proof {
            use_type_invariant(&self);
            self.owner.lemma_core_facts();
        }
        let index = self.owner.material_face_of_orbit[self.index];
        if index != UNASSIGNED {
            Some(MaterialFace { owner: self.owner, index })
        } else {
            None
        }
    }
}

impl<'a> MaterialFace<'a> {
    #[verifier::type_invariant]
    closed spec fn inv(&self) -> bool {
        self.owner.wf() && self.index < self.owner.material_orbits().len()
    }

    pub closed spec fn spec_owner(&self) -> &'a HalfedgeSurfaceCore {
        self.owner
    }

    pub closed spec fn spec_index(&self) -> int {
        self.index as int
    }

    pub fn owner(self) -> (r: &'a HalfedgeSurfaceCore)
        ensures
            r == self.spec_owner(),
    {
        self.owner
    }

    pub fn index(self) -> (r: usize)
        ensures
            r == self.spec_index(),
    {
        self.index
    }

    pub fn face_orbit(self) -> (r: FaceOrbit<'a>)
        ensures
            r.spec_owner() == self.spec_owner(),
            r.spec_index() == self.spec_owner().material_orbits()[self.spec_index()],
    {
        proof {
            use_type_invariant(&self);
            self.owner.lemma_core_facts();
        }
        FaceOrbit { owner: self.owner, index: self.owner.material_faces[self.index] }
    }

    pub fn halfedges(self) -> (r: Vec<Halfedge<'a>>)
        ensures
            issues(
                r@,
                self.spec_owner(),
                self.spec_owner().face_members(
                    self.spec_owner().material_orbits()[self.spec_index()] as int,
                ),
            ),
    {
        self.face_orbit().halfedges()
    }
}

impl<'a> ExteriorHalfedge<'a> {
    #[verifier::type_invariant]
    closed spec fn inv(&self) -> bool {
        self.halfedge.spec_owner().wf() && 0 <= self.halfedge.spec_index() < self.halfedge.spec_owner().size()
            && self.halfedge.spec_owner().is_exterior(self.halfedge.spec_index())
    }

    pub closed spec fn spec_halfedge(&self) -> Halfedge<'a> {
        self.halfedge
    }

    pub fn owner(self) -> (r: &'a HalfedgeSurfaceCore)
        ensures
            r == self.spec_halfedge().spec_owner(),
    {
        self.halfedge.owner()
    }

    pub fn index(self) -> (r: usize)
        ensures
            r == self.spec_halfedge().spec_index(),
    {
        self.halfedge.index()
    }

    pub fn halfedge(self) -> (r: Halfedge<'a>)
        ensures
            r == self.spec_halfedge(),
    {
        self.halfedge
    }

    /// The next exterior halfedge around the same boundary cycle.
    pub fn next(self) -> (r: ExteriorHalfedge<'a>)
        ensures
            r.spec_halfedge().spec_owner() == self.spec_halfedge().spec_owner(),
            r.spec_halfedge().spec_index() == self.spec_halfedge().spec_owner().boundary_links()[self.spec_halfedge().spec_index()],
            r.spec_halfedge().spec_index() == self.spec_halfedge().spec_owner().next_rel()[self.spec_halfedge().spec_index()],
    {
        proof {
            use_type_invariant(&self);
            self.halfedge.owner.lemma_core_facts();
        }
        let owner = self.halfedge.owner;
        let index = owner.boundary_next[self.halfedge.index];
        proof {
            assert(owner.next@[self.halfedge.index as int] < owner.size());
        }
        ExteriorHalfedge { halfedge: Halfedge { owner, index } }
    }
}

impl<'a> MaterialBoundaryHalfedge<'a> {
    #[verifier::type_invariant]
    closed spec fn inv(&self) -> bool {
        let o = self.halfedge.spec_owner();
        let h = self.halfedge.spec_index();
        o.wf() && 0 <= h < o.size() && !o.is_exterior(h) && o.is_exterior(o.twin_rel()[h] as int)
    }

    pub closed spec fn spec_halfedge(&self) -> Halfedge<'a> {
        self.halfedge
    }

    pub fn owner(self) -> (r: &'a HalfedgeSurfaceCore)
        ensures
            r == self.spec_halfedge().spec_owner(),
    {
        self.halfedge.owner()
    }

    pub fn index(self) -> (r: usize)
        ensures
            r == self.spec_halfedge().spec_index(),
    {
        self.halfedge.index()
    }

    pub fn halfedge(self) -> (r: Halfedge<'a>)
        ensures
            r == self.spec_halfedge(),
    {
        self.halfedge
    }

    /// The next material boundary halfedge: the twin of the exterior
    /// successor of this halfedge's twin.
    pub fn next(self) -> (r: MaterialBoundaryHalfedge<'a>)
        ensures
            r.spec_halfedge().spec_owner() == self.spec_halfedge().spec_owner(),
            ({
                let o = self.spec_halfedge().spec_owner();
                let h = self.spec_halfedge().spec_index();
                r.spec_halfedge().spec_index() == o.twin_rel()[o.next_rel()[o.twin_rel()[h] as int] as int]
            }),
    {
        proof {
            use_type_invariant(&self);
            self.halfedge.owner.lemma_core_facts();
        }
        let owner = self.halfedge.owner;
        let exterior = owner.twin[self.halfedge.index];
        let successor = owner.boundary_next[exterior];
        let index = owner.twin[successor];
        proof {
            let n = owner.next@[exterior as int];
            assert(owner.face_of()[n as int] == owner.face_of()[exterior as int]);
            assert(owner.twin@[index as int] == successor);
        }
        MaterialBoundaryHalfedge { halfedge: Halfedge { owner, index } }
    }
}

} // verus!

verus! {

/// Explicit caller-owned packed orbit materialization.
pub struct OrbitMaterialization {
    representatives: Vec<usize>,
    offsets: Vec<usize>,
    halfedges: Vec<usize>,
}

impl OrbitMaterialization {
    pub closed spec fn spec_representatives(&self) -> Seq<usize> {
        self.representatives@
    }

    pub closed spec fn spec_offsets(&self) -> Seq<usize> {
        self.offsets@
    }

    pub closed spec fn spec_halfedges(&self) -> Seq<usize> {
        self.halfedges@
    }

    pub fn representatives(&self) -> (r: &[usize])
        ensures
            r@ == self.spec_representatives(),
    {
        self.representatives.as_slice()
    }

    pub fn offsets(&self) -> (r: &[usize])
        ensures
            r@ == self.spec_offsets(),
    {
        self.offsets.as_slice()
    }

    pub fn halfedges(&self) -> (r: &[usize])
        ensures
            r@ == self.spec_halfedges(),
    {
        self.halfedges.as_slice()
    }

    /// Dismantle into `(representatives, offsets, halfedges)`.
    pub fn into_parts(self) -> (r: (Vec<usize>, Vec<usize>, Vec<usize>))
        ensures
            r.0@ == self.spec_representatives(),
            r.1@ == self.spec_offsets(),
            r.2@ == self.spec_halfedges(),
    {
        (self.representatives, self.offsets, self.halfedges)
    }
}

fn try_copy(values: &Vec<usize>) -> (r: Vec<usize>)
    ensures
        r@ == values@,
{
    let mut output: Vec<usize> = Vec::new();
    let mut k: usize = 0;
    while k < values.len()
        invariant
            k <= values.len(),
            output@ == values@.take(k as int),
        decreases values.len() - k,
    {
        output.push(values[k]);
        proof {
            assert(values@.take(k + 1) == values@.take(k as int).push(values@[k as int]));
        }
        k = k + 1;
    }
    proof {
        assert(values@.take(values.len() as int) == values@);
    }
    output
}

impl HalfedgeSurfaceCore {
    /// The retained `next` relation, exactly as admitted.
    pub fn presentation_next(&self) -> (r: &[usize])
        ensures
            r@ == self.next_rel(),
    {
        self.next.as_slice()
    }

    /// The retained `twin` relation, exactly as admitted.
    pub fn presentation_twin(&self) -> (r: &[usize])
        ensures
            r@ == self.twin_rel(),
    {
        self.twin.as_slice()
    }

    /// The kind of each face orbit.
    pub fn presentation_face_kinds(&self) -> (r: &[FaceKind])
        ensures
            r@ == self.kinds(),
    {
        self.face_kinds.as_slice()
    }

    /// The retained chain of the surface.
    pub(crate) fn chain(&self) -> (r: &SurfaceChain)
        ensures
            *r == self.spec_chain(),
    {
        &self.chain
    }

    /// The retained chain holds, in degree one, the vertex-edge incidences of
    /// the edges and, in degree two, the edge-face incidences of the material
    /// faces.
    pub proof fn lemma_chain(&self)
        requires
            self.wf(),
        ensures
            surface_chain_holds(
                self.spec_chain(),
                self.vertex_of(),
                self.twin_rel(),
                self.edge_representatives(),
                self.edge_of(),
                self.packed_offsets(2),
                self.packed_halfedges(2),
                self.material_orbits(),
                self.vertex_total(),
            ),
    {
    }

    /// The boundary of a boundary vanishes on an admitted surface: at every
    /// vertex `v` and material face `m`, the retained degree-one boundary
    /// composed with the retained degree-two boundary gives zero, and so do
    /// the summed vertex-edge and edge-face incidences that they hold.
    pub proof fn law_surface_boundary_of_boundary(&self, v: int, m: int)
        requires
            self.wf(),
            0 <= v < self.vertex_total(),
            0 <= m < self.material_orbits().len(),
        ensures
            boundary_composed(
                self.spec_chain().spec_boundary(1),
                self.spec_chain().spec_boundary(2),
                v,
                m,
                self.edge_total(),
            ) == 0,
            composed(
                edge_entries(self.vertex_of(), self.twin_rel(), self.edge_representatives(), self.edge_total()),
                face_entries(
                    self.edge_of(),
                    self.edge_representatives(),
                    self.packed_offsets(2),
                    self.packed_halfedges(2),
                    self.material_orbits(),
                    self.material_orbits().len() as int,
                ),
                v,
                m,
                self.edge_total(),
            ) == 0,
    {
        let n = self.next@.len() as int;
        let f = self.material_faces@[m] as int;
        assert(f < self.faces.count_spec());
        lemma_face_orbit_facts(&self.faces, self.next@, f);
        lemma_rotation_facts(&self.vertices, self.next@, self.twin@);
        lemma_edge_facts(&self.edges, self.twin@);
        assert(self.edges.representatives.len() == self.edges.representatives@.len());
        assert(self.material_faces.len() == self.material_faces@.len());
        lemma_surface_composes(
            self.vertices.of_halfedge@,
            self.next@,
            self.twin@,
            self.edges.representatives@,
            self.edges.of_halfedge@,
            self.faces.offsets@,
            self.faces.halfedges@,
            self.material_faces@,
            v,
            m,
        );
        reveal(surface_chain_holds);
        assert(self.next.len() == n);
        assert(self.faces.halfedges.len() == self.faces.halfedges@.len());
        lemma_held_composed(
            self.chain.spec_boundary(1),
            self.chain.spec_boundary(2),
            edge_entries(self.vertices.of_halfedge@, self.twin@, self.edges.representatives@, self.edge_total()),
            face_entries(
                self.edges.of_halfedge@,
                self.edges.representatives@,
                self.faces.offsets@,
                self.faces.halfedges@,
                self.material_faces@,
                self.material_faces@.len() as int,
            ),
            self.vertex_total(),
            self.edge_total(),
            v,
            m,
            self.edge_total(),
        );
    }

    /// Borrow this surface through its exact chain view.
    pub fn chain_view(&self) -> (r: ChainView<'_>)
        ensures
            r.spec_owner() == ChainOwner::Halfedge(self),
    {
        ChainView::halfedge(self)
    }

    /// Number of chain projections performed when this owner was admitted;
    /// chain views borrow the retained boundaries and never project again.
    pub fn chain_projections(&self) -> (r: usize)
        ensures
            r == self.spec_chain_projections(),
            r == 1,
    {
        proof {
            use_type_invariant(self);
        }
        self.chain_projections
    }

    /// Number of orbit enumerations performed when this owner was admitted;
    /// navigation never enumerates again.
    pub fn orbit_enumerations(&self) -> (r: usize)
        ensures
            r == self.spec_orbit_enumerations(),
            r == 3,
    {
        proof {
            use_type_invariant(self);
        }
        self.orbit_enumerations
    }

    pub fn halfedge_count(&self) -> (r: usize)
        ensures
            r == self.size(),
    {
        self.next.len()
    }

    /// Issue one owner-bound halfedge after a single range check.
    pub fn halfedge(&self, index: usize) -> (r: Result<Halfedge<'_>, TopologyError>)
        ensures
            r is Ok <==> index < self.size(),
            r matches Ok(h) ==> h.spec_owner() == self && h.spec_index() == index,
            r matches Err(e) ==> e == TopologyError::HalfedgeRange(HalfedgeRole::Halfedge, index, index, self.size() as usize),
    {
        proof {
            use_type_invariant(self);
        }
        if index >= self.next.len() {
            return Err(TopologyError::HalfedgeRange(HalfedgeRole::Halfedge, index, index, self.next.len()));
        }
        Ok(Halfedge { owner: self, index })
    }

    /// Every halfedge, in index order.
    pub fn halfedges(&self) -> (r: Vec<Halfedge<'_>>)
        ensures
            r@.len() == self.size(),
            forall|k: int| 0 <= k < r@.len() ==> (#[trigger] r@[k]).spec_owner() == self && r@[k].spec_index() == k,
    {
        proof {
            use_type_invariant(self);
        }
        let mut output: Vec<Halfedge<'_>> = Vec::new();
        let mut k: usize = 0;
        while k < self.next.len()
            invariant
                self.wf(),
                k <= self.next@.len(),
                output@.len() == k,
                forall|j: int| 0 <= j < k ==> (#[trigger] output@[j]).spec_owner() == self && output@[j].spec_index() == j,
            decreases self.next@.len() - k,
        {
            output.push(Halfedge { owner: self, index: k });
            k = k + 1;
        }
        output
    }

    pub fn vertex_count(&self) -> (r: usize)
        ensures
            r == self.vertex_total(),
    {
        self.vertices.representatives.len()
    }

    pub fn edge_count(&self) -> (r: usize)
        ensures
            r == self.edge_total(),
    {
        self.edges.representatives.len()
    }

    pub fn face_orbit_count(&self) -> (r: usize)
        ensures
            r == self.face_total(),
    {
        self.faces.representatives.len()
    }

    pub fn material_face_count(&self) -> (r: usize)
        ensures
            r == self.material_orbits().len(),
    {
        self.material_faces.len()
    }

    pub fn exterior_face_count(&self) -> (r: usize)
        ensures
            r == self.face_total() - self.material_orbits().len(),
    {
        proof {
            use_type_invariant(self);
        }
        self.faces.representatives.len() - self.material_faces.len()
    }

    /// Number of boundary cycles: the exterior face orbits.
    pub fn boundary_component_count(&self) -> (r: usize)
        ensures
            r == self.spec_boundary_components(),
            r == self.face_total() - self.material_orbits().len(),
    {
        proof {
            use_type_invariant(self);
        }
        self.facts.boundary_components
    }

    /// Number of connected components of the vertex–edge graph.
    pub fn connected_component_count(&self) -> (r: usize)
        ensures
            r == self.spec_connected_components(),
            counts_components(
                edge_endpoint_pairs(self.vertex_of(), self.twin_rel(), self.edge_representatives()),
                self.vertex_total(),
                r as int,
            ),
    {
        proof {
            use_type_invariant(self);
        }
        self.facts.connected_components
    }

    /// `V - E + F`, counting material faces only.
    pub fn euler_characteristic(&self) -> (r: i64)
        ensures
            r == self.spec_euler_characteristic(),
            r == self.vertex_total() - self.edge_total() + self.material_orbits().len(),
    {
        proof {
            use_type_invariant(self);
        }
        self.facts.euler_characteristic
    }

    /// Genus of a connected surface, from `2 - 2g - b = χ`; absent when the
    /// surface is not connected.
    pub fn genus(&self) -> (r: Option<usize>)
        ensures
            r == self.spec_genus(),
            r is Some <==> self.spec_connected_components() == 1,
            r matches Some(g) ==> 2 * g == 2 - self.spec_boundary_components()
                - self.spec_euler_characteristic(),
    {
        proof {
            use_type_invariant(self);
        }
        self.facts.genus
    }

    pub fn vertices(&self) -> (r: Vec<Vertex<'_>>)
        ensures
            r@.len() == self.vertex_total(),
            forall|k: int| 0 <= k < r@.len() ==> (#[trigger] r@[k]).spec_owner() == self && r@[k].spec_index() == k,
    {
        proof {
            use_type_invariant(self);
        }
        let mut output: Vec<Vertex<'_>> = Vec::new();
        let mut k: usize = 0;
        while k < self.vertices.representatives.len()
            invariant
                self.wf(),
                k <= self.vertex_total(),
                output@.len() == k,
                forall|j: int| 0 <= j < k ==> (#[trigger] output@[j]).spec_owner() == self && output@[j].spec_index() == j,
            decreases self.vertex_total() - k,
        {
            output.push(Vertex { owner: self, index: k });
            k = k + 1;
        }
        output
    }

    pub fn edges(&self) -> (r: Vec<Edge<'_>>)
        ensures
            r@.len() == self.edge_total(),
            forall|k: int| 0 <= k < r@.len() ==> (#[trigger] r@[k]).spec_owner() == self && r@[k].spec_index() == k,
    {
        proof {
            use_type_invariant(self);
        }
        let mut output: Vec<Edge<'_>> = Vec::new();
        let mut k: usize = 0;
        while k < self.edges.representatives.len()
            invariant
                self.wf(),
                k <= self.edge_total(),
                output@.len() == k,
                forall|j: int| 0 <= j < k ==> (#[trigger] output@[j]).spec_owner() == self && output@[j].spec_index() == j,
            decreases self.edge_total() - k,
        {
            output.push(Edge { owner: self, index: k });
            k = k + 1;
        }
        output
    }

    pub fn face_orbits(&self) -> (r: Vec<FaceOrbit<'_>>)
        ensures
            r@.len() == self.face_total(),
            forall|k: int| 0 <= k < r@.len() ==> (#[trigger] r@[k]).spec_owner() == self && r@[k].spec_index() == k,
    {
        proof {
            use_type_invariant(self);
        }
        let mut output: Vec<FaceOrbit<'_>> = Vec::new();
        let mut k: usize = 0;
        while k < self.faces.representatives.len()
            invariant
                self.wf(),
                k <= self.face_total(),
                output@.len() == k,
                forall|j: int| 0 <= j < k ==> (#[trigger] output@[j]).spec_owner() == self && output@[j].spec_index() == j,
            decreases self.face_total() - k,
        {
            output.push(FaceOrbit { owner: self, index: k });
            k = k + 1;
        }
        output
    }

    pub fn material_faces(&self) -> (r: Vec<MaterialFace<'_>>)
        ensures
            r@.len() == self.material_orbits().len(),
            forall|k: int| 0 <= k < r@.len() ==> (#[trigger] r@[k]).spec_owner() == self && r@[k].spec_index() == k,
    {
        proof {
            use_type_invariant(self);
        }
        let mut output: Vec<MaterialFace<'_>> = Vec::new();
        let mut k: usize = 0;
        while k < self.material_faces.len()
            invariant
                self.wf(),
                k <= self.material_orbits().len(),
                output@.len() == k,
                forall|j: int| 0 <= j < k ==> (#[trigger] output@[j]).spec_owner() == self && output@[j].spec_index() == j,
            decreases self.material_orbits().len() - k,
        {
            output.push(MaterialFace { owner: self, index: k });
            k = k + 1;
        }
        output
    }

    /// Materialize caller-owned packed vertex-orbit arrays.
    pub fn materialize_vertex_orbits(&self) -> (r: OrbitMaterialization)
        ensures
            r.spec_representatives() == self.vertex_representatives(),
            r.spec_offsets() == self.packed_offsets(0),
            r.spec_halfedges() == self.packed_halfedges(0),
    {
        OrbitMaterialization {
            representatives: try_copy(&self.vertices.representatives),
            offsets: try_copy(&self.vertices.offsets),
            halfedges: try_copy(&self.vertices.halfedges),
        }
    }

    /// Materialize caller-owned packed edge-orbit arrays.
    pub fn materialize_edge_orbits(&self) -> (r: OrbitMaterialization)
        ensures
            r.spec_representatives() == self.edge_representatives(),
            r.spec_offsets() == self.packed_offsets(1),
            r.spec_halfedges() == self.packed_halfedges(1),
    {
        OrbitMaterialization {
            representatives: try_copy(&self.edges.representatives),
            offsets: try_copy(&self.edges.offsets),
            halfedges: try_copy(&self.edges.halfedges),
        }
    }

    /// Materialize caller-owned packed face-orbit arrays.
    pub fn materialize_face_orbits(&self) -> (r: OrbitMaterialization)
        ensures
            r.spec_representatives() == self.face_representatives(),
            r.spec_offsets() == self.packed_offsets(2),
            r.spec_halfedges() == self.packed_halfedges(2),
    {
        OrbitMaterialization {
            representatives: try_copy(&self.faces.representatives),
            offsets: try_copy(&self.faces.offsets),
            halfedges: try_copy(&self.faces.halfedges),
        }
    }
}

} // verus!

verus! {

/// Twinning is a fixed-point-free involution on an admitted surface.
pub proof fn law_twin_involution(core: &HalfedgeSurfaceCore, h: int)
    requires
        core.wf(),
        0 <= h < core.size(),
    ensures
        core.twin_rel()[h] != h,
        core.twin_rel()[core.twin_rel()[h] as int] == h,
        core.edge_of()[core.twin_rel()[h] as int] == core.edge_of()[h],
{
    core.lemma_core_facts();
    core.edges.lemma_wf_facts(core.twin@);
}

/// `next` is a permutation, and it never leaves a face orbit.
pub proof fn law_next_stays_in_face(core: &HalfedgeSurfaceCore, h: int)
    requires
        core.wf(),
        0 <= h < core.size(),
    ensures
        core.next_rel()[h] < core.size(),
        core.face_of()[core.next_rel()[h] as int] == core.face_of()[h],
        forall|g: int| 0 <= g < core.size() && g != h ==> core.next_rel()[g] != core.next_rel()[h],
{
    core.lemma_core_facts();
    assert forall|g: int| 0 <= g < core.size() && g != h implies core.next_rel()[g] != core.next_rel()[h] by {
        if g < h {
            assert(core.next@[g] != core.next@[h]);
        } else {
            assert(core.next@[h] != core.next@[g]);
        }
    }
}

/// Rotating around a vertex, `h ↦ next(twin(h))`, never leaves the vertex.
pub proof fn law_rotation_stays_at_vertex(core: &HalfedgeSurfaceCore, h: int)
    requires
        core.wf(),
        0 <= h < core.size(),
    ensures
        core.vertex_of()[core.next_rel()[core.twin_rel()[h] as int] as int] == core.vertex_of()[h],
{
    core.vertices.lemma_wf_facts(vertex_rotation(core.next@, core.twin@));
    assert(vertex_rotation(core.next@, core.twin@)[h] == core.next@[core.twin@[h] as int]);
}

/// Every edge has exactly two halfedges: the halfedge count is twice the edge count.
pub proof fn law_halfedges_pair_into_edges(core: &HalfedgeSurfaceCore)
    requires
        core.wf(),
    ensures
        core.size() == 2 * core.edge_total(),
{
    core.lemma_core_facts();
}

/// A face orbit is one `next` cycle: each member's successor is the next
/// member, and the last member's successor is the representative.
#[verifier::spinoff_prover]
pub proof fn law_face_orbit_is_next_cycle(core: &HalfedgeSurfaceCore, f: int, k: int)
    requires
        core.wf(),
        0 <= f < core.face_total(),
        0 <= k < core.face_members(f).len(),
    ensures
        core.face_members(f).len() > 0,
        core.face_members(f)[0] == core.face_representatives()[f],
        core.face_of()[core.face_members(f)[k] as int] == f,
        k + 1 < core.face_members(f).len() ==> core.next_rel()[core.face_members(f)[k] as int]
            == core.face_members(f)[k + 1],
        k + 1 == core.face_members(f).len() ==> core.next_rel()[core.face_members(f)[k] as int]
            == core.face_members(f)[0],
{
    core.faces.lemma_wf_facts(core.next@);
    let off = core.faces.offsets@;
    let p = off[f] + k;
    assert(core.face_members(f)[k] == core.faces.halfedges@[p]);
    assert(core.face_members(f)[0] == core.faces.halfedges@[off[f] as int]);
    if k + 1 < core.face_members(f).len() {
        assert(core.face_members(f)[k + 1] == core.faces.halfedges@[p + 1]);
    }
}

/// A vertex orbit is one rotation cycle `h ↦ next(twin(h))`.
#[verifier::spinoff_prover]
#[verifier::rlimit(40)]
pub proof fn law_vertex_orbit_is_rotation_cycle(core: &HalfedgeSurfaceCore, v: int, k: int)
    requires
        core.wf(),
        0 <= v < core.vertex_total(),
        0 <= k < core.vertex_members(v).len(),
    ensures
        core.vertex_members(v)[0] == core.vertex_representatives()[v],
        core.vertex_of()[core.vertex_members(v)[k] as int] == v,
        ({
            let h = core.vertex_members(v)[k] as int;
            let r = core.next_rel()[core.twin_rel()[h] as int];
            &&& k + 1 < core.vertex_members(v).len() ==> r == core.vertex_members(v)[k + 1]
            &&& k + 1 == core.vertex_members(v).len() ==> r == core.vertex_members(v)[0]
        }),
{
    let succ = vertex_rotation(core.next@, core.twin@);
    core.vertices.lemma_wf_facts(succ);
    let off = core.vertices.offsets@;
    let p = off[v] + k;
    assert(core.vertex_members(v)[k] == core.vertices.halfedges@[p]);
    assert(core.vertex_members(v)[0] == core.vertices.halfedges@[off[v] as int]);
    if k + 1 < core.vertex_members(v).len() {
        assert(core.vertex_members(v)[k + 1] == core.vertices.halfedges@[p + 1]);
    }
    let h = core.vertices.halfedges@[p] as int;
    assert(succ[h] == core.next@[core.twin@[h] as int]);
}

/// Boundary discipline: the twin of an exterior halfedge is material, and no
/// vertex has two exterior halfedges.
pub proof fn law_boundary_discipline(core: &HalfedgeSurfaceCore, a: int, b: int)
    requires
        core.wf(),
        0 <= a < core.size(),
        0 <= b < core.size(),
    ensures
        core.is_exterior(a) ==> !core.is_exterior(core.twin_rel()[a] as int),
        a != b && core.is_exterior(a) && core.is_exterior(b) ==> core.vertex_of()[a] != core.vertex_of()[b],
{
    core.lemma_core_facts();
    if a < b && core.is_exterior(a) && core.is_exterior(b) {
        assert(core.vertices.of_halfedge@[a] != core.vertices.of_halfedge@[b]);
    }
    if b < a && core.is_exterior(a) && core.is_exterior(b) {
        assert(core.vertices.of_halfedge@[b] != core.vertices.of_halfedge@[a]);
    }
}

/// Material faces and material face orbits correspond one to one, in
/// increasing orbit order.
pub proof fn law_material_faces_correspond(core: &HalfedgeSurfaceCore, m: int, f: int)
    requires
        core.wf(),
        0 <= m < core.material_orbits().len(),
        0 <= f < core.face_total(),
    ensures
        core.material_index()[core.material_orbits()[m] as int] == m,
        core.kinds()[f] == FaceKind::Material <==> core.material_index()[f] != UNASSIGNED,
        core.kinds()[f] == FaceKind::Material ==> core.material_orbits()[core.material_index()[f] as int] == f,
        m + 1 < core.material_orbits().len() ==> core.material_orbits()[m] < core.material_orbits()[m + 1],
{
    core.lemma_core_facts();
    use_type_invariant_free(core);
}

proof fn use_type_invariant_free(core: &HalfedgeSurfaceCore)
    requires
        core.wf(),
    ensures
        forall|i: int, j: int|
            0 <= i < j < core.material_orbits().len() ==> #[trigger] core.material_orbits()[i]
                < #[trigger] core.material_orbits()[j],
{
}

} // verus!

verus! {

/// Two halfedges lie on one face orbit exactly when `next` carries one to
/// the other.
pub proof fn law_face_orbit_is_next_reachability(core: &HalfedgeSurfaceCore, a: int, b: int)
    requires
        core.wf(),
        0 <= a < core.size(),
        0 <= b < core.size(),
    ensures
        core.face_of()[a] == core.face_of()[b] <==> same_orbit(core.next_rel(), a, b),
{
    crate::cycle::lemma_same_orbit(&core.faces, core.next@, a, b);
}

/// Two halfedges lie on one vertex orbit exactly when the rotation
/// `h ↦ next(twin(h))` carries one to the other.
pub proof fn law_vertex_orbit_is_rotation_reachability(core: &HalfedgeSurfaceCore, a: int, b: int)
    requires
        core.wf(),
        0 <= a < core.size(),
        0 <= b < core.size(),
    ensures
        core.vertex_of()[a] == core.vertex_of()[b] <==> same_orbit(vertex_rotation(core.next_rel(), core.twin_rel()), a, b),
{
    let rotation = vertex_rotation(core.next@, core.twin@);
    lemma_vertex_rotation_permutes(core.next@, core.twin@);
    crate::cycle::lemma_same_orbit(&core.vertices, rotation, a, b);
}

/// Edge `e` is the pair of its representative and the representative's
/// twin, the representative being the smaller of the two.
pub proof fn law_edge_is_representative_pair(core: &HalfedgeSurfaceCore, e: int)
    requires
        core.wf(),
        0 <= e < core.edge_total(),
    ensures
        core.edge_members(e) == seq![core.edge_representatives()[e], core.twin_rel()[core.edge_representatives()[e] as int]],
        core.edge_representatives()[e] < core.twin_rel()[core.edge_representatives()[e] as int],
        core.edge_of()[core.edge_representatives()[e] as int] == e,
        core.edge_of()[core.twin_rel()[core.edge_representatives()[e] as int] as int] == e,
{
    core.edges.lemma_wf_facts(core.twin@);
    let members = core.edge_members(e);
    assert(core.edges.offsets@[e] == 2 * e);
    assert(core.edges.offsets@[e + 1] == 2 * (e + 1));
    assert(members.len() == 2);
    assert(members[0] == core.edges.halfedges@[2 * e]);
    assert(members[1] == core.edges.halfedges@[2 * e + 1]);
    assert(members =~= seq![core.edge_representatives()[e], core.twin_rel()[core.edge_representatives()[e] as int]]);
}

/// The packed orbit offsets of vertices (`0`), edges (`1`) and faces (`2`)
/// start at zero, strictly increase, and end at the halfedge count.
pub proof fn law_packed_offsets(core: &HalfedgeSurfaceCore, which: int, o: int)
    requires
        core.wf(),
        0 <= which <= 2,
        0 <= o < core.packed_offsets(which).len() - 1,
    ensures
        core.packed_offsets(which)[0] == 0,
        core.packed_offsets(which)[core.packed_offsets(which).len() - 1] == core.size(),
        core.packed_offsets(which)[o] < core.packed_offsets(which)[o + 1],
        core.packed_halfedges(which).len() == core.size(),
        core.packed_offsets(which).len() == 1 + if which == 0 {
            core.vertex_total()
        } else if which == 1 {
            core.edge_total()
        } else {
            core.face_total()
        },
{
    if which == 0 {
        lemma_orbit_segments(&core.vertices, vertex_rotation(core.next@, core.twin@));
    } else if which == 1 {
        core.edges.lemma_wf_facts(core.twin@);
        assert(core.edges.offsets@[core.edge_total()] == 2 * core.edge_total());
        assert(core.edges.offsets@[o] == 2 * o);
        assert(core.edges.offsets@[o + 1] == 2 * (o + 1));
        assert(core.edges.offsets@[0] == 0);
    } else {
        lemma_orbit_segments(&core.faces, core.next@);
    }
}

proof fn lemma_orbit_segments(index: &OrbitIndex, succ: Seq<usize>)
    requires
        index.wf(succ),
    ensures
        crate::orbit::segments_wf(index.offsets@, index.count_spec(), succ.len() as int),
        index.halfedges@.len() == succ.len(),
{
    reveal(OrbitIndex::wf_parts);
}

} // verus!

verus! {

/// Face and vertex orbits are numbered by their representatives in
/// increasing order, and each representative is the least halfedge of its
/// orbit.
pub proof fn law_representatives_are_least(core: &HalfedgeSurfaceCore, h: int, o: int, q: int)
    requires
        core.wf(),
        0 <= h < core.size(),
    ensures
        core.face_representatives()[core.face_of()[h] as int] <= h,
        core.vertex_representatives()[core.vertex_of()[h] as int] <= h,
        0 <= o < q < core.face_total() ==> core.face_representatives()[o] < core.face_representatives()[q],
        0 <= o < q < core.vertex_total() ==> core.vertex_representatives()[o] < core.vertex_representatives()[q],
{
}

} // verus!

verus! {

/// A face orbit and a vertex orbit list each of their halfedges once: the
/// length of the orbit is the least period of `next`, or of the rotation,
/// on its members.
pub proof fn law_orbit_members_distinct(core: &HalfedgeSurfaceCore, f: int, v: int, i: int, j: int)
    requires
        core.wf(),
    ensures
        0 <= f < core.face_total() && 0 <= i < j < core.face_members(f).len() ==> core.face_members(f)[i]
            != core.face_members(f)[j],
        0 <= v < core.vertex_total() && 0 <= i < j < core.vertex_members(v).len() ==> core.vertex_members(v)[i]
            != core.vertex_members(v)[j],
{
    if 0 <= f < core.face_total() && 0 <= i < j < core.face_members(f).len() {
        core.faces.lemma_wf_facts(core.next@);
        let start = core.faces.offsets@[f] as int;
        assert(core.faces.offsets@[f + 1] <= core.next@.len());
        assert(core.face_members(f)[i] == core.faces.halfedges@[start + i]);
        assert(core.face_members(f)[j] == core.faces.halfedges@[start + j]);
        crate::cycle::lemma_packed_distinct(&core.faces, core.next@, start + i, start + j);
    }
    if 0 <= v < core.vertex_total() && 0 <= i < j < core.vertex_members(v).len() {
        let rotation = vertex_rotation(core.next@, core.twin@);
        core.vertices.lemma_wf_facts(rotation);
        let start = core.vertices.offsets@[v] as int;
        assert(core.vertices.offsets@[v + 1] <= rotation.len());
        assert(core.vertex_members(v)[i] == core.vertices.halfedges@[start + i]);
        assert(core.vertex_members(v)[j] == core.vertices.halfedges@[start + j]);
        crate::cycle::lemma_packed_distinct(&core.vertices, rotation, start + i, start + j);
    }
}

} // verus!

verus! {

/// Edges are numbered by their representatives in increasing order, and the
/// representatives are exactly the halfedges below their twins.
pub proof fn law_edge_numbering(core: &HalfedgeSurfaceCore, h: int, o: int, q: int)
    requires
        core.wf(),
        0 <= h < core.size(),
    ensures
        0 <= o < q < core.edge_total() ==> core.edge_representatives()[o] < core.edge_representatives()[q],
        h < core.twin_rel()[h] <==> core.edge_representatives()[core.edge_of()[h] as int] == h,
{
    core.edges.lemma_wf_facts(core.twin@);
    let e = core.edges.of_halfedge@[h] as int;
    let r = core.edges.representatives@[e] as int;
    assert(r < core.twin@[r]);
    if r != h {
        assert(h == core.twin@[r]);
        assert(core.twin@[h] == r);
    }
}

} // verus!
