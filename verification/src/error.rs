use vstd::prelude::*;

verus! {

/// The halfedge relation or request whose value a range or permutation
/// refusal names.
#[derive(Clone, Copy, Debug, PartialEq, Eq, Structural)]
pub enum HalfedgeRole {
    Next,
    Twin,
    ExteriorSeed,
    Halfedge,
}

/// Classified failure of a topology admission or query.
///
/// Every variant is a stable machine-readable classification. The variants
/// with fields carry the offending values: a halfedge value out of range or
/// repeated (the relation, the halfedge, its value and the count), a vertex count that does
/// not cover the largest entry (the count and one more than that entry), a
/// negative or oversized transport value, a repeated vertex, a broken twin
/// law, a degree or index outside the owner, two colliding exterior halfedges, a present boundary, and the
/// counterexample of a regularity, triangle-manifold, orientation,
/// connectivity or disk refinement.
#[derive(Clone, Copy, Debug, PartialEq, Eq, Structural)]
pub enum TopologyError {
    Allocation,
    BoundaryAbsent,
    BoundaryPresent(usize),
    BoundaryCycle(usize, usize),
    CandidateShape,
    CapabilityNotAdmitted,
    CodimensionOneIncidence(usize, usize, usize),
    ConversionNotSimplicial,
    CorrespondenceLaw,
    CountOverflow,
    DegreeOutside(usize),
    Disconnected(usize),
    DiskBoundaryComponents(usize),
    DiskEulerCharacteristic(i128),
    DuplicateMaximalSimplex,
    EmptyMaximalSimplices,
    ExteriorInconsistency(usize, usize),
    HalfedgePermutation(HalfedgeRole, usize, usize, usize),
    HalfedgeRange(HalfedgeRole, usize, usize, usize),
    HalfedgeShape,
    IndexOverflow(u128),
    InternalInvariant,
    MaskIndexOutside,
    MaskShape,
    NegativeIndex(i128),
    NotPure(usize),
    Orientation(usize),
    RepeatedVertex(usize),
    TriangleDimension(usize),
    TwinLaw(usize, usize, usize),
    VertexExtent(usize, usize),
    VertexLink(usize),
}

impl TopologyError {
    /// The stable reason text of each classification.
    pub open spec fn reason_text(self) -> Seq<char> {
        match self {
            TopologyError::Allocation => "allocation"@,
            TopologyError::BoundaryAbsent => "boundary_absent"@,
            TopologyError::BoundaryPresent(_) => "boundary_present"@,
            TopologyError::BoundaryCycle(..) => "boundary_cycle"@,
            TopologyError::CandidateShape => "candidate_shape"@,
            TopologyError::CapabilityNotAdmitted => "capability_not_admitted"@,
            TopologyError::CodimensionOneIncidence(..) => "codimension_one_incidence"@,
            TopologyError::ConversionNotSimplicial => "conversion_not_simplicial"@,
            TopologyError::CorrespondenceLaw => "correspondence_law"@,
            TopologyError::CountOverflow => "count_overflow"@,
            TopologyError::DegreeOutside(_) => "degree_outside"@,
            TopologyError::Disconnected(_) => "disconnected"@,
            TopologyError::DiskBoundaryComponents(_) => "disk_boundary_components"@,
            TopologyError::DiskEulerCharacteristic(_) => "disk_euler_characteristic"@,
            TopologyError::DuplicateMaximalSimplex => "duplicate_maximal_simplex"@,
            TopologyError::EmptyMaximalSimplices => "empty_maximal_simplices"@,
            TopologyError::ExteriorInconsistency(..) => "exterior_inconsistency"@,
            TopologyError::HalfedgePermutation(..) => "halfedge_permutation"@,
            TopologyError::HalfedgeRange(..) => "halfedge_range"@,
            TopologyError::HalfedgeShape => "halfedge_shape"@,
            TopologyError::IndexOverflow(_) => "index_overflow"@,
            TopologyError::InternalInvariant => "internal_invariant"@,
            TopologyError::MaskIndexOutside => "mask_index_outside"@,
            TopologyError::MaskShape => "mask_shape"@,
            TopologyError::NegativeIndex(_) => "negative_index"@,
            TopologyError::NotPure(_) => "not_pure"@,
            TopologyError::Orientation(_) => "orientation"@,
            TopologyError::RepeatedVertex(_) => "repeated_vertex"@,
            TopologyError::TriangleDimension(_) => "triangle_dimension"@,
            TopologyError::TwinLaw(..) => "twin_law"@,
            TopologyError::VertexExtent(..) => "vertex_extent"@,
            TopologyError::VertexLink(_) => "vertex_link"@,
        }
    }

    /// Stable machine-readable reason.
    pub fn reason(self) -> (text: &'static str)
        ensures
            text@ == self.reason_text(),
    {
        match self {
            TopologyError::Allocation => "allocation",
            TopologyError::BoundaryAbsent => "boundary_absent",
            TopologyError::BoundaryPresent(_) => "boundary_present",
            TopologyError::BoundaryCycle(..) => "boundary_cycle",
            TopologyError::CandidateShape => "candidate_shape",
            TopologyError::CapabilityNotAdmitted => "capability_not_admitted",
            TopologyError::CodimensionOneIncidence(..) => "codimension_one_incidence",
            TopologyError::ConversionNotSimplicial => "conversion_not_simplicial",
            TopologyError::CorrespondenceLaw => "correspondence_law",
            TopologyError::CountOverflow => "count_overflow",
            TopologyError::DegreeOutside(_) => "degree_outside",
            TopologyError::Disconnected(_) => "disconnected",
            TopologyError::DiskBoundaryComponents(_) => "disk_boundary_components",
            TopologyError::DiskEulerCharacteristic(_) => "disk_euler_characteristic",
            TopologyError::DuplicateMaximalSimplex => "duplicate_maximal_simplex",
            TopologyError::EmptyMaximalSimplices => "empty_maximal_simplices",
            TopologyError::ExteriorInconsistency(..) => "exterior_inconsistency",
            TopologyError::HalfedgePermutation(..) => "halfedge_permutation",
            TopologyError::HalfedgeRange(..) => "halfedge_range",
            TopologyError::HalfedgeShape => "halfedge_shape",
            TopologyError::IndexOverflow(_) => "index_overflow",
            TopologyError::InternalInvariant => "internal_invariant",
            TopologyError::MaskIndexOutside => "mask_index_outside",
            TopologyError::MaskShape => "mask_shape",
            TopologyError::NegativeIndex(_) => "negative_index",
            TopologyError::NotPure(_) => "not_pure",
            TopologyError::Orientation(_) => "orientation",
            TopologyError::RepeatedVertex(_) => "repeated_vertex",
            TopologyError::TriangleDimension(_) => "triangle_dimension",
            TopologyError::TwinLaw(..) => "twin_law",
            TopologyError::VertexExtent(..) => "vertex_extent",
            TopologyError::VertexLink(_) => "vertex_link",
        }
    }
}

} // verus!
