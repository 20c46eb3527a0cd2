use polygeo_core::complex::{CandidateInput, ComplexCore};
use polygeo_core::error::TopologyError;
use polygeo_core::evidence::{
    compute_connected, compute_oriented, compute_regular, compute_triangle, CodimensionOneRegularCapability,
    ConnectivityRejection, DomainVerdict, RegularRejection, SimplicialCapability, TriangleRejection,
};

fn complex_of(rows: &[[i128; 3]], vertex_count: Option<usize>) -> ComplexCore {
    let flat: Vec<i128> = rows.iter().flatten().copied().collect();
    let candidate = CandidateInput::signed(&flat, rows.len(), 3, vertex_count).unwrap();
    ComplexCore::admit_candidate(candidate).unwrap()
}

#[test]
fn square_disk_admits_every_capability() {
    let owner = complex_of(&[[0, 1, 2], [0, 2, 3]], None);
    let regular = owner.refine_regular().unwrap();
    assert_eq!(regular.boundary_mask(0).unwrap(), vec![true; 4]);
    // edges [0,1], [0,2], [0,3], [1,2], [2,3]: only the diagonal is interior
    assert_eq!(
        regular.boundary_mask(1).unwrap(),
        vec![true, false, true, true, true]
    );
    assert_eq!(regular.boundary_mask(2).unwrap(), vec![false, false]);
    assert_eq!(regular.boundary_mask(3), Err(TopologyError::DegreeOutside(3)));
    let mut written = vec![false; 5];
    regular.write_boundary_mask(1, &mut written).unwrap();
    assert_eq!(written, vec![true, false, true, true, true]);
    let mut wrong = vec![false; 2];
    assert_eq!(
        regular.write_boundary_mask(1, &mut wrong),
        Err(TopologyError::MaskShape)
    );
    let with = regular.with_boundary().unwrap();
    assert_eq!(with.codimension_one_simplex(), 0);
    assert_eq!(with.complex().vertex_count(), 4);

    let triangle = owner.refine_triangle().unwrap();
    assert_eq!(triangle.as_regular().owner().vertex_count(), 4);
    assert_eq!(triangle.complex().dimension(), 2);
    assert!(std::ptr::eq(triangle.owner(), &owner));
    owner.refine_oriented().unwrap();
    owner.refine_connected().unwrap();

    let disk = owner.refine_disk().unwrap();
    assert_eq!(disk.boundary_vertices().unwrap(), vec![0, 1, 2, 3]);
    assert_eq!(disk.triangle().owner().vertex_count(), 4);
}

#[test]
fn reversed_orientation_reverses_boundary_cycle() {
    let owner = complex_of(&[[0, 2, 1], [0, 3, 2]], None);
    let disk = owner.refine_disk().unwrap();
    assert_eq!(disk.boundary_vertices().unwrap(), vec![0, 3, 2, 1]);
}

#[test]
fn nonmanifold_edge_rejects_regularity_with_its_counterexample() {
    let owner = complex_of(&[[0, 1, 2], [1, 0, 3], [0, 1, 4]], None);
    match compute_regular(&owner).unwrap() {
        DomainVerdict::Rejected(rejection) => assert_eq!(
            rejection,
            RegularRejection::CodimensionOneIncidence {
                degree: 1,
                simplex: 0,
                cofaces: 3
            }
        ),
        DomainVerdict::Admitted(_) => panic!("admitted a nonmanifold edge"),
    }
    assert_eq!(
        owner.refine_regular().unwrap_err(),
        TopologyError::CodimensionOneIncidence(1, 0, 3)
    );
    assert_eq!(
        owner.refine_triangle().unwrap_err(),
        TopologyError::CodimensionOneIncidence(1, 0, 3)
    );
}

#[test]
fn unused_vertex_is_not_pure() {
    let owner = complex_of(&[[0, 1, 2]], Some(4));
    match compute_regular(&owner).unwrap() {
        DomainVerdict::Rejected(rejection) => {
            assert_eq!(rejection, RegularRejection::NotPure { vertex: 3 })
        }
        DomainVerdict::Admitted(_) => panic!("admitted an unused vertex"),
    }
    assert_eq!(owner.refine_regular().unwrap_err(), TopologyError::NotPure(3));
}

#[test]
fn closed_tetrahedron_has_no_boundary() {
    let owner = complex_of(&[[0, 2, 1], [0, 1, 3], [0, 3, 2], [1, 2, 3]], None);
    let regular = owner.refine_regular().unwrap();
    assert_eq!(regular.boundary_mask(1).unwrap(), vec![false; 6]);
    let without = regular.without_boundary().unwrap();
    assert_eq!(without.regular().owner().vertex_count(), 4);
    let regular = owner.refine_regular().unwrap();
    assert_eq!(
        regular.with_boundary().unwrap_err(),
        TopologyError::BoundaryAbsent
    );
    owner.refine_triangle().unwrap();
    owner.refine_oriented().unwrap();
    owner.refine_connected().unwrap();
    assert_eq!(
        owner.refine_disk().unwrap_err(),
        TopologyError::BoundaryAbsent
    );
}

#[test]
fn incoherent_tetrahedron_is_not_oriented() {
    let owner = complex_of(&[[0, 1, 2], [0, 1, 3], [0, 2, 3], [1, 2, 3]], None);
    assert_eq!(
        owner.refine_oriented().unwrap_err(),
        TopologyError::Orientation(0)
    );
    assert!(matches!(compute_oriented(&owner), DomainVerdict::Rejected(_)));
    assert_eq!(owner.refine_disk().unwrap_err(), TopologyError::Orientation(0));
}

#[test]
fn bowtie_vertex_link_is_disconnected() {
    let owner = complex_of(&[[0, 1, 2], [0, 3, 4]], None);
    owner.refine_regular().unwrap();
    match compute_triangle(&owner).unwrap() {
        DomainVerdict::Rejected(rejection) => {
            assert_eq!(rejection, TriangleRejection::VertexLink { vertex: 0 })
        }
        DomainVerdict::Admitted(()) => panic!("admitted a pinched vertex"),
    }
    assert_eq!(
        owner.refine_triangle().unwrap_err(),
        TopologyError::VertexLink(0)
    );
}

#[test]
fn separate_triangles_are_disconnected() {
    let owner = complex_of(&[[0, 1, 2], [3, 4, 5]], None);
    match compute_connected(&owner).unwrap() {
        DomainVerdict::Rejected(rejection) => assert_eq!(
            rejection,
            ConnectivityRejection {
                unreachable_vertex: 3
            }
        ),
        DomainVerdict::Admitted(()) => panic!("admitted two components"),
    }
    assert_eq!(
        owner.refine_connected().unwrap_err(),
        TopologyError::Disconnected(3)
    );
}

#[test]
fn annulus_has_two_boundary_components() {
    let owner = complex_of(
        &[[0, 1, 4], [0, 4, 3], [1, 2, 5], [1, 5, 4], [2, 0, 3], [2, 3, 5]],
        None,
    );
    owner.refine_triangle().unwrap();
    owner.refine_oriented().unwrap();
    owner.refine_connected().unwrap();
    assert_eq!(
        owner.refine_disk().unwrap_err(),
        TopologyError::DiskBoundaryComponents(2)
    );
}

#[test]
fn single_vertex_and_edge_dimensions() {
    let candidate = CandidateInput::signed(&[0, 1], 1, 2, None).unwrap();
    let edge = ComplexCore::admit_candidate(candidate).unwrap();
    let regular = edge.refine_regular().unwrap();
    assert_eq!(regular.boundary_mask(0).unwrap(), vec![true, true]);
    assert_eq!(
        edge.refine_triangle().unwrap_err(),
        TopologyError::TriangleDimension(1)
    );
    edge.refine_connected().unwrap();
}
