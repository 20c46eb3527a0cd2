use polygeo_core::error::{HalfedgeRole, TopologyError};
use polygeo_core::halfedge::{FaceKind, HalfedgeInput, HalfedgeSurfaceCore};
use polygeo_core::incidence::CoefficientSlice;
use polygeo_core::surface::checked_coefficient_sum;

fn two_triangles() -> HalfedgeInput {
    HalfedgeInput::unsigned(&[1, 2, 0, 5, 3, 4], &[3, 4, 5, 0, 1, 2], &[3], 6).unwrap()
}

#[test]
fn warmed_navigation_does_not_reenter_orbit_enumeration() {
    let input = two_triangles();
    let surface = HalfedgeSurfaceCore::admit_presentation(input).unwrap();
    let admitted = surface.orbit_enumerations();
    assert_eq!(admitted, 3);

    let mut digest = 0_usize;
    for _ in 0..1_024 {
        for halfedge in surface.halfedges() {
            digest ^= halfedge.next().index();
            digest ^= halfedge.twin().index();
            let _ = halfedge.vertex();
            let _ = halfedge.edge();
            let _ = halfedge.face_orbit();
        }
    }
    std::hint::black_box(digest);
    assert_eq!(surface.orbit_enumerations(), admitted);
}

#[test]
fn native_input_transfers_owned_buffers_without_copying() {
    let next = vec![1, 2, 0, 5, 3, 4];
    let next_pointer = next.as_ptr();
    let input = HalfedgeInput::native(
        next.into_boxed_slice(),
        vec![3, 4, 5, 0, 1, 2].into_boxed_slice(),
        vec![3].into_boxed_slice(),
    )
    .unwrap();
    let surface = HalfedgeSurfaceCore::admit_presentation(input).unwrap();

    assert_eq!(surface.presentation_next().as_ptr(), next_pointer);
}

#[test]
fn two_sided_triangle_counts() {
    let surface = HalfedgeSurfaceCore::admit_presentation(two_triangles()).unwrap();
    assert_eq!(surface.halfedge_count(), 6);
    assert_eq!(surface.vertex_count(), 3);
    assert_eq!(surface.edge_count(), 3);
    assert_eq!(surface.face_orbit_count(), 2);
    assert_eq!(surface.material_face_count(), 1);
    assert_eq!(surface.exterior_face_count(), 1);
    assert_eq!(surface.boundary_component_count(), 1);
    assert_eq!(surface.connected_component_count(), 1);
    assert_eq!(surface.euler_characteristic(), 1);
    let kinds = surface.presentation_face_kinds();
    assert_eq!(kinds.len(), 2);
    assert!(kinds.contains(&FaceKind::Exterior));
    assert!(kinds.contains(&FaceKind::Material));
}

#[test]
fn navigation_laws_hold_on_concrete_surface() {
    let surface = HalfedgeSurfaceCore::admit_presentation(two_triangles()).unwrap();
    for halfedge in surface.halfedges() {
        // twin is an involution without fixed points
        assert_eq!(halfedge.twin().twin().index(), halfedge.index());
        assert_ne!(halfedge.twin().index(), halfedge.index());
        // next stays in the face orbit, twin stays on the edge
        assert_eq!(halfedge.next().face_orbit().index(), halfedge.face_orbit().index());
        assert_eq!(halfedge.twin().edge().index(), halfedge.edge().index());
        // the vertex rotation twin-then-next stays at the vertex
        assert_eq!(halfedge.twin().next().vertex().index(), halfedge.vertex().index());
    }
}

#[test]
fn signed_input_rejects_negative_and_range() {
    assert_eq!(
        HalfedgeInput::signed(&[1, -2, 0], &[1, 0, 2], &[], 3).unwrap_err(),
        TopologyError::NegativeIndex(-2)
    );
    assert_eq!(
        HalfedgeInput::unsigned(&[1, 2], &[1, 0], &[], 3).unwrap_err(),
        TopologyError::HalfedgeShape
    );
    assert_eq!(
        HalfedgeInput::unsigned(&[u128::MAX], &[0], &[], 1).unwrap_err(),
        TopologyError::IndexOverflow(u128::MAX)
    );
}

#[test]
fn admission_rejects_non_permutation_and_bad_twin() {
    let repeated = HalfedgeInput::unsigned(&[1, 1, 0, 5, 3, 4], &[3, 4, 5, 0, 1, 2], &[3], 6).unwrap();
    assert_eq!(
        HalfedgeSurfaceCore::admit_presentation(repeated).err(),
        Some(TopologyError::HalfedgePermutation(HalfedgeRole::Next, 1, 1, 6))
    );
    let fixed_twin = HalfedgeInput::unsigned(&[1, 2, 0, 5, 3, 4], &[0, 4, 5, 3, 1, 2], &[3], 6).unwrap();
    assert_eq!(
        HalfedgeSurfaceCore::admit_presentation(fixed_twin).err(),
        Some(TopologyError::TwinLaw(0, 0, 0))
    );
}

fn dense(boundary: polygeo_core::incidence::BoundaryRef<'_>) -> Vec<Vec<i64>> {
    let (rows, columns) = boundary.shape();
    let values: Vec<i64> = match boundary.coefficients() {
        CoefficientSlice::I64(values) => values.to_vec(),
        CoefficientSlice::I8(values) => values.iter().map(|v| i64::from(*v)).collect(),
    };
    let mut matrix = vec![vec![0_i64; columns]; rows];
    for row in 0..rows {
        for position in boundary.indptr()[row]..boundary.indptr()[row + 1] {
            matrix[row][boundary.indices()[position]] += values[position];
        }
    }
    matrix
}

#[test]
fn surface_chain_of_two_sided_triangle() {
    let surface = HalfedgeSurfaceCore::admit_presentation(two_triangles()).unwrap();
    let view = surface.chain_view();
    assert_eq!(view.dimension(), 2);
    assert_eq!(view.basis_size(0).unwrap(), 3);
    assert_eq!(view.basis_size(1).unwrap(), 3);
    assert_eq!(view.basis_size(2).unwrap(), 1);
    assert_eq!(view.basis_size(3).unwrap_err(), TopologyError::DegreeOutside(3));

    let zero = view.boundary(0).unwrap();
    assert_eq!(zero.degree(), 0);
    assert_eq!(zero.shape(), (0, 3));
    assert_eq!(zero.indptr(), &[0]);

    let one = view.boundary(1).unwrap();
    assert_eq!(one.degree(), 1);
    assert_eq!(one.shape(), (3, 3));
    assert_eq!(one.indptr(), &[0, 2, 4, 6]);
    assert_eq!(one.indices(), &[0, 2, 0, 1, 1, 2]);
    assert!(matches!(one.coefficients(), CoefficientSlice::I64(values) if values == [-1, 1, 1, -1, 1, -1]));

    let two = view.boundary(2).unwrap();
    assert_eq!(two.degree(), 2);
    assert_eq!(two.shape(), (3, 1));
    assert_eq!(two.indptr(), &[0, 1, 2, 3]);
    assert_eq!(two.indices(), &[0, 0, 0]);
    assert!(matches!(two.coefficients(), CoefficientSlice::I64(values) if values == [1, 1, 1]));

    assert_eq!(view.boundary(3).unwrap_err(), TopologyError::DegreeOutside(3));
}

#[test]
fn surface_boundary_of_boundary_vanishes() {
    // a square of two triangles, 0-1-2 and 0-2-3, bounded by one exterior loop
    let next = [1, 2, 0, 4, 5, 3, 9, 6, 7, 8];
    let twin = [6, 7, 3, 2, 8, 9, 0, 1, 4, 5];
    let input = HalfedgeInput::unsigned(&next.map(|v: usize| v as u128), &twin.map(|v: usize| v as u128), &[6], 10)
        .unwrap();
    let surface = HalfedgeSurfaceCore::admit_presentation(input).unwrap();
    let view = surface.chain_view();
    let lower = dense(view.boundary(1).unwrap());
    let upper = dense(view.boundary(2).unwrap());
    assert_eq!(upper[0].len(), 2);
    for vertex in 0..lower.len() {
        for face in 0..upper[0].len() {
            let product: i64 = (0..upper.len()).map(|edge| lower[vertex][edge] * upper[edge][face]).sum();
            assert_eq!(product, 0);
        }
    }
}

#[test]
fn warmed_chain_views_do_not_rebuild_projection() {
    let input = HalfedgeInput::unsigned(&[1, 2, 0, 5, 3, 4], &[3, 4, 5, 0, 1, 2], &[3], 6).unwrap();
    let surface = HalfedgeSurfaceCore::admit_presentation(input).unwrap();
    let admitted = surface.chain_projections();
    assert_eq!(admitted, 1);

    for _ in 0..1_024 {
        let mut entries = surface.chain_view().boundary(2).unwrap().exact_entries();
        let mut count = 0_usize;
        while entries.next().is_some() {
            count += 1;
        }
        std::hint::black_box(count);
    }
    assert_eq!(surface.chain_projections(), admitted);
}

#[test]
fn coefficient_overflow_fails_without_large_allocation() {
    let bound = usize::try_from(i64::MAX).unwrap_or(usize::MAX);
    assert_eq!(checked_coefficient_sum(i64::MAX, 1, bound).unwrap_err(), TopologyError::CountOverflow);
    assert_eq!(checked_coefficient_sum(1, 1, 1).unwrap_err(), TopologyError::CountOverflow);
}

#[test]
fn two_sided_triangle_numbering() {
    let surface = HalfedgeSurfaceCore::admit_presentation(two_triangles()).unwrap();
    assert_eq!(surface.genus(), Some(0));
    let edges: Vec<usize> = (0..6).map(|i| surface.halfedge(i).unwrap().edge().index()).collect();
    assert_eq!(edges, vec![0, 1, 2, 0, 1, 2]);
    let faces: Vec<usize> = (0..6).map(|i| surface.halfedge(i).unwrap().face_orbit().index()).collect();
    assert_eq!(faces, vec![0, 0, 0, 1, 1, 1]);
    let vertices: Vec<usize> = (0..6).map(|i| surface.halfedge(i).unwrap().vertex().index()).collect();
    assert_eq!(vertices, vec![0, 1, 2, 1, 2, 0]);
    assert_eq!(surface.halfedge(0).unwrap().face_orbit().kind(), FaceKind::Material);
    assert_eq!(surface.halfedge(4).unwrap().face_orbit().kind(), FaceKind::Exterior);
    let boundary: Vec<bool> =
        (0..6).map(|i| surface.halfedge(i).unwrap().as_material_boundary().is_some()).collect();
    assert_eq!(boundary, vec![true, true, true, false, false, false]);
}

#[test]
fn seeds_on_one_face_orbit_are_refused() {
    let input = HalfedgeInput::unsigned(&[1, 2, 0, 5, 3, 4], &[3, 4, 5, 0, 1, 2], &[3, 4], 6).unwrap();
    assert!(matches!(
        HalfedgeSurfaceCore::admit_presentation(input),
        Err(TopologyError::ExteriorInconsistency(4, 1))
    ));
}
