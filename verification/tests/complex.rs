use polygeo_core::complex::{CandidateInput, ComplexCore};
use polygeo_core::error::TopologyError;

fn triangle() -> ComplexCore {
    let candidate = CandidateInput::signed(&[0, 1, 2], 1, 3, Some(3)).unwrap();
    ComplexCore::admit_candidate(candidate).unwrap()
}

#[test]
fn triangle_bases_and_boundaries() {
    let complex = triangle();
    assert_eq!(complex.vertex_count(), 3);
    assert_eq!(complex.dimension(), 2);
    assert_eq!(complex.basis(0).unwrap().values(), &[0, 1, 2]);
    assert_eq!(complex.basis(1).unwrap().values(), &[0, 1, 0, 2, 1, 2]);
    assert_eq!(complex.basis(2).unwrap().values(), &[0, 1, 2]);
    assert_eq!(complex.orientation(2).unwrap(), &[1]);
    assert_eq!(complex.orientation(1).unwrap(), &[1, 1, 1]);

    let top = complex.boundary(2).unwrap();
    assert_eq!(top.degree(), 2);
    assert_eq!(top.shape(), (3, 1));
    assert_eq!(top.indptr(), &[0, 1, 2, 3]);
    assert_eq!(top.indices(), &[0, 0, 0]);
    // faces [1,2] (removed 0, +1), [0,2] (removed 1, -1), [0,1] (removed 2, +1)
    assert_eq!(top.data(), &[1, -1, 1]);
    assert_eq!(complex.immediate_faces(2).unwrap(), &[2, 1, 0]);

    let edges = complex.boundary(1).unwrap();
    assert_eq!(edges.shape(), (3, 3));
    assert_eq!(edges.indptr(), &[0, 2, 4, 6]);
    assert_eq!(edges.indices(), &[0, 1, 0, 2, 1, 2]);
    assert_eq!(edges.data(), &[-1, -1, 1, -1, 1, 1]);

    let vertices = complex.boundary(0).unwrap();
    assert_eq!(vertices.shape(), (0, 3));
    assert_eq!(vertices.indptr(), &[0]);
    assert_eq!(complex.basis(3).unwrap_err(), TopologyError::DegreeOutside(3));
    assert_eq!(complex.boundary(3).unwrap_err(), TopologyError::DegreeOutside(3));
}

#[test]
fn boundary_of_boundary_vanishes_on_triangle() {
    let complex = triangle();
    let top = complex.boundary(2).unwrap();
    let edges = complex.boundary(1).unwrap();
    // dense product of the vertex-edge and edge-face incidence matrices
    let mut dense_edges = [[0_i64; 3]; 3];
    for row in 0..3 {
        for position in edges.indptr()[row]..edges.indptr()[row + 1] {
            dense_edges[row][edges.indices()[position]] = i64::from(edges.data()[position]);
        }
    }
    let mut face = [0_i64; 3];
    for row in 0..3 {
        for position in top.indptr()[row]..top.indptr()[row + 1] {
            face[row] += i64::from(top.data()[position]);
        }
    }
    for vertex in 0..3 {
        let total: i64 = (0..3).map(|edge| dense_edges[vertex][edge] * face[edge]).sum();
        assert_eq!(total, 0);
    }
}

#[test]
fn canonicalization_sorts_rows_and_keeps_signs() {
    let candidate = CandidateInput::unsigned(&[3, 1, 2, 0, 1, 2], 2, 3, None).unwrap();
    let complex = ComplexCore::admit_candidate(candidate).unwrap();
    assert_eq!(complex.vertex_count(), 4);
    assert_eq!(complex.basis(2).unwrap().values(), &[0, 1, 2, 1, 2, 3]);
    // [3, 1, 2] sorts by an even permutation, [0, 1, 2] is already sorted
    assert_eq!(complex.orientation(2).unwrap(), &[1, 1]);
    assert_eq!(complex.basis(1).unwrap().row_count(), 5);
}

#[test]
fn candidate_errors() {
    assert_eq!(
        CandidateInput::signed(&[0, -1, 2], 1, 3, None).unwrap_err(),
        TopologyError::NegativeIndex(-1)
    );
    assert_eq!(
        CandidateInput::unsigned(&[0, 1], 1, 3, None).unwrap_err(),
        TopologyError::CandidateShape
    );
    assert_eq!(
        CandidateInput::unsigned(&[0, 1, 2, 3], 1, 3, None).unwrap_err(),
        TopologyError::CandidateShape
    );
    assert_eq!(
        CandidateInput::unsigned(&[0, 1, 1], 1, 3, None).unwrap_err(),
        TopologyError::RepeatedVertex(1)
    );
    assert_eq!(
        CandidateInput::unsigned(&[], usize::MAX, 2, None).unwrap_err(),
        TopologyError::CountOverflow
    );
}

#[test]
fn admission_errors() {
    let empty = CandidateInput::unsigned(&[], 0, 3, None).unwrap();
    assert_eq!(
        ComplexCore::admit_candidate(empty).unwrap_err(),
        TopologyError::EmptyMaximalSimplices
    );
    let extent = CandidateInput::unsigned(&[0, 1, 5], 1, 3, Some(5)).unwrap();
    assert_eq!(
        ComplexCore::admit_candidate(extent).unwrap_err(),
        TopologyError::VertexExtent(5, 6)
    );
    let duplicate = CandidateInput::unsigned(&[0, 1, 2, 2, 0, 1], 2, 3, None).unwrap();
    assert_eq!(
        ComplexCore::admit_candidate(duplicate).unwrap_err(),
        TopologyError::DuplicateMaximalSimplex
    );
}

#[test]
fn single_vertex_rows_must_list_every_vertex() {
    let all = CandidateInput::unsigned(&[1, 0], 2, 1, None).unwrap();
    let complex = ComplexCore::admit_candidate(all).unwrap();
    assert_eq!(complex.dimension(), 0);
    assert_eq!(complex.basis(0).unwrap().values(), &[0, 1]);
    let missing = CandidateInput::unsigned(&[0, 2], 2, 1, None).unwrap();
    assert_eq!(
        ComplexCore::admit_candidate(missing).unwrap_err(),
        TopologyError::InternalInvariant
    );
}

#[test]
fn chain_view_exposes_bases_and_entries() {
    let complex = triangle();
    let view = complex.chain_view();
    assert_eq!(view.dimension(), 2);
    assert_eq!(view.basis_size(0), Ok(3));
    assert_eq!(view.basis_size(1), Ok(3));
    assert_eq!(view.basis_size(2), Ok(1));
    assert_eq!(view.basis_size(3), Err(TopologyError::DegreeOutside(3)));
    let top = view.boundary(2).unwrap();
    assert_eq!(top.degree(), 2);
    assert_eq!(top.shape(), (3, 1));
    let mut entries = top.exact_entries();
    assert_eq!(entries.remaining(), 3);
    assert_eq!(entries.next(), Some((0, 0, 1)));
    assert_eq!(entries.next(), Some((1, 0, -1)));
    assert_eq!(entries.next(), Some((2, 0, 1)));
    assert_eq!(entries.next(), None);
    assert!(view.boundary(3).is_err());
}

#[test]
fn tetrahedron_faces() {
    let candidate = CandidateInput::unsigned(&[0, 1, 2, 3], 1, 4, None).unwrap();
    let complex = ComplexCore::admit_candidate(candidate).unwrap();
    assert_eq!(complex.basis(1).unwrap().row_count(), 6);
    assert_eq!(complex.basis(2).unwrap().row_count(), 4);
    assert_eq!(complex.basis(2).unwrap().values(), &[0, 1, 2, 0, 1, 3, 0, 2, 3, 1, 2, 3]);
    assert_eq!(complex.immediate_face_rows(3).unwrap(), &[3, 2, 1, 0]);
}

#[test]
fn repeated_vertex_reports_first_repeated_entry() {
    // in the row [1, 2, 2, 1] the first entry that occurs again is 1
    assert_eq!(
        CandidateInput::unsigned(&[1, 2, 2, 1], 1, 4, None).unwrap_err(),
        TopologyError::RepeatedVertex(1)
    );
}
