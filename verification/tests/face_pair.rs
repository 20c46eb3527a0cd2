use polygeo_core::complex::{CandidateInput, ComplexCore};
use polygeo_core::error::TopologyError;
use polygeo_core::face_pair::{cup_face_pair, wedge_face_pairs, wedge_normalization, OrientedFacePair};

fn triangle() -> ComplexCore {
    let candidate = CandidateInput::signed(&[0, 1, 2], 1, 3, Some(3)).unwrap();
    ComplexCore::admit_candidate(candidate).unwrap()
}

fn triple(pair: &OrientedFacePair) -> (usize, usize, i8) {
    (pair.left, pair.right, pair.sign)
}

#[test]
fn cup_splits_triangle_into_front_and_back() {
    let complex = triangle();
    // front [0, 1] is edge 0, back [1, 2] is edge 2
    let pair = cup_face_pair(&complex, 1, 2, 0).unwrap();
    assert_eq!(triple(&pair), (0, 2, 1));
    // front [0] is vertex 0, back [0, 1, 2] is the triangle
    let pair = cup_face_pair(&complex, 0, 2, 0).unwrap();
    assert_eq!(triple(&pair), (0, 0, 1));
    // an edge [0, 2] splits into vertex 0 and the edge itself
    let pair = cup_face_pair(&complex, 0, 1, 1).unwrap();
    assert_eq!(triple(&pair), (0, 1, 1));
}

#[test]
fn cup_rejects_missing_degree_and_simplex() {
    let complex = triangle();
    assert_eq!(cup_face_pair(&complex, 1, 3, 0).unwrap_err(), TopologyError::DegreeOutside(3));
    assert_eq!(cup_face_pair(&complex, 1, 2, 1).unwrap_err(), TopologyError::InternalInvariant);
    assert_eq!(cup_face_pair(&complex, 4, 2, 0).unwrap_err(), TopologyError::DegreeOutside(4));
}

#[test]
fn wedge_normalization_counts_shuffle_terms() {
    assert_eq!(wedge_normalization(0, 0).unwrap(), 1);
    assert_eq!(wedge_normalization(1, 1).unwrap(), 6);
    assert_eq!(wedge_normalization(1, 2).unwrap(), 12);
    assert_eq!(wedge_normalization(2, 1).unwrap(), 12);
    assert_eq!(wedge_normalization(2, 2).unwrap(), 30);
    assert_eq!(wedge_normalization(usize::MAX, 1).unwrap_err(), TopologyError::CountOverflow);
    assert_eq!(wedge_normalization(40, 40).unwrap_err(), TopologyError::CountOverflow);
}

#[test]
fn wedge_pairs_of_two_edges_on_triangle() {
    let complex = triangle();
    let pairs = wedge_face_pairs(&complex, 1, 1).unwrap();
    let listed: Vec<(usize, (usize, usize, i8))> =
        pairs.iter().map(|(target, pair)| (*target, triple(pair))).collect();
    assert_eq!(
        listed,
        vec![
            (0, (0, 1, 1)),
            (0, (1, 0, -1)),
            (0, (0, 2, 1)),
            (0, (2, 0, -1)),
            (0, (1, 2, 1)),
            (0, (2, 1, -1)),
        ]
    );
    assert_eq!(pairs.len() as i64, wedge_normalization(1, 1).unwrap());
}

#[test]
fn wedge_pairs_of_vertex_and_edge() {
    let complex = triangle();
    let pairs = wedge_face_pairs(&complex, 0, 1).unwrap();
    // three edges, two shared positions each, one empty choice
    let listed: Vec<(usize, (usize, usize, i8))> =
        pairs.iter().map(|(target, pair)| (*target, triple(pair))).collect();
    assert_eq!(
        listed,
        vec![
            (0, (0, 0, 1)),
            (0, (1, 0, 1)),
            (1, (0, 1, 1)),
            (1, (2, 1, 1)),
            (2, (1, 2, 1)),
            (2, (2, 2, 1)),
        ]
    );
    assert_eq!(pairs.len() as i64, 3 * wedge_normalization(0, 1).unwrap());
}

#[test]
fn wedge_pairs_reject_degrees_beyond_owner() {
    let complex = triangle();
    assert_eq!(wedge_face_pairs(&complex, 2, 1).unwrap_err(), TopologyError::DegreeOutside(3));
    assert_eq!(wedge_face_pairs(&complex, usize::MAX, 1).unwrap_err(), TopologyError::CountOverflow);
}
