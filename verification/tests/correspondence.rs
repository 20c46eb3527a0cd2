use polygeo_core::correspondence::SignedPermutation;
use polygeo_core::error::TopologyError;

#[test]
fn signed_permutation_rejects_false_inverse_claims() {
    assert!(SignedPermutation::from_parts(vec![0, 0], vec![1, 1]).is_err());
    assert!(SignedPermutation::from_parts(vec![0, 1], vec![1, 0]).is_err());
    assert!(SignedPermutation::from_parts(vec![0, 2], vec![1, 1]).is_err());
}

#[test]
fn signed_permutation_maps_and_inverts() {
    let permutation = SignedPermutation::from_parts(vec![2, 0, 1], vec![1, -1, 1]).unwrap();
    assert_eq!(permutation.len(), 3);
    assert_eq!(permutation.map_basis(1), Ok((0, -1)));
    assert_eq!(permutation.inverse_basis(0), Ok((1, -1)));
    for source in 0..3 {
        let (target, sign) = permutation.map_basis(source).unwrap();
        assert_eq!(permutation.inverse_basis(target), Ok((source, sign)));
    }
    assert_eq!(permutation.map_basis(3), Err(TopologyError::DegreeOutside(3)));
    assert_eq!(permutation.inverse_basis(3), Err(TopologyError::DegreeOutside(3)));
    assert_eq!(
        SignedPermutation::from_parts(vec![0], vec![1, 1]).unwrap_err(),
        TopologyError::CorrespondenceLaw
    );
}
