use polygeo_core::chain::{
    checked_add, checked_mul, compare_boundaries, compose_signed_recipes, permutation_is_identity,
    AtomicRecipe, ChainError, ChainLawEstimate, ChainLawLimit, ComparisonBudget, CompositionError,
    IsomorphismError, PresentationError,
};
use polygeo_core::complex::{CandidateInput, ComplexCore};
use polygeo_core::correspondence::SignedPermutation;
use polygeo_core::error::TopologyError;
use polygeo_core::limit::{StorageLimit, WorkLimit};

fn triangle() -> ComplexCore {
    let candidate = CandidateInput::signed(&[0, 1, 2], 1, 3, Some(3)).unwrap();
    ComplexCore::admit_candidate(candidate).unwrap()
}

#[test]
fn error_reasons() {
    assert_eq!(PresentationError::Mismatch.reason(), "presentation_mismatch");
    assert_eq!(
        PresentationError::ComparisonSteps { required: 3, limit: 2 }.resource_limit(),
        Some(("comparison_steps", 3, 2))
    );
    assert_eq!(
        PresentationError::Topology(TopologyError::TwinLaw(0, 0, 0)).reason(),
        "twin_law"
    );
    let outside = ChainError::BasisIndexOutside { index: 4, bound: 3 };
    assert_eq!(outside.reason(), "basis_index_outside");
    assert_eq!(outside.index(), Some(4));
    assert_eq!(outside.bound(), Some(3));
    assert_eq!(ChainError::SpaceMismatch.index(), None);
    assert_eq!(CompositionError::PlanLimit.reason(), "composition_plan_limit");
    assert_eq!(IsomorphismError::InvalidCandidate.reason(), "correspondence_law");
    assert_eq!(
        IsomorphismError::Terms { required: 5, limit: 4 }.resource_limit(),
        Some(("terms", 5, 4))
    );
    assert_eq!(IsomorphismError::Overflow.reason(), "count_overflow");
}

#[test]
fn chain_law_limits_refuse_the_first_exceeded_axis() {
    let limit = ChainLawLimit::new(StorageLimit::new(10, 20).unwrap(), WorkLimit::new(5));
    assert_eq!(limit.terms().steps(), 5);
    let fits = ChainLawEstimate { retained: 10, peak: 20, terms: 5 };
    assert_eq!(fits.within(limit), Ok(()));
    let retained = ChainLawEstimate { retained: 11, peak: 30, terms: 6 };
    assert_eq!(
        retained.within(limit),
        Err(IsomorphismError::RetainedLogicalBytes { required: 11, limit: 10 })
    );
    let peak = ChainLawEstimate { retained: 1, peak: 21, terms: 6 };
    assert_eq!(
        peak.within(limit),
        Err(IsomorphismError::PeakLiveLogicalBytes { required: 21, limit: 20 })
    );
    let terms = ChainLawEstimate { retained: 1, peak: 2, terms: 6 };
    assert_eq!(terms.within(limit), Err(IsomorphismError::Terms { required: 6, limit: 5 }));
    assert_eq!(ChainLawLimit::default_limit().terms().steps(), 100_000_000);
    assert_eq!(checked_mul(3, 7), Ok(21));
    assert_eq!(checked_mul(usize::MAX, 2), Err(IsomorphismError::Overflow));
    assert_eq!(checked_add(u64::MAX, 1), Err(IsomorphismError::Overflow));
    assert_eq!(checked_add(2, 3), Ok(5));
}

#[test]
fn comparison_budget_charges_each_step() {
    let mut budget = ComparisonBudget::new(WorkLimit::new(2));
    assert_eq!(budget.charge(), Ok(()));
    assert_eq!(budget.compare_counts(3, 3), Ok(true));
    assert_eq!(
        budget.charge(),
        Err(PresentationError::ComparisonSteps { required: 3, limit: 2 })
    );
    let mut wide = ComparisonBudget::new(WorkLimit::new(10));
    assert_eq!(wide.compare_slice(&[1, 2, 3], &[1, 2, 3]), Ok(true));
    assert_eq!(wide.compare_slice(&[1, 2], &[1, 3]), Ok(false));
}

#[test]
fn boundaries_compare_equal_to_themselves() {
    let complex = triangle();
    let view = complex.chain_view();
    let mut budget = ComparisonBudget::new(WorkLimit::new(100));
    let top = view.boundary(2).unwrap();
    let edges = view.boundary(1).unwrap();
    assert_eq!(compare_boundaries(top, top, &mut budget), Ok(true));
    assert_eq!(compare_boundaries(top, edges, &mut budget), Ok(false));
    let mut empty = ComparisonBudget::new(WorkLimit::new(1));
    assert!(matches!(
        compare_boundaries(edges, edges, &mut empty),
        Err(PresentationError::ComparisonSteps { .. })
    ));
}

#[test]
fn signed_permutations_compose() {
    let rotate = SignedPermutation::from_parts(vec![1, 2, 0], vec![1, -1, 1]).unwrap();
    let after = AtomicRecipe::SignedPermutation { permutation: rotate.duplicate(), inverse: false };
    let before = AtomicRecipe::SignedPermutation { permutation: rotate, inverse: true };
    let composite = compose_signed_recipes(&after, &before).unwrap().unwrap();
    assert_eq!(composite.target_of_source(), &[0, 1, 2]);
    assert_eq!(composite.signs(), &[1, 1, 1]);
    assert!(permutation_is_identity(&composite));

    let twice = compose_signed_recipes(&after, &after).unwrap().unwrap();
    assert_eq!(twice.target_of_source(), &[2, 0, 1]);
    assert_eq!(twice.signs(), &[-1, -1, 1]);
    assert!(!permutation_is_identity(&twice));

    assert!(compose_signed_recipes(&after, &AtomicRecipe::Identity).unwrap().is_none());
    let short = AtomicRecipe::SignedPermutation {
        permutation: SignedPermutation::from_parts(vec![0], vec![1]).unwrap(),
        inverse: false,
    };
    assert_eq!(
        compose_signed_recipes(&after, &short).err(),
        Some(CompositionError::SpaceMismatch)
    );
}
