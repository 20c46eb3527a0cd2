use polygeo_core::homology::{
    add_product_bits, ceil_log2, logical_bytes, product_bits, HomologyError, HomologyLimit, HomologyUse,
};
use polygeo_core::limit::{StorageLimit, WorkLimit};
use polygeo_core::realization::{bytes, ExactUse, RealizationError, RealizationLimit};
use polygeo_core::form::{Binary64ElementError, ProblemError};
use polygeo_core::error::TopologyError;

#[test]
fn cumulative_use_rejects_before_growth() {
    let limit = HomologyLimit::default_limit()
        .with_storage(StorageLimit::new(10, 11).unwrap())
        .with_smith_steps(WorkLimit::new(3))
        .with_coefficient_bits(8);
    let mut usage = HomologyUse::new(limit);
    assert_eq!(usage.input(1, 8), Ok(()));
    assert_eq!(
        usage.input(1, 9),
        Err(HomologyError::CoefficientBits { required: 9, limit: 8 })
    );
    assert_eq!(usage.retain(10), Ok(()));
    assert_eq!(
        usage.retain(1),
        Err(HomologyError::RetainedLogicalBytes { required: 11, limit: 10 })
    );
    assert_eq!(
        usage.workspace(1, 1),
        Err(HomologyError::PeakLiveLogicalBytes { required: 12, limit: 11 })
    );
    assert_eq!(usage.charge(3), Ok(()));
    assert_eq!(
        usage.charge(1),
        Err(HomologyError::SmithSteps { required: 4, limit: 3 })
    );
    assert_eq!(
        HomologyError::SmithSteps { required: 4, limit: 3 }.resource_limit(),
        Some(("smith_steps", 4, 3))
    );
    assert_eq!(HomologyError::InvalidChain.reason(), "invalid_chain");
}

#[test]
fn bit_and_byte_arithmetic() {
    assert_eq!(product_bits(&[3, 4, 5]), Ok(12));
    assert_eq!(product_bits(&[u64::MAX, 1]), Err(HomologyError::Overflow));
    assert_eq!(add_product_bits(2, 3, 4), Ok(8));
    assert_eq!(add_product_bits(10, 3, 4), Ok(11));
    assert_eq!(add_product_bits(u64::MAX, 0, 0), Err(HomologyError::Overflow));
    assert_eq!(ceil_log2(0), 0);
    assert_eq!(ceil_log2(1), 0);
    assert_eq!(ceil_log2(2), 1);
    assert_eq!(ceil_log2(5), 3);
    assert_eq!(ceil_log2(8), 3);
    assert_eq!(ceil_log2(9), 4);
    assert_eq!(ceil_log2(usize::MAX), usize::BITS as u64);
    assert_eq!(logical_bytes(7), Ok(7));
    assert_eq!(bytes(3, 8), Ok(24));
}

#[test]
fn realization_accounting() {
    let limit = RealizationLimit::new(StorageLimit::new(1, 2).unwrap(), 16, WorkLimit::new(4));
    let mut exact = ExactUse::new(limit);
    assert_eq!(exact.grow(16, 4), Ok(()));
    assert_eq!(
        exact.grow(17, 0),
        Err(RealizationError::CoefficientBits { required: 17, limit: 16 })
    );
    assert_eq!(
        exact.charge(1),
        Err(RealizationError::ExactSteps { required: 5, limit: 4 })
    );
    assert_eq!(RealizationError::Overflow.reason(), "count_overflow");
    assert_eq!(
        RealizationError::ExactSteps { required: 5, limit: 4 }.resource_limit(),
        Some(("exact_steps", 5, 4))
    );
    assert_eq!(RealizationLimit::default_limit().coefficient_bits(), 65_536);
    assert_eq!(Binary64ElementError::NonFinite.reason(), "non_finite");
    assert_eq!(
        ProblemError::Element(Binary64ElementError::Topology(TopologyError::Orientation(0))).reason(),
        "orientation"
    );
}
