use polygeo_core::complex::{CandidateInput, ComplexCore};
use polygeo_core::realization::{realization_peak_bytes, ElementSizes, RealizationError, RealizationLimit};

fn triangle() -> ComplexCore {
    let candidate = CandidateInput::signed(&[0, 1, 2], 1, 3, Some(3)).unwrap();
    ComplexCore::admit_candidate(candidate).unwrap()
}

fn sizes() -> ElementSizes {
    ElementSizes { word: 8, rational: 32, float: 8, float_pair: 16, float_slice: 16 }
}

#[test]
fn peak_bytes_of_triangle_realization() {
    let complex = triangle();
    // topology: degree 0 holds 35 bytes, degree 1 holds 137, degree 2 holds 84
    let topology = 35 + 137 + 84;
    // 20 rational slots, 12 dense binary64 values, metric scratch 363, 7 basis rows
    let limbs = 65536 / u64::from(usize::BITS);
    let rational = 32 + limbs * 16;
    let scratch = 20 * rational + 12 * 8 + 363 + 7 * 8;
    let peak = realization_peak_bytes(&complex, 2, 100, RealizationLimit::default_limit(), sizes()).unwrap();
    assert_eq!(peak, 100 + topology + scratch);
}

#[test]
fn peak_bytes_overflow_is_reported() {
    let complex = triangle();
    assert_eq!(
        realization_peak_bytes(&complex, 2, u64::MAX, RealizationLimit::default_limit(), sizes()).unwrap_err(),
        RealizationError::Overflow
    );
    assert_eq!(
        realization_peak_bytes(&complex, usize::MAX, 0, RealizationLimit::default_limit(), sizes()).unwrap_err(),
        RealizationError::Overflow
    );
}
