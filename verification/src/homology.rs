use vstd::prelude::*;

use crate::incidence::{BoundaryRef, CoefficientSlice};
use crate::limit::{StorageLimit, WorkLimit};

verus! {

broadcast use vstd::layout::layout_of_primitives;

/// Ceilings of one integral-homology analysis: storage lifecycle,
/// coefficient width in bits, and Smith-normal-form steps.
#[derive(Clone, Copy, Debug, PartialEq, Eq, Structural)]
pub struct HomologyLimit {
    storage: StorageLimit,
    coefficient_bits: u64,
    smith_steps: WorkLimit,
}

impl HomologyLimit {
    pub closed spec fn spec_storage(self) -> StorageLimit {
        self.storage
    }

    pub closed spec fn spec_coefficient_bits(self) -> u64 {
        self.coefficient_bits
    }

    pub closed spec fn spec_smith_steps(self) -> WorkLimit {
        self.smith_steps
    }

    /// The named default ceiling; callers may lower any individual axis.
    pub fn default_limit() -> (r: HomologyLimit)
        ensures
            r.spec_storage().retained() == 134217728,
            r.spec_storage().peak() == 536870912,
            r.spec_coefficient_bits() == 65536,
            r.spec_smith_steps().spec_steps() == 100000000,
    {
        HomologyLimit {
            storage: StorageLimit::default_limit(),
            coefficient_bits: 65536,
            smith_steps: WorkLimit::new(100000000),
        }
    }

    pub fn storage(self) -> (r: StorageLimit)
        ensures
            r == self.spec_storage(),
    {
        self.storage
    }

    pub fn coefficient_bits(self) -> (r: u64)
        ensures
            r == self.spec_coefficient_bits(),
    {
        self.coefficient_bits
    }

    pub fn smith_steps(self) -> (r: WorkLimit)
        ensures
            r == self.spec_smith_steps(),
    {
        self.smith_steps
    }

    pub fn with_storage(self, value: StorageLimit) -> (r: HomologyLimit)
        ensures
            r.spec_storage() == value,
            r.spec_coefficient_bits() == self.spec_coefficient_bits(),
            r.spec_smith_steps() == self.spec_smith_steps(),
    {
        HomologyLimit { storage: value, ..self }
    }

    pub fn with_coefficient_bits(self, value: u64) -> (r: HomologyLimit)
        ensures
            r.spec_storage() == self.spec_storage(),
            r.spec_coefficient_bits() == value,
            r.spec_smith_steps() == self.spec_smith_steps(),
    {
        HomologyLimit { coefficient_bits: value, ..self }
    }

    pub fn with_smith_steps(self, value: WorkLimit) -> (r: HomologyLimit)
        ensures
            r.spec_storage() == self.spec_storage(),
            r.spec_coefficient_bits() == self.spec_coefficient_bits(),
            r.spec_smith_steps() == value,
    {
        HomologyLimit { smith_steps: value, ..self }
    }
}

/// Classified failure of an unpublished integral-homology analysis.
#[derive(Clone, Copy, Debug, PartialEq, Eq, Structural)]
pub enum HomologyError {
    DegreeOutside,
    RetainedLogicalBytes { required: u64, limit: u64 },
    PeakLiveLogicalBytes { required: u64, limit: u64 },
    CoefficientBits { required: u64, limit: u64 },
    SmithSteps { required: u64, limit: u64 },
    Overflow,
    Allocation,
    InvalidChain,
    OwnerMismatch,
    InternalInvariant,
}

impl HomologyError {
    pub open spec fn reason_text(self) -> Seq<char> {
        match self {
            HomologyError::DegreeOutside => "degree_outside"@,
            HomologyError::RetainedLogicalBytes { .. } => "resource_limit"@,
            HomologyError::PeakLiveLogicalBytes { .. } => "resource_limit"@,
            HomologyError::CoefficientBits { .. } => "resource_limit"@,
            HomologyError::SmithSteps { .. } => "resource_limit"@,
            HomologyError::Overflow => "overflow"@,
            HomologyError::Allocation => "allocation"@,
            HomologyError::InvalidChain => "invalid_chain"@,
            HomologyError::OwnerMismatch => "owner_mismatch"@,
            HomologyError::InternalInvariant => "internal_invariant"@,
        }
    }

    /// Stable machine-readable reason.
    pub fn reason(self) -> (text: &'static str)
        ensures
            text@ == self.reason_text(),
    {
        match self {
            HomologyError::DegreeOutside => "degree_outside",
            HomologyError::RetainedLogicalBytes { .. } => "resource_limit",
            HomologyError::PeakLiveLogicalBytes { .. } => "resource_limit",
            HomologyError::CoefficientBits { .. } => "resource_limit",
            HomologyError::SmithSteps { .. } => "resource_limit",
            HomologyError::Overflow => "overflow",
            HomologyError::Allocation => "allocation",
            HomologyError::InvalidChain => "invalid_chain",
            HomologyError::OwnerMismatch => "owner_mismatch",
            HomologyError::InternalInvariant => "internal_invariant",
        }
    }

    /// Rejected semantic ceiling `(axis, required, limit)`, when applicable.
    pub fn resource_limit(self) -> (r: Option<(&'static str, u64, u64)>)
        ensures
            match self {
                HomologyError::RetainedLogicalBytes { required, limit } => r matches Some(t) && t.0@
                    == "retained_logical_bytes"@ && t.1 == required && t.2 == limit,
                HomologyError::PeakLiveLogicalBytes { required, limit } => r matches Some(t) && t.0@
                    == "peak_live_logical_bytes"@ && t.1 == required && t.2 == limit,
                HomologyError::CoefficientBits { required, limit } => r matches Some(t) && t.0@
                    == "coefficient_bits"@ && t.1 == required && t.2 == limit,
                HomologyError::SmithSteps { required, limit } => r matches Some(t) && t.0@ == "smith_steps"@
                    && t.1 == required && t.2 == limit,
                _ => r is None,
            },
    {
        match self {
            HomologyError::RetainedLogicalBytes { required, limit } => Some(
                ("retained_logical_bytes", required, limit),
            ),
            HomologyError::PeakLiveLogicalBytes { required, limit } => Some(
                ("peak_live_logical_bytes", required, limit),
            ),
            HomologyError::CoefficientBits { required, limit } => Some(("coefficient_bits", required, limit)),
            HomologyError::SmithSteps { required, limit } => Some(("smith_steps", required, limit)),
            _ => None,
        }
    }
}

/// Cumulative resource use of one homology analysis under its ceilings.
pub struct HomologyUse {
    limit: HomologyLimit,
    smith_steps: u64,
    input_logical_bytes: u64,
    retained_logical_bytes: u64,
}

impl HomologyUse {
    pub closed spec fn spec_limit(&self) -> HomologyLimit {
        self.limit
    }

    pub closed spec fn spec_smith_steps(&self) -> u64 {
        self.smith_steps
    }

    pub closed spec fn spec_input(&self) -> u64 {
        self.input_logical_bytes
    }

    pub closed spec fn spec_retained(&self) -> u64 {
        self.retained_logical_bytes
    }

    /// Whether the retained bytes fit the retained ceiling.
    pub open spec fn within(&self) -> bool {
        &&& self.spec_retained() <= self.spec_limit().spec_storage().retained()
        &&& self.spec_smith_steps() <= self.spec_limit().spec_smith_steps().spec_steps()
    }

    pub fn new(limit: HomologyLimit) -> (r: HomologyUse)
        ensures
            r.spec_limit() == limit,
            r.spec_smith_steps() == 0,
            r.spec_input() == 0,
            r.spec_retained() == 0,
    {
        HomologyUse { limit, smith_steps: 0, input_logical_bytes: 0, retained_logical_bytes: 0 }
    }

    /// Refuse coefficients wider than the coefficient ceiling.
    pub fn coefficients_bound(&self, required: u64) -> (r: Result<(), HomologyError>)
        ensures
            required > self.spec_limit().spec_coefficient_bits() ==> r == Err::<(), HomologyError>(
                HomologyError::CoefficientBits { required, limit: self.spec_limit().spec_coefficient_bits() },
            ),
            required <= self.spec_limit().spec_coefficient_bits() ==> r is Ok,
    {
        let limit = self.limit.coefficient_bits();
        if required > limit {
            return Err(HomologyError::CoefficientBits { required, limit });
        }
        Ok(())
    }

    /// Refuse a peak of live bytes — input, retained, and `workspace` — above
    /// the peak ceiling.
    pub fn peak(&self, workspace: u64) -> (r: Result<(), HomologyError>)
        ensures
            self.spec_input() + self.spec_retained() + workspace > u64::MAX ==> r == Err::<(), HomologyError>(
                HomologyError::Overflow,
            ),
            self.spec_input() + self.spec_retained() + workspace <= u64::MAX && self.spec_input()
                + self.spec_retained() + workspace > self.spec_limit().spec_storage().peak() ==> r == Err::<
                (),
                HomologyError,
            >(
                HomologyError::PeakLiveLogicalBytes {
                    required: (self.spec_input() + self.spec_retained() + workspace) as u64,
                    limit: self.spec_limit().spec_storage().peak(),
                },
            ),
            self.spec_input() + self.spec_retained() + workspace <= self.spec_limit().spec_storage().peak() ==> r is Ok,
    {
        let bytes = match self.input_logical_bytes.checked_add(self.retained_logical_bytes) {
            Some(v) => v,
            None => return Err(HomologyError::Overflow),
        };
        let required = match bytes.checked_add(workspace) {
            Some(v) => v,
            None => return Err(HomologyError::Overflow),
        };
        let limit = self.limit.storage().peak_live_logical_bytes();
        if required > limit {
            return Err(HomologyError::PeakLiveLogicalBytes { required, limit });
        }
        Ok(())
    }

    /// Record the input bytes after checking its coefficient width and the peak.
    pub fn input(&mut self, bytes: u64, bits: u64) -> (r: Result<(), HomologyError>)
        ensures
            final(self).spec_limit() == old(self).spec_limit(),
            final(self).spec_smith_steps() == old(self).spec_smith_steps(),
            final(self).spec_retained() == old(self).spec_retained(),
            bits > old(self).spec_limit().spec_coefficient_bits() ==> r == Err::<(), HomologyError>(
                HomologyError::CoefficientBits { required: bits, limit: old(self).spec_limit().spec_coefficient_bits() },
            ) && final(self).spec_input() == old(self).spec_input(),
            bits <= old(self).spec_limit().spec_coefficient_bits() ==> final(self).spec_input() == bytes && (r is Ok
                <==> bytes + old(self).spec_retained() <= old(self).spec_limit().spec_storage().peak()),
    {
        match self.coefficients_bound(bits) {
            Ok(()) => {},
            Err(e) => return Err(e),
        }
        self.input_logical_bytes = bytes;
        self.peak(0)
    }

    /// Check a workspace of `bytes` with coefficients of `bits` bits.
    pub fn workspace(&self, bits: u64, bytes: u64) -> (r: Result<(), HomologyError>)
        ensures
            bits > self.spec_limit().spec_coefficient_bits() ==> r == Err::<(), HomologyError>(
                HomologyError::CoefficientBits { required: bits, limit: self.spec_limit().spec_coefficient_bits() },
            ),
            r is Ok <==> bits <= self.spec_limit().spec_coefficient_bits() && self.spec_input()
                + self.spec_retained() + bytes <= self.spec_limit().spec_storage().peak(),
            bits <= self.spec_limit().spec_coefficient_bits() && self.spec_input() + self.spec_retained() + bytes
                > u64::MAX ==> r == Err::<(), HomologyError>(HomologyError::Overflow),
            bits <= self.spec_limit().spec_coefficient_bits() && self.spec_input() + self.spec_retained() + bytes
                <= u64::MAX && self.spec_input() + self.spec_retained() + bytes > self.spec_limit().spec_storage().peak()
                ==> r == Err::<(), HomologyError>(
                HomologyError::PeakLiveLogicalBytes {
                    required: (self.spec_input() + self.spec_retained() + bytes) as u64,
                    limit: self.spec_limit().spec_storage().peak(),
                },
            ),
    {
        match self.coefficients_bound(bits) {
            Ok(()) => {},
            Err(e) => return Err(e),
        }
        self.peak(bytes)
    }

    /// Charge `count` Smith steps, refusing the first charge past the ceiling.
    pub fn charge(&mut self, count: usize) -> (r: Result<(), HomologyError>)
        ensures
            final(self).spec_limit() == old(self).spec_limit(),
            final(self).spec_input() == old(self).spec_input(),
            final(self).spec_retained() == old(self).spec_retained(),
            old(self).spec_smith_steps() + count > u64::MAX ==> r == Err::<(), HomologyError>(HomologyError::Overflow)
                && final(self).spec_smith_steps() == old(self).spec_smith_steps(),
            old(self).spec_smith_steps() + count <= u64::MAX && old(self).spec_smith_steps() + count
                > old(self).spec_limit().spec_smith_steps().spec_steps() ==> r == Err::<(), HomologyError>(
                HomologyError::SmithSteps {
                    required: (old(self).spec_smith_steps() + count) as u64,
                    limit: old(self).spec_limit().spec_smith_steps().spec_steps(),
                },
            ) && final(self).spec_smith_steps() == old(self).spec_smith_steps(),
            old(self).spec_smith_steps() + count <= old(self).spec_limit().spec_smith_steps().spec_steps() ==> r is Ok
                && final(self).spec_smith_steps() == old(self).spec_smith_steps() + count,
    {
        let count = match logical_bytes(count) {
            Ok(v) => v,
            Err(_) => return Err(HomologyError::Overflow),
        };
        let next = match self.smith_steps.checked_add(count) {
            Some(v) => v,
            None => return Err(HomologyError::Overflow),
        };
        let limit = self.limit.smith_steps().steps();
        if next > limit {
            return Err(HomologyError::SmithSteps { required: next, limit });
        }
        self.smith_steps = next;
        Ok(())
    }

    /// Retain `bytes` more, refusing the retained or the peak ceiling.
    pub fn retain(&mut self, bytes: u64) -> (r: Result<(), HomologyError>)
        ensures
            final(self).spec_limit() == old(self).spec_limit(),
            final(self).spec_input() == old(self).spec_input(),
            final(self).spec_smith_steps() == old(self).spec_smith_steps(),
            old(self).spec_retained() + bytes > u64::MAX ==> r == Err::<(), HomologyError>(HomologyError::Overflow)
                && final(self).spec_retained() == old(self).spec_retained(),
            old(self).spec_retained() + bytes <= u64::MAX && old(self).spec_retained() + bytes
                > old(self).spec_limit().spec_storage().retained() ==> r == Err::<(), HomologyError>(
                HomologyError::RetainedLogicalBytes {
                    required: (old(self).spec_retained() + bytes) as u64,
                    limit: old(self).spec_limit().spec_storage().retained(),
                },
            ) && final(self).spec_retained() == old(self).spec_retained(),
            old(self).spec_retained() + bytes <= old(self).spec_limit().spec_storage().retained() ==> final(self).spec_retained()
                == old(self).spec_retained() + bytes && (r is Ok <==> old(self).spec_input()
                + old(self).spec_retained() + bytes <= old(self).spec_limit().spec_storage().peak()),
    {
        let required = match self.retained_logical_bytes.checked_add(bytes) {
            Some(v) => v,
            None => return Err(HomologyError::Overflow),
        };
        let limit = self.limit.storage().retained_logical_bytes();
        if required > limit {
            return Err(HomologyError::RetainedLogicalBytes { required, limit });
        }
        self.retained_logical_bytes = required;
        self.peak(0)
    }
}

/// A native byte count as a logical `u64` byte count.
pub fn logical_bytes(bytes: usize) -> (r: Result<u64, HomologyError>)
    ensures
        bytes <= u64::MAX ==> r == Ok::<u64, HomologyError>(bytes as u64),
        bytes > u64::MAX ==> r == Err::<u64, HomologyError>(HomologyError::Overflow),
{
    if bytes as u128 > u64::MAX as u128 {
        Err(HomologyError::Overflow)
    } else {
        Ok(bytes as u64)
    }
}

/// Sum of the first `k` bit widths.
pub open spec fn bits_total(values: Seq<u64>, k: int) -> int
    decreases k,
{
    if k <= 0 {
        0
    } else {
        bits_total(values, k - 1) + values[k - 1]
    }
}

proof fn lemma_bits_total_monotone(values: Seq<u64>, a: int, b: int)
    requires
        0 <= a <= b <= values.len(),
    ensures
        bits_total(values, a) <= bits_total(values, b),
    decreases b - a,
{
    if a < b {
        lemma_bits_total_monotone(values, a, b - 1);
    }
}

/// Bit width of a product: the sum of the factors' widths.
pub fn product_bits(values: &[u64]) -> (r: Result<u64, HomologyError>)
    ensures
        bits_total(values@, values@.len() as int) <= u64::MAX ==> r == Ok::<u64, HomologyError>(
            bits_total(values@, values@.len() as int) as u64,
        ),
        bits_total(values@, values@.len() as int) > u64::MAX ==> r == Err::<u64, HomologyError>(
            HomologyError::Overflow,
        ),
{
    let mut bits: u64 = 0;
    let mut k: usize = 0;
    while k < values.len()
        invariant
            k <= values@.len(),
            bits == bits_total(values@, k as int),
        decreases values@.len() - k,
    {
        bits = match bits.checked_add(values[k]) {
            Some(v) => v,
            None => {
                proof {
                    lemma_bits_total_monotone(values@, k + 1, values@.len() as int);
                }
                return Err(HomologyError::Overflow);
            },
        };
        k = k + 1;
    }
    Ok(bits)
}

/// Bit width of `target + source * factor`: one more than the wider of the target and the product.
pub fn add_product_bits(target: u64, source: u64, factor: u64) -> (r: Result<u64, HomologyError>)
    ensures
        source + factor > u64::MAX ==> r == Err::<u64, HomologyError>(HomologyError::Overflow),
        source + factor <= u64::MAX ==> ({
            let wider = if target >= source + factor {
                target as int
            } else {
                source + factor
            };
            (wider < u64::MAX ==> r == Ok::<u64, HomologyError>((wider + 1) as u64)) && (wider == u64::MAX ==> r
                == Err::<u64, HomologyError>(HomologyError::Overflow))
        }),
{
    let factors = [source, factor];
    let product = match product_bits(&factors) {
        Ok(v) => v,
        Err(e) => {
            proof {
                assert(factors@ == seq![source, factor]);
                assert(bits_total(factors@, 0) == 0);
                assert(bits_total(factors@, 1) == source);
                assert(bits_total(factors@, 2) == source + factor);
            }
            return Err(e);
        },
    };
    proof {
        assert(factors@ == seq![source, factor]);
        assert(bits_total(factors@, 0) == 0);
        assert(bits_total(factors@, 1) == source);
        assert(bits_total(factors@, 2) == source + factor);
    }
    let wider = if target >= product {
        target
    } else {
        product
    };
    match wider.checked_add(1) {
        Some(v) => Ok(v),
        None => Err(HomologyError::Overflow),
    }
}

/// `⌈log2 value⌉`, with `0` for `0` and `1`.
pub open spec fn ceil_log2_spec(value: nat) -> nat
    decreases value,
{
    if value <= 1 {
        0
    } else {
        1 + ceil_log2_spec(((value + 1) / 2) as nat)
    }
}

/// `⌈log2 value⌉`, with `0` for `0` and `1`.
pub fn ceil_log2(value: usize) -> (r: u64)
    ensures
        r == ceil_log2_spec(value as nat),
{
    proof {
        lemma_ceil_log2_at_most(value as nat);
    }
    let mut current = value;
    let mut steps: u64 = 0;
    while current > 1
        invariant
            steps + ceil_log2_spec(current as nat) == ceil_log2_spec(value as nat),
            ceil_log2_spec(value as nat) <= value,
            value <= usize::MAX,
        decreases current,
    {
        let half = current / 2 + current % 2;
        current = half;
        steps = steps + 1;
    }
    steps
}

proof fn lemma_ceil_log2_at_most(value: nat)
    ensures
        ceil_log2_spec(value) <= value,
    decreases value,
{
    if value > 1 {
        lemma_ceil_log2_at_most(((value + 1) / 2) as nat);
    }
}

/// Logical bytes of a boundary's CSR storage: its index words and its
/// native-width coefficients.
pub fn boundary_input_bytes(boundary: BoundaryRef) -> (r: Result<u64, HomologyError>)
    ensures
        r is Ok ==> r == Ok::<u64, HomologyError>(
            ((boundary.spec_indptr().len() + boundary.spec_indices().len()) * vstd::layout::size_of::<usize>()
                + boundary_coefficient_bytes(boundary)) as u64,
        ),
        (boundary.spec_indptr().len() + boundary.spec_indices().len()) * vstd::layout::size_of::<usize>()
            + boundary_coefficient_bytes(boundary) <= u64::MAX && (boundary.spec_indptr().len()
            + boundary.spec_indices().len()) * vstd::layout::size_of::<usize>() + boundary_coefficient_bytes(boundary)
            <= usize::MAX ==> r is Ok,
{
    let width = core::mem::size_of::<usize>();
    proof {
        assert(vstd::layout::size_of::<usize>() * 8 == usize::BITS);
        assert(width >= 1);
    }
    let count = match boundary.indptr().len().checked_add(boundary.indices().len()) {
        Some(v) => v,
        None => {
            proof {
                let c = boundary.spec_indptr().len() + boundary.spec_indices().len();
                assert(c * width >= c) by (nonlinear_arith)
                    requires
                        width >= 1,
                        c >= 0,
                ;
                assert(boundary_coefficient_bytes(boundary) >= 0);
            }
            return Err(HomologyError::Overflow);
        },
    };
    let indices = match count.checked_mul(width) {
        Some(v) => v,
        None => return Err(HomologyError::Overflow),
    };
    let coefficients = match boundary.coefficients() {
        CoefficientSlice::I8(values) => values.len(),
        CoefficientSlice::I64(values) => match values.len().checked_mul(8) {
            Some(v) => v,
            None => return Err(HomologyError::Overflow),
        },
    };
    let total = match indices.checked_add(coefficients) {
        Some(v) => v,
        None => return Err(HomologyError::Overflow),
    };
    logical_bytes(total)
}

/// Bytes of a boundary's coefficients at their native width.
pub open spec fn boundary_coefficient_bytes(boundary: BoundaryRef) -> int {
    if boundary.spec_is_narrow() {
        boundary.spec_coefficients().len() as int
    } else {
        (boundary.spec_coefficients().len() * 8) as int
    }
}

} // verus!
