use vstd::prelude::*;

use crate::error::TopologyError;
use crate::limit::{StorageLimit, WorkLimit};
use crate::complex::ComplexCore;

verus! {

/// Ceilings of one exact realization: storage lifecycle, coefficient width
/// in bits, and exact arithmetic steps.
#[derive(Clone, Copy, Debug, PartialEq, Eq, Structural)]
pub struct RealizationLimit {
    storage: StorageLimit,
    coefficient_bits: u64,
    exact_steps: WorkLimit,
}

impl RealizationLimit {
    pub closed spec fn spec_storage(self) -> StorageLimit {
        self.storage
    }

    pub closed spec fn spec_coefficient_bits(self) -> u64 {
        self.coefficient_bits
    }

    pub closed spec fn spec_exact_steps(self) -> WorkLimit {
        self.exact_steps
    }

    pub fn new(storage: StorageLimit, coefficient_bits: u64, exact_steps: WorkLimit) -> (r: RealizationLimit)
        ensures
            r.spec_storage() == storage,
            r.spec_coefficient_bits() == coefficient_bits,
            r.spec_exact_steps() == exact_steps,
    {
        RealizationLimit { storage, coefficient_bits, exact_steps }
    }

    /// The default ceiling.
    pub fn default_limit() -> (r: RealizationLimit)
        ensures
            r.spec_storage().retained() == 134217728,
            r.spec_storage().peak() == 536870912,
            r.spec_coefficient_bits() == 65536,
            r.spec_exact_steps().spec_steps() == 100000000,
    {
        RealizationLimit {
            storage: StorageLimit::default_limit(),
            coefficient_bits: 65536,
            exact_steps: WorkLimit::new(100000000),
        }
    }

    pub fn storage(self) -> (r: StorageLimit)
        ensures
            r == self.spec_storage(),
    {
        self.storage
    }

    pub fn coefficient_bits(self) -> (r: u64)
        ensures
            r == self.spec_coefficient_bits(),
    {
        self.coefficient_bits
    }

    pub fn exact_steps(self) -> (r: WorkLimit)
        ensures
            r == self.spec_exact_steps(),
    {
        self.exact_steps
    }
}

/// Classified realization admission or derived-measure failure.
#[derive(Clone, Copy, Debug, PartialEq, Eq, Structural)]
pub enum RealizationError {
    AmbientDimension,
    PositionShape,
    NonFinite,
    Degenerate,
    Unrepresentable,
    DegreeOutside,
    RetainedLogicalBytes { required: u64, limit: u64 },
    PeakLiveLogicalBytes { required: u64, limit: u64 },
    CoefficientBits { required: u64, limit: u64 },
    ExactSteps { required: u64, limit: u64 },
    Overflow,
    Allocation,
    Topology,
}

impl RealizationError {
    pub open spec fn reason_text(self) -> Seq<char> {
        match self {
            RealizationError::AmbientDimension => "ambient_dimension"@,
            RealizationError::PositionShape => "position_shape"@,
            RealizationError::NonFinite => "non_finite"@,
            RealizationError::Degenerate => "degenerate"@,
            RealizationError::Unrepresentable => "unrepresentable"@,
            RealizationError::DegreeOutside => "degree_outside"@,
            RealizationError::RetainedLogicalBytes { .. } => "resource_limit"@,
            RealizationError::PeakLiveLogicalBytes { .. } => "resource_limit"@,
            RealizationError::CoefficientBits { .. } => "resource_limit"@,
            RealizationError::ExactSteps { .. } => "resource_limit"@,
            RealizationError::Overflow => "count_overflow"@,
            RealizationError::Allocation => "allocation"@,
            RealizationError::Topology => "topology"@,
        }
    }

    /// Stable machine-readable reason.
    pub fn reason(self) -> (text: &'static str)
        ensures
            text@ == self.reason_text(),
    {
        match self {
            RealizationError::AmbientDimension => "ambient_dimension",
            RealizationError::PositionShape => "position_shape",
            RealizationError::NonFinite => "non_finite",
            RealizationError::Degenerate => "degenerate",
            RealizationError::Unrepresentable => "unrepresentable",
            RealizationError::DegreeOutside => "degree_outside",
            RealizationError::RetainedLogicalBytes { .. } => "resource_limit",
            RealizationError::PeakLiveLogicalBytes { .. } => "resource_limit",
            RealizationError::CoefficientBits { .. } => "resource_limit",
            RealizationError::ExactSteps { .. } => "resource_limit",
            RealizationError::Overflow => "count_overflow",
            RealizationError::Allocation => "allocation",
            RealizationError::Topology => "topology",
        }
    }

    /// The exhausted ceiling `(axis, required, limit)`, when applicable.
    pub fn resource_limit(self) -> (r: Option<(&'static str, u64, u64)>)
        ensures
            match self {
                RealizationError::RetainedLogicalBytes { required, limit } => r matches Some(t) && t.0@
                    == "retained_logical_bytes"@ && t.1 == required && t.2 == limit,
                RealizationError::PeakLiveLogicalBytes { required, limit } => r matches Some(t) && t.0@
                    == "peak_live_logical_bytes"@ && t.1 == required && t.2 == limit,
                RealizationError::CoefficientBits { required, limit } => r matches Some(t) && t.0@
                    == "coefficient_bits"@ && t.1 == required && t.2 == limit,
                RealizationError::ExactSteps { required, limit } => r matches Some(t) && t.0@ == "exact_steps"@
                    && t.1 == required && t.2 == limit,
                _ => r is None,
            },
    {
        match self {
            RealizationError::RetainedLogicalBytes { required, limit } => Some(
                ("retained_logical_bytes", required, limit),
            ),
            RealizationError::PeakLiveLogicalBytes { required, limit } => Some(
                ("peak_live_logical_bytes", required, limit),
            ),
            RealizationError::CoefficientBits { required, limit } => Some(("coefficient_bits", required, limit)),
            RealizationError::ExactSteps { required, limit } => Some(("exact_steps", required, limit)),
            _ => None,
        }
    }

    /// Every topology failure becomes `Topology`.
    pub fn from_topology(error: TopologyError) -> (r: RealizationError)
        ensures
            r == RealizationError::Topology,
    {
        RealizationError::Topology
    }
}

/// Failure to refine a finite circumcentric pairing.
#[derive(Clone, Copy, Debug, PartialEq, Eq, Structural)]
pub enum MetricError {
    Degenerate { degree: usize, index: usize },
    Indefinite,
}

/// Cumulative exact-arithmetic use under a coefficient-width and step ceiling.
pub struct ExactUse {
    coefficient_bits: u64,
    exact_steps: u64,
    used: u64,
}

impl ExactUse {
    pub closed spec fn spec_coefficient_bits(&self) -> u64 {
        self.coefficient_bits
    }

    pub closed spec fn spec_exact_steps(&self) -> u64 {
        self.exact_steps
    }

    pub closed spec fn spec_used(&self) -> u64 {
        self.used
    }

    pub fn new(limit: RealizationLimit) -> (r: ExactUse)
        ensures
            r.spec_coefficient_bits() == limit.spec_coefficient_bits(),
            r.spec_exact_steps() == limit.spec_exact_steps().spec_steps(),
            r.spec_used() == 0,
    {
        ExactUse { coefficient_bits: limit.coefficient_bits(), exact_steps: limit.exact_steps().steps(), used: 0 }
    }

    /// Charge `steps` exact steps, refusing the first charge past the ceiling.
    pub fn charge(&mut self, steps: u64) -> (r: Result<(), RealizationError>)
        ensures
            final(self).spec_coefficient_bits() == old(self).spec_coefficient_bits(),
            final(self).spec_exact_steps() == old(self).spec_exact_steps(),
            old(self).spec_used() + steps > u64::MAX ==> r == Err::<(), RealizationError>(RealizationError::Overflow)
                && final(self).spec_used() == old(self).spec_used(),
            old(self).spec_used() + steps <= u64::MAX && old(self).spec_used() + steps > old(self).spec_exact_steps()
                ==> r == Err::<(), RealizationError>(
                RealizationError::ExactSteps {
                    required: (old(self).spec_used() + steps) as u64,
                    limit: old(self).spec_exact_steps(),
                },
            ) && final(self).spec_used() == old(self).spec_used(),
            old(self).spec_used() + steps <= old(self).spec_exact_steps() ==> r is Ok && final(self).spec_used()
                == old(self).spec_used() + steps,
    {
        let required = match self.used.checked_add(steps) {
            Some(v) => v,
            None => return Err(RealizationError::Overflow),
        };
        if required > self.exact_steps {
            return Err(RealizationError::ExactSteps { required, limit: self.exact_steps });
        }
        self.used = required;
        Ok(())
    }

    /// Refuse coefficients wider than the ceiling, then charge `steps`.
    pub fn grow(&mut self, bits: u64, steps: u64) -> (r: Result<(), RealizationError>)
        ensures
            final(self).spec_coefficient_bits() == old(self).spec_coefficient_bits(),
            final(self).spec_exact_steps() == old(self).spec_exact_steps(),
            bits > old(self).spec_coefficient_bits() ==> r == Err::<(), RealizationError>(
                RealizationError::CoefficientBits { required: bits, limit: old(self).spec_coefficient_bits() },
            ) && final(self).spec_used() == old(self).spec_used(),
            bits <= old(self).spec_coefficient_bits() && old(self).spec_used() + steps <= old(self).spec_exact_steps()
                ==> r is Ok && final(self).spec_used() == old(self).spec_used() + steps,
            bits <= old(self).spec_coefficient_bits() && old(self).spec_used() + steps > old(self).spec_exact_steps()
                ==> r is Err && final(self).spec_used() == old(self).spec_used(),
    {
        if bits > self.coefficient_bits {
            return Err(RealizationError::CoefficientBits { required: bits, limit: self.coefficient_bits });
        }
        self.charge(steps)
    }
}

/// A native count as a `u64`.
pub fn checked_u64(value: usize) -> (r: Result<u64, RealizationError>)
    ensures
        value <= u64::MAX ==> r == Ok::<u64, RealizationError>(value as u64),
        value > u64::MAX ==> r == Err::<u64, RealizationError>(RealizationError::Overflow),
{
    if value as u128 > u64::MAX as u128 {
        Err(RealizationError::Overflow)
    } else {
        Ok(value as u64)
    }
}

/// `count * width` bytes as a `u64`.
pub fn bytes(count: usize, width: usize) -> (r: Result<u64, RealizationError>)
    ensures
        r is Ok <==> count <= u64::MAX && width <= u64::MAX && count * width <= u64::MAX,
        r matches Ok(v) ==> v == count * width,
        r is Err ==> r == Err::<u64, RealizationError>(RealizationError::Overflow),
{
    let c = match checked_u64(count) {
        Ok(v) => v,
        Err(e) => return Err(e),
    };
    let w = match checked_u64(width) {
        Ok(v) => v,
        Err(e) => return Err(e),
    };
    match c.checked_mul(w) {
        Some(v) => Ok(v),
        None => Err(RealizationError::Overflow),
    }
}

} // verus!

verus! {

/// Byte sizes of the elements a realization keeps in scratch storage: a
/// native word, one exact rational, one binary64 value, one (index, binary64)
/// pair, and one boxed slice of binary64 values.
#[derive(Clone, Copy, Debug)]
pub struct ElementSizes {
    pub word: usize,
    pub rational: usize,
    pub float: usize,
    pub float_pair: usize,
    pub float_slice: usize,
}

/// Row count of the basis of degree `d`.
pub open spec fn basis_rows(core: ComplexCore, d: int) -> int {
    core.spec_bases()[d].spec_row_count()
}

/// Retained bytes of degree `d`: basis values and orientation signs, and the
/// boundary's row pointers, indexes and coefficients.
pub open spec fn degree_bytes(core: ComplexCore, word: int, d: int) -> int {
    let m = core.spec_boundaries()[d].spec_storage();
    core.spec_bases()[d].spec_values().len() * word + basis_rows(core, d) + (m.spec_indptr().len()
        + m.spec_indices().len()) * word + m.spec_indices().len()
}

/// Over degrees `0..k`: the basis rows, the immediate faces of positive
/// degrees, the largest basis, and the retained bytes.
pub open spec fn sum_rows(core: ComplexCore, k: int) -> int
    decreases k,
{
    if k <= 0 {
        0
    } else {
        sum_rows(core, k - 1) + basis_rows(core, k - 1)
    }
}

pub open spec fn sum_faces(core: ComplexCore, k: int) -> int
    decreases k,
{
    if k <= 1 {
        0
    } else {
        sum_faces(core, k - 1) + core.spec_immediate_faces()[k - 1].len()
    }
}

pub open spec fn max_rows(core: ComplexCore, k: int) -> int
    decreases k,
{
    if k <= 0 {
        0
    } else if max_rows(core, k - 1) >= basis_rows(core, k - 1) {
        max_rows(core, k - 1)
    } else {
        basis_rows(core, k - 1)
    }
}

pub open spec fn sum_bytes(core: ComplexCore, word: int, k: int) -> int
    decreases k,
{
    if k <= 0 {
        0
    } else {
        sum_bytes(core, word, k - 1) + degree_bytes(core, word, k - 1)
    }
}

/// The peak live bytes of a realization of `core` in `ambient` dimensions:
/// the retained bytes, the topology's bytes, and the scratch of exact
/// rationals with `bits`-bit components, binary64 matrices and metric work.
/// `None` when a count leaves `usize` or a byte total leaves `u64`.
pub open spec fn peak_spec(core: ComplexCore, ambient: int, retained: int, bits: int, sizes: ElementSizes) -> Option<int> {
    let w = sizes.word as int;
    let f = sizes.float as int;
    let n = core.spec_dimension() + 1int;
    let d = core.spec_dimension() as int;
    let basis_count = sum_rows(core, n);
    let incidence_count = sum_faces(core, n);
    let topology = sum_bytes(core, w, n);
    let dense = d * d;
    let slots = (d + 1) * ambient + d * ambient + dense * 2 + d;
    let limbs = bits / (usize::BITS as int) + if bits % (usize::BITS as int) == 0 {
        0int
    } else {
        1int
    };
    let rational_bytes = sizes.rational + limbs * (2 * w);
    let rational_scratch = slots * rational_bytes;
    let dense_values = d * ambient + dense + d * 2;
    let metric = incidence_count * (sizes.float_pair + f) + max_rows(core, n) * (3 * f + w + 1) + (d + 1)
        * sizes.float_slice;
    let scratch = rational_scratch + dense_values * f + metric + basis_count * f;
    let total = retained + topology + scratch;
    if basis_count <= usize::MAX && incidence_count <= usize::MAX && (forall|k: int|
        0 <= k < n ==> #[trigger] core.spec_boundaries()[k].spec_storage().spec_indptr().len()
            + core.spec_boundaries()[k].spec_storage().spec_indices().len() <= usize::MAX) && slots
        <= usize::MAX && dense_values <= usize::MAX && metric <= usize::MAX && rational_bytes <= u64::MAX
        && rational_scratch <= u64::MAX && total <= u64::MAX {
        Some(total)
    } else {
        None
    }
}

proof fn lemma_sums_grow(core: ComplexCore, word: int, j: int, k: int)
    requires
        0 <= j <= k,
        word >= 0,
        forall|d: int| 0 <= d < k ==> #[trigger] basis_rows(core, d) >= 0,
        forall|d: int| 0 <= d < k ==> #[trigger] degree_bytes(core, word, d) >= 0,
    ensures
        sum_rows(core, j) <= sum_rows(core, k),
        sum_faces(core, j) <= sum_faces(core, k),
        sum_bytes(core, word, j) <= sum_bytes(core, word, k),
        max_rows(core, j) <= max_rows(core, k),
        sum_rows(core, k) >= 0 && sum_faces(core, k) >= 0 && sum_bytes(core, word, k) >= 0 && max_rows(core, k) >= 0,
    decreases k - j,
{
    if j < k {
        lemma_sums_grow(core, word, j, k - 1);
    } else {
        lemma_sums_nonnegative(core, word, k);
    }
}

proof fn lemma_sums_nonnegative(core: ComplexCore, word: int, k: int)
    requires
        word >= 0,
        forall|d: int| 0 <= d < k ==> #[trigger] basis_rows(core, d) >= 0,
        forall|d: int| 0 <= d < k ==> #[trigger] degree_bytes(core, word, d) >= 0,
    ensures
        sum_rows(core, k) >= 0 && sum_faces(core, k) >= 0 && sum_bytes(core, word, k) >= 0 && max_rows(core, k) >= 0,
    decreases k,
{
    if k > 0 {
        lemma_sums_nonnegative(core, word, k - 1);
    }
}

proof fn lemma_degree_bytes_nonnegative(core: ComplexCore, word: int, d: int)
    requires
        word >= 0,
    ensures
        degree_bytes(core, word, d) >= 0,
        basis_rows(core, d) >= 0,
{
    let m = core.spec_boundaries()[d].spec_storage();
    let a = core.spec_bases()[d].spec_values().len() as int;
    let b = (m.spec_indptr().len() + m.spec_indices().len()) as int;
    assert(a * word >= 0 && b * word >= 0) by (nonlinear_arith)
        requires
            a >= 0,
            b >= 0,
            word >= 0,
    ;
    core.spec_bases()[d].lemma_shape_bounds();
}

proof fn lemma_all_sums(core: ComplexCore, word: int, j: int, k: int)
    requires
        0 <= j <= k,
        word >= 0,
    ensures
        sum_rows(core, j) <= sum_rows(core, k),
        sum_faces(core, j) <= sum_faces(core, k),
        sum_bytes(core, word, j) <= sum_bytes(core, word, k),
        max_rows(core, j) <= max_rows(core, k),
        sum_rows(core, k) >= 0 && sum_faces(core, k) >= 0 && sum_bytes(core, word, k) >= 0 && max_rows(core, k) >= 0,
{
    assert forall|d: int| 0 <= d < k implies #[trigger] basis_rows(core, d) >= 0 by {
        lemma_degree_bytes_nonnegative(core, word, d);
    }
    assert forall|d: int| 0 <= d < k implies #[trigger] degree_bytes(core, word, d) >= 0 by {
        lemma_degree_bytes_nonnegative(core, word, d);
    }
    lemma_sums_grow(core, word, j, k);
}

proof fn lemma_mul_mono(a: int, b: int, c: int)
    requires
        0 <= a <= b,
        c >= 0,
    ensures
        0 <= a * c <= b * c,
{
    assert(0 <= a * c <= b * c) by (nonlinear_arith)
        requires
            0 <= a <= b,
            c >= 0,
    ;
}

/// Peak live bytes of one exact realization of `topology` in `ambient`
/// dimensions on top of `retained` bytes, with element sizes `sizes`;
/// `Overflow` when a count leaves `usize` or a byte total leaves `u64`.
#[verifier::rlimit(100)]
#[verifier::spinoff_prover]
pub fn realization_peak_bytes(
    topology: &ComplexCore,
    ambient: usize,
    retained: u64,
    limit: RealizationLimit,
    sizes: ElementSizes,
) -> (r: Result<u64, RealizationError>)
    requires
        2 * sizes.word <= u64::MAX,
        sizes.float_pair + sizes.float <= usize::MAX,
        3 * sizes.float + sizes.word + 1 <= usize::MAX,
    ensures
        match peak_spec(*topology, ambient as int, retained as int, limit.spec_coefficient_bits() as int, sizes) {
            Some(v) => r == Ok::<u64, RealizationError>(v as u64),
            None => r == Err::<u64, RealizationError>(RealizationError::Overflow),
        },
{
    proof {
        use_type_invariant(topology);
        topology.lemma_dimension_bound();
    }
    let ghost core = *topology;
    let ghost w = sizes.word as int;
    let dimension = topology.dimension();
    let ghost n = dimension + 1int;
    let mut topology_bytes: u64 = 0;
    let mut basis_count: usize = 0;
    let mut incidence_count: usize = 0;
    let mut largest_basis: usize = 0;
    let mut degree: usize = 0;
    proof {
        lemma_all_sums(core, w, 0, n);
    }
    while degree <= dimension
        invariant
            core == *topology,
            dimension == core.spec_dimension(),
            n == dimension + 1,
            w == sizes.word,
            degree <= dimension + 1,
            dimension < usize::MAX,
            basis_count == sum_rows(core, degree as int),
            incidence_count == sum_faces(core, degree as int),
            largest_basis == max_rows(core, degree as int),
            topology_bytes == sum_bytes(core, w, degree as int),
            forall|k: int|
                0 <= k < degree ==> #[trigger] core.spec_boundaries()[k].spec_storage().spec_indptr().len()
                    + core.spec_boundaries()[k].spec_storage().spec_indices().len() <= usize::MAX,
            sum_rows(core, n) >= 0 && sum_faces(core, n) >= 0 && sum_bytes(core, w, n) >= 0,
        decreases dimension + 1 - degree,
    {
        proof {
            lemma_all_sums(core, w, degree + 1, n);
            lemma_degree_bytes_nonnegative(core, w, degree as int);
        }
        let basis = match topology.basis(degree) {
            Ok(b) => b,
            Err(_) => return Err(RealizationError::DegreeOutside),
        };
        let rows = basis.row_count();
        basis_count = match basis_count.checked_add(rows) {
            Some(v) => v,
            None => return Err(RealizationError::Overflow),
        };
        if rows > largest_basis {
            largest_basis = rows;
        }
        if degree > 0 {
            let faces = match topology.immediate_faces(degree) {
                Ok(f) => f,
                Err(_) => return Err(RealizationError::DegreeOutside),
            };
            incidence_count = match incidence_count.checked_add(faces.len()) {
                Some(v) => v,
                None => return Err(RealizationError::Overflow),
            };
        }
        let boundary = match topology.boundary(degree) {
            Ok(b) => b,
            Err(_) => return Err(RealizationError::DegreeOutside),
        };
        let value_bytes = match bytes(basis.values().len(), sizes.word) {
            Ok(v) => v,
            Err(e) => return Err(e),
        };
        let sign_bytes = match bytes(rows, 1) {
            Ok(v) => v,
            Err(e) => return Err(e),
        };
        topology_bytes = match topology_bytes.checked_add(value_bytes) {
            Some(v) => match v.checked_add(sign_bytes) {
                Some(v) => v,
                None => return Err(RealizationError::Overflow),
            },
            None => return Err(RealizationError::Overflow),
        };
        let indices = match boundary.indptr().len().checked_add(boundary.indices().len()) {
            Some(v) => v,
            None => return Err(RealizationError::Overflow),
        };
        let index_bytes = match bytes(indices, sizes.word) {
            Ok(v) => v,
            Err(e) => return Err(e),
        };
        let coefficient_bytes = match bytes(boundary.indices().len(), 1) {
            Ok(v) => v,
            Err(e) => return Err(e),
        };
        topology_bytes = match topology_bytes.checked_add(index_bytes) {
            Some(v) => match v.checked_add(coefficient_bytes) {
                Some(v) => v,
                None => return Err(RealizationError::Overflow),
            },
            None => return Err(RealizationError::Overflow),
        };
        degree = degree + 1;
    }
    let ghost d = dimension as int;
    let ghost a = ambient as int;
    let ghost bits = limit.spec_coefficient_bits() as int;
    let ghost f = sizes.float as int;
    let ghost spec = peak_spec(core, a, retained as int, bits, sizes);
    proof {
        lemma_all_sums(core, w, n, n);
        lemma_mul_mono(0, d, a);
        lemma_mul_mono(0, d + 1, a);
        lemma_mul_mono(0, d, d);
    }
    let ghost dense_i = d * d;
    let ghost slots_i = (d + 1) * a + d * a + dense_i * 2 + d;
    let ghost dense_values_i = d * a + dense_i + d * 2;
    let dense = match dimension.checked_mul(dimension) {
        Some(v) => v,
        None => return Err(RealizationError::Overflow),
    };
    let degrees = dimension + 1;
    let slots = match degrees.checked_mul(ambient) {
        Some(x) => match dimension.checked_mul(ambient) {
            Some(y) => match x.checked_add(y) {
                Some(z) => match dense.checked_mul(2) {
                    Some(q) => match z.checked_add(q) {
                        Some(t) => match t.checked_add(dimension) {
                            Some(v) => v,
                            None => return Err(RealizationError::Overflow),
                        },
                        None => return Err(RealizationError::Overflow),
                    },
                    None => return Err(RealizationError::Overflow),
                },
                None => return Err(RealizationError::Overflow),
            },
            None => return Err(RealizationError::Overflow),
        },
        None => return Err(RealizationError::Overflow),
    };
    let word_bits = usize::BITS as u64;
    let component_bits = limit.coefficient_bits();
    let limbs = component_bits / word_bits + if component_bits % word_bits == 0 {
        0
    } else {
        1
    };
    let ghost limbs_i = limbs as int;
    let ghost rational_i = sizes.rational + limbs_i * (2 * w);
    proof {
        lemma_mul_mono(0, limbs_i, 2 * w);
    }
    let word_bytes = match checked_u64(sizes.word) {
        Ok(v) => v,
        Err(e) => return Err(e),
    };
    let rational_size = match checked_u64(sizes.rational) {
        Ok(v) => v,
        Err(e) => return Err(e),
    };
    let rational_bytes = match limbs.checked_mul(2 * word_bytes) {
        Some(x) => match rational_size.checked_add(x) {
            Some(v) => v,
            None => return Err(RealizationError::Overflow),
        },
        None => return Err(RealizationError::Overflow),
    };
    let slot_count = match checked_u64(slots) {
        Ok(v) => v,
        Err(e) => return Err(e),
    };
    let rational_scratch = match slot_count.checked_mul(rational_bytes) {
        Some(v) => v,
        None => return Err(RealizationError::Overflow),
    };
    let dense_values = match dimension.checked_mul(ambient) {
        Some(x) => match x.checked_add(dense) {
            Some(y) => match dimension.checked_mul(2) {
                Some(z) => match y.checked_add(z) {
                    Some(v) => v,
                    None => return Err(RealizationError::Overflow),
                },
                None => return Err(RealizationError::Overflow),
            },
            None => return Err(RealizationError::Overflow),
        },
        None => return Err(RealizationError::Overflow),
    };
    let pair_width = sizes.float_pair + sizes.float;
    let row_width = 3 * sizes.float + sizes.word + 1;
    let ghost metric_i = incidence_count * pair_width + largest_basis * row_width + (d + 1) * sizes.float_slice;
    proof {
        lemma_mul_mono(0, incidence_count as int, pair_width as int);
        lemma_mul_mono(0, largest_basis as int, row_width as int);
        lemma_mul_mono(0, d + 1, sizes.float_slice as int);
    }
    let metric = match incidence_count.checked_mul(pair_width) {
        Some(x) => match largest_basis.checked_mul(row_width) {
            Some(y) => match x.checked_add(y) {
                Some(z) => match degrees.checked_mul(sizes.float_slice) {
                    Some(q) => match z.checked_add(q) {
                        Some(v) => v,
                        None => return Err(RealizationError::Overflow),
                    },
                    None => return Err(RealizationError::Overflow),
                },
                None => return Err(RealizationError::Overflow),
            },
            None => return Err(RealizationError::Overflow),
        },
        None => return Err(RealizationError::Overflow),
    };
    proof {
        lemma_mul_mono(0, dense_values as int, f);
        lemma_mul_mono(0, basis_count as int, f);
        lemma_mul_mono(0, slots as int, rational_bytes as int);
    }
    let dense_bytes = match bytes(dense_values, sizes.float) {
        Ok(v) => v,
        Err(e) => return Err(e),
    };
    let metric_bytes = match checked_u64(metric) {
        Ok(v) => v,
        Err(e) => return Err(e),
    };
    let count_bytes = match bytes(basis_count, sizes.float) {
        Ok(v) => v,
        Err(e) => return Err(e),
    };
    let scratch = match rational_scratch.checked_add(dense_bytes) {
        Some(x) => match x.checked_add(metric_bytes) {
            Some(y) => match y.checked_add(count_bytes) {
                Some(v) => v,
                None => return Err(RealizationError::Overflow),
            },
            None => return Err(RealizationError::Overflow),
        },
        None => return Err(RealizationError::Overflow),
    };
    match retained.checked_add(topology_bytes) {
        Some(x) => match x.checked_add(scratch) {
            Some(v) => Ok(v),
            None => Err(RealizationError::Overflow),
        },
        None => Err(RealizationError::Overflow),
    }
}

} // verus!
