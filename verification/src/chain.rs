use vstd::prelude::*;

use crate::correspondence::{SignedPermutation, signed_permutation};
use crate::error::TopologyError;
use crate::incidence::{BoundaryRef, ExactEntries};
use crate::limit::{StorageLimit, WorkLimit};

verus! {

/// Closes `Variance` to the chain and cochain indices.
pub trait VarianceSeal {

}

/// Formal chain/cochain index used by spaces and map endpoints.
pub trait Variance: VarianceSeal + Clone + Copy {
    /// Stable diagnostic name.
    spec fn spec_name() -> Seq<char>;

    /// Stable diagnostic name.
    fn name() -> (r: &'static str)
        ensures
            r@ == Self::spec_name(),
    ;
}

/// Covariant chain-space index.
#[derive(Clone, Copy, Debug, Default, PartialEq, Eq, Structural)]
pub struct Chain;

impl VarianceSeal for Chain {

}

impl Variance for Chain {
    open spec fn spec_name() -> Seq<char> {
        "chain"@
    }

    fn name() -> (r: &'static str) {
        "chain"
    }
}

/// Contravariant algebraic-cochain-space index.
#[derive(Clone, Copy, Debug, Default, PartialEq, Eq, Structural)]
pub struct Cochain;

impl VarianceSeal for Cochain {

}

impl Variance for Cochain {
    open spec fn spec_name() -> Seq<char> {
        "cochain"@
    }

    fn name() -> (r: &'static str) {
        "cochain"
    }
}

/// Failed exact presentation comparison.
#[derive(Clone, Copy, Debug, PartialEq, Eq, Structural)]
pub enum PresentationError {
    /// Canonical descriptors or exact boundaries differ.
    Mismatch,
    /// The owners do not share one canonical presentation schema.
    NotComparable,
    /// The explicit scalar-comparison budget was exhausted.
    ComparisonSteps { required: u64, limit: u64 },
    /// Checked comparison-work arithmetic overflowed.
    Overflow,
    /// A retained topology invariant became unavailable.
    Topology(TopologyError),
}

impl PresentationError {
    pub open spec fn reason_text(self) -> Seq<char> {
        match self {
            PresentationError::Mismatch => "presentation_mismatch"@,
            PresentationError::NotComparable => "presentation_not_comparable"@,
            PresentationError::ComparisonSteps { .. } => "resource_limit"@,
            PresentationError::Overflow => "comparison_overflow"@,
            PresentationError::Topology(error) => error.reason_text(),
        }
    }

    /// Stable machine-readable reason.
    pub fn reason(self) -> (text: &'static str)
        ensures
            text@ == self.reason_text(),
    {
        match self {
            PresentationError::Mismatch => "presentation_mismatch",
            PresentationError::NotComparable => "presentation_not_comparable",
            PresentationError::ComparisonSteps { .. } => "resource_limit",
            PresentationError::Overflow => "comparison_overflow",
            PresentationError::Topology(error) => error.reason(),
        }
    }

    /// The exhausted ceiling `(axis, required, limit)`, when applicable.
    pub fn resource_limit(self) -> (r: Option<(&'static str, u64, u64)>)
        ensures
            match self {
                PresentationError::ComparisonSteps { required, limit } => r matches Some(t) && t.0@
                    == "comparison_steps"@ && t.1 == required && t.2 == limit,
                _ => r is None,
            },
    {
        match self {
            PresentationError::ComparisonSteps { required, limit } => Some(("comparison_steps", required, limit)),
            _ => None,
        }
    }
}

/// Failure to admit or combine exact chain-algebra values.
#[derive(Clone, Copy, Debug, PartialEq, Eq, Structural)]
pub enum ChainError {
    /// A sparse coordinate names no basis element in its space.
    BasisIndexOutside { index: usize, bound: usize },
    /// Values do not inhabit the same owner-, degree-, and coefficient-bound module.
    SpaceMismatch,
    /// An operation requiring canonical simplices received another chain domain.
    NotSimplicial,
    /// An operation requiring division received coefficients that form only a ring.
    CoefficientFieldRequired,
    /// The wedge averaging factor is not invertible in the coefficient field.
    NormalizationNotInvertible,
    /// A retained topology recipe became unavailable after admission.
    Topology(TopologyError),
}

impl ChainError {
    pub open spec fn reason_text(self) -> Seq<char> {
        match self {
            ChainError::BasisIndexOutside { .. } => "basis_index_outside"@,
            ChainError::SpaceMismatch => "space_mismatch"@,
            ChainError::NotSimplicial => "not_simplicial"@,
            ChainError::CoefficientFieldRequired => "coefficient_field_required"@,
            ChainError::NormalizationNotInvertible => "normalization_not_invertible"@,
            ChainError::Topology(error) => error.reason_text(),
        }
    }

    /// Stable machine-readable reason.
    pub fn reason(self) -> (text: &'static str)
        ensures
            text@ == self.reason_text(),
    {
        match self {
            ChainError::BasisIndexOutside { .. } => "basis_index_outside",
            ChainError::SpaceMismatch => "space_mismatch",
            ChainError::NotSimplicial => "not_simplicial",
            ChainError::CoefficientFieldRequired => "coefficient_field_required",
            ChainError::NormalizationNotInvertible => "normalization_not_invertible",
            ChainError::Topology(error) => error.reason(),
        }
    }

    /// Offending basis index, when applicable.
    pub fn index(self) -> (r: Option<usize>)
        ensures
            match self {
                ChainError::BasisIndexOutside { index, .. } => r == Some(index),
                _ => r is None,
            },
    {
        match self {
            ChainError::BasisIndexOutside { index, .. } => Some(index),
            _ => None,
        }
    }

    /// Basis rank against which an index was checked, when applicable.
    pub fn bound(self) -> (r: Option<usize>)
        ensures
            match self {
                ChainError::BasisIndexOutside { bound, .. } => r == Some(bound),
                _ => r is None,
            },
    {
        match self {
            ChainError::BasisIndexOutside { bound, .. } => Some(bound),
            _ => None,
        }
    }
}

/// Failure to admit one exact flat map composition.
#[derive(Clone, Copy, Debug, PartialEq, Eq, Structural)]
pub enum CompositionError {
    /// The target of the first map is not the exact source of the second.
    SpaceMismatch,
    /// The normalized execution plan exceeds the admitted finite bound.
    PlanLimit,
    /// A retained topology relation became unavailable.
    Topology(TopologyError),
}

impl CompositionError {
    pub open spec fn reason_text(self) -> Seq<char> {
        match self {
            CompositionError::SpaceMismatch => "space_mismatch"@,
            CompositionError::PlanLimit => "composition_plan_limit"@,
            CompositionError::Topology(error) => error.reason_text(),
        }
    }

    /// Stable machine-readable reason.
    pub fn reason(self) -> (text: &'static str)
        ensures
            text@ == self.reason_text(),
    {
        match self {
            CompositionError::SpaceMismatch => "space_mismatch",
            CompositionError::PlanLimit => "composition_plan_limit",
            CompositionError::Topology(error) => error.reason(),
        }
    }
}

/// Failed exact admission of a proposed chain isomorphism.
#[derive(Clone, Copy, Debug, PartialEq, Eq, Structural)]
pub enum IsomorphismError {
    /// A degree map, inverse, endpoint, or commuting law is false.
    InvalidCandidate,
    RetainedLogicalBytes { required: u64, limit: u64 },
    PeakLiveLogicalBytes { required: u64, limit: u64 },
    Terms { required: u64, limit: u64 },
    Overflow,
    Allocation,
    /// A retained topology invariant became unavailable.
    Topology(TopologyError),
}

impl IsomorphismError {
    pub open spec fn reason_text(self) -> Seq<char> {
        match self {
            IsomorphismError::InvalidCandidate => "correspondence_law"@,
            IsomorphismError::RetainedLogicalBytes { .. } => "resource_limit"@,
            IsomorphismError::PeakLiveLogicalBytes { .. } => "resource_limit"@,
            IsomorphismError::Terms { .. } => "resource_limit"@,
            IsomorphismError::Overflow => "count_overflow"@,
            IsomorphismError::Allocation => "allocation"@,
            IsomorphismError::Topology(error) => error.reason_text(),
        }
    }

    /// Stable machine-readable reason.
    pub fn reason(self) -> (text: &'static str)
        ensures
            text@ == self.reason_text(),
    {
        match self {
            IsomorphismError::InvalidCandidate => "correspondence_law",
            IsomorphismError::RetainedLogicalBytes { .. } => "resource_limit",
            IsomorphismError::PeakLiveLogicalBytes { .. } => "resource_limit",
            IsomorphismError::Terms { .. } => "resource_limit",
            IsomorphismError::Overflow => "count_overflow",
            IsomorphismError::Allocation => "allocation",
            IsomorphismError::Topology(error) => error.reason(),
        }
    }

    /// The exhausted ceiling `(axis, required, limit)`, when applicable.
    pub fn resource_limit(self) -> (r: Option<(&'static str, u64, u64)>)
        ensures
            match self {
                IsomorphismError::RetainedLogicalBytes { required, limit } => r matches Some(t) && t.0@
                    == "retained_logical_bytes"@ && t.1 == required && t.2 == limit,
                IsomorphismError::PeakLiveLogicalBytes { required, limit } => r matches Some(t) && t.0@
                    == "peak_live_logical_bytes"@ && t.1 == required && t.2 == limit,
                IsomorphismError::Terms { required, limit } => r matches Some(t) && t.0@ == "terms"@ && t.1
                    == required && t.2 == limit,
                _ => r is None,
            },
    {
        match self {
            IsomorphismError::RetainedLogicalBytes { required, limit } => Some(
                ("retained_logical_bytes", required, limit),
            ),
            IsomorphismError::PeakLiveLogicalBytes { required, limit } => Some(
                ("peak_live_logical_bytes", required, limit),
            ),
            IsomorphismError::Terms { required, limit } => Some(("terms", required, limit)),
            _ => None,
        }
    }
}

/// Lifecycle and incidence-work ceiling for one chain-law admission.
#[derive(Clone, Copy, Debug, PartialEq, Eq, Structural)]
pub struct ChainLawLimit {
    storage: StorageLimit,
    terms: WorkLimit,
}

impl ChainLawLimit {
    pub closed spec fn spec_storage(self) -> StorageLimit {
        self.storage
    }

    pub closed spec fn spec_terms(self) -> WorkLimit {
        self.terms
    }

    pub fn new(storage: StorageLimit, terms: WorkLimit) -> (r: ChainLawLimit)
        ensures
            r.spec_storage() == storage,
            r.spec_terms() == terms,
    {
        ChainLawLimit { storage, terms }
    }

    /// The default ceiling: the default storage lifecycle and 100,000,000 terms.
    pub fn default_limit() -> (r: ChainLawLimit)
        ensures
            r.spec_storage().retained() == 134217728,
            r.spec_storage().peak() == 536870912,
            r.spec_terms().spec_steps() == 100000000,
    {
        ChainLawLimit { storage: StorageLimit::default_limit(), terms: WorkLimit::new(100000000) }
    }

    pub fn storage(self) -> (r: StorageLimit)
        ensures
            r == self.spec_storage(),
    {
        self.storage
    }

    pub fn terms(self) -> (r: WorkLimit)
        ensures
            r == self.spec_terms(),
    {
        self.terms
    }
}

/// Estimated resources of one chain-law admission.
#[derive(Clone, Copy)]
pub struct ChainLawEstimate {
    pub retained: u64,
    pub peak: u64,
    pub terms: u64,
}

impl ChainLawEstimate {
    /// Admit the estimate under a ceiling, refusing the first exceeded axis.
    pub fn within(self, limit: ChainLawLimit) -> (r: Result<(), IsomorphismError>)
        ensures
            self.retained > limit.spec_storage().retained() ==> r == Err::<(), IsomorphismError>(
                IsomorphismError::RetainedLogicalBytes {
                    required: self.retained,
                    limit: limit.spec_storage().retained(),
                },
            ),
            self.retained <= limit.spec_storage().retained() && self.peak > limit.spec_storage().peak() ==> r
                == Err::<(), IsomorphismError>(
                IsomorphismError::PeakLiveLogicalBytes { required: self.peak, limit: limit.spec_storage().peak() },
            ),
            self.retained <= limit.spec_storage().retained() && self.peak <= limit.spec_storage().peak()
                && self.terms > limit.spec_terms().spec_steps() ==> r == Err::<(), IsomorphismError>(
                IsomorphismError::Terms { required: self.terms, limit: limit.spec_terms().spec_steps() },
            ),
            self.retained <= limit.spec_storage().retained() && self.peak <= limit.spec_storage().peak()
                && self.terms <= limit.spec_terms().spec_steps() ==> r is Ok,
    {
        let storage = limit.storage();
        if self.retained > storage.retained_logical_bytes() {
            Err(
                IsomorphismError::RetainedLogicalBytes {
                    required: self.retained,
                    limit: storage.retained_logical_bytes(),
                },
            )
        } else if self.peak > storage.peak_live_logical_bytes() {
            Err(
                IsomorphismError::PeakLiveLogicalBytes {
                    required: self.peak,
                    limit: storage.peak_live_logical_bytes(),
                },
            )
        } else if self.terms > limit.terms().steps() {
            Err(IsomorphismError::Terms { required: self.terms, limit: limit.terms().steps() })
        } else {
            Ok(())
        }
    }
}

/// `value * factor` in `u64`; `Overflow` when it does not fit.
pub fn checked_mul(value: usize, factor: u64) -> (r: Result<u64, IsomorphismError>)
    ensures
        value * factor <= u64::MAX ==> r == Ok::<u64, IsomorphismError>((value * factor) as u64),
        value * factor > u64::MAX ==> r == Err::<u64, IsomorphismError>(IsomorphismError::Overflow),
{
    if value as u128 > u64::MAX as u128 {
        proof {
            assert(value * factor > u64::MAX || factor == 0) by (nonlinear_arith)
                requires
                    value > u64::MAX,
            ;
        }
        if factor == 0 {
            return Ok(0);
        }
        return Err(IsomorphismError::Overflow);
    }
    match (value as u64).checked_mul(factor) {
        Some(v) => Ok(v),
        None => Err(IsomorphismError::Overflow),
    }
}

/// `left + right` in `u64`; `Overflow` when it does not fit.
pub fn checked_add(left: u64, right: u64) -> (r: Result<u64, IsomorphismError>)
    ensures
        left + right <= u64::MAX ==> r == Ok::<u64, IsomorphismError>((left + right) as u64),
        left + right > u64::MAX ==> r == Err::<u64, IsomorphismError>(IsomorphismError::Overflow),
{
    match left.checked_add(right) {
        Some(v) => Ok(v),
        None => Err(IsomorphismError::Overflow),
    }
}

/// Scalar-comparison budget of an exact presentation comparison.
pub struct ComparisonBudget {
    limit: u64,
    used: u64,
}

impl ComparisonBudget {
    pub closed spec fn spec_limit(&self) -> u64 {
        self.limit
    }

    pub closed spec fn spec_used(&self) -> u64 {
        self.used
    }

    pub fn new(limit: WorkLimit) -> (r: ComparisonBudget)
        ensures
            r.spec_limit() == limit.spec_steps(),
            r.spec_used() == 0,
    {
        ComparisonBudget { limit: limit.steps(), used: 0 }
    }

    /// Charge one comparison, refusing the first one past the limit.
    pub fn charge(&mut self) -> (r: Result<(), PresentationError>)
        ensures
            final(self).spec_limit() == old(self).spec_limit(),
            old(self).spec_used() == u64::MAX ==> r == Err::<(), PresentationError>(PresentationError::Overflow)
                && final(self).spec_used() == old(self).spec_used(),
            old(self).spec_used() < u64::MAX && old(self).spec_used() + 1 > old(self).spec_limit() ==> r == Err::<
                (),
                PresentationError,
            >(PresentationError::ComparisonSteps { required: (old(self).spec_used() + 1) as u64, limit: old(self).spec_limit() })
                && final(self).spec_used() == old(self).spec_used(),
            old(self).spec_used() < u64::MAX && old(self).spec_used() + 1 <= old(self).spec_limit() ==> r is Ok
                && final(self).spec_used() == old(self).spec_used() + 1,
    {
        let required = match self.used.checked_add(1) {
            Some(v) => v,
            None => return Err(PresentationError::Overflow),
        };
        if required > self.limit {
            return Err(PresentationError::ComparisonSteps { required, limit: self.limit });
        }
        self.used = required;
        Ok(())
    }

    /// Charge one comparison of two counts.
    pub fn compare_counts(&mut self, left: usize, right: usize) -> (r: Result<bool, PresentationError>)
        ensures
            final(self).spec_limit() == old(self).spec_limit(),
            old(self).spec_used() < old(self).spec_limit() ==> r == Ok::<bool, PresentationError>(left == right)
                && final(self).spec_used() == old(self).spec_used() + 1,
            old(self).spec_used() >= old(self).spec_limit() ==> r is Err,
    {
        match self.charge() {
            Ok(()) => Ok(left == right),
            Err(e) => Err(e),
        }
    }

    /// Charge one comparison of two index slices, element by element.
    pub fn compare_slice(&mut self, left: &[usize], right: &[usize]) -> (r: Result<bool, PresentationError>)
        ensures
            final(self).spec_limit() == old(self).spec_limit(),
            old(self).spec_used() + 1 + left@.len() <= old(self).spec_limit() ==> r == Ok::<bool, PresentationError>(
                left@ == right@,
            ),
    {
        let same_length = match self.compare_counts(left.len(), right.len()) {
            Ok(b) => b,
            Err(e) => return Err(e),
        };
        if !same_length {
            return Ok(false);
        }
        let ghost used0 = self.spec_used();
        let mut k: usize = 0;
        while k < left.len()
            invariant
                k <= left@.len() == right@.len(),
                self.spec_limit() == old(self).spec_limit(),
                self.spec_used() == used0 + k,
                used0 == old(self).spec_used() + 1,
                forall|j: int| 0 <= j < k ==> left@[j] == right@[j],
            decreases left@.len() - k,
        {
            let same = match self.compare_counts(left[k], right[k]) {
                Ok(b) => b,
                Err(e) => return Err(e),
            };
            if !same {
                return Ok(false);
            }
            k = k + 1;
        }
        proof {
            assert(left@ =~= right@);
        }
        Ok(true)
    }
}

/// Whether two boundaries have the same shape and the same entries in storage order.
pub open spec fn same_boundary(left: BoundaryRef, right: BoundaryRef) -> bool {
    &&& left.spec_rows() == right.spec_rows()
    &&& left.spec_columns() == right.spec_columns()
    &&& left.spec_indices().len() == right.spec_indices().len()
    &&& forall|p: int|
        0 <= p < left.spec_indices().len() ==> #[trigger] entry_of(left, p) == entry_of(right, p)
}

/// Entry `p` of a boundary as `(row, column, coefficient)`.
pub open spec fn entry_of(b: BoundaryRef, p: int) -> (usize, usize, i64) {
    (
        crate::incidence::entry_row(b.spec_indptr(), b.spec_rows(), p) as usize,
        b.spec_indices()[p],
        b.spec_coefficients()[p] as i64,
    )
}

/// Compare two boundaries entry by entry under a comparison budget.
pub fn compare_boundaries(left: BoundaryRef, right: BoundaryRef, budget: &mut ComparisonBudget) -> (r: Result<
    bool,
    PresentationError,
>)
    ensures
        final(budget).spec_limit() == old(budget).spec_limit(),
        old(budget).spec_used() + 2 + left.spec_indices().len() <= old(budget).spec_limit() ==> r == Ok::<
            bool,
            PresentationError,
        >(same_boundary(left, right)),
{
    let (left_rows, left_columns) = left.shape();
    let (right_rows, right_columns) = right.shape();
    let same_shape = match budget.charge() {
        Ok(()) => left_rows == right_rows && left_columns == right_columns,
        Err(e) => return Err(e),
    };
    if !same_shape {
        return Ok(false);
    }
    let mut left_entries = left.exact_entries();
    let mut right_entries = right.exact_entries();
    let ghost used0 = budget.spec_used();
    let ghost count = left.spec_indices().len();
    loop
        invariant
            budget.spec_limit() == old(budget).spec_limit(),
            used0 == old(budget).spec_used() + 1,
            left_entries.spec_position() == right_entries.spec_position(),
            left_entries.spec_position() <= count,
            right_entries.spec_position() <= right.spec_indices().len(),
            budget.spec_used() == used0 + left_entries.spec_position(),
            left_entries.spec_rows() == left.spec_rows(),
            left_entries.spec_indptr() == left.spec_indptr(),
            left_entries.spec_indices() == left.spec_indices(),
            left_entries.spec_coefficients() == left.spec_coefficients(),
            right_entries.spec_rows() == right.spec_rows(),
            right_entries.spec_indptr() == right.spec_indptr(),
            right_entries.spec_indices() == right.spec_indices(),
            right_entries.spec_coefficients() == right.spec_coefficients(),
            count == left.spec_indices().len(),
            left.spec_rows() == right.spec_rows(),
            left.spec_columns() == right.spec_columns(),
            forall|p: int| 0 <= p < left_entries.spec_position() ==> #[trigger] entry_of(left, p) == entry_of(right, p),
        decreases count - left_entries.spec_position(),
    {
        let ghost p = left_entries.spec_position() as int;
        let next_left = left_entries.next();
        let next_right = right_entries.next();
        match (next_left, next_right) {
            (Some(a), Some(b)) => {
                let same = match budget.charge() {
                    Ok(()) => a.0 == b.0 && a.1 == b.1 && a.2 == b.2,
                    Err(e) => return Err(e),
                };
                proof {
                    assert(a == entry_of(left, p));
                    assert(b == entry_of(right, p));
                }
                if !same {
                    proof {
                        assert(a != b);
                        assert(entry_of(left, p) != entry_of(right, p));
                        assert(!same_boundary(left, right));
                    }
                    return Ok(false);
                }
                proof {
                    assert(entry_of(left, p) == entry_of(right, p));
                }
            },
            (None, None) => {
                return Ok(true);
            },
            _ => {
                match budget.charge() {
                    Ok(()) => {},
                    Err(e) => return Err(e),
                }
                return Ok(false);
            },
        }
    }
}

/// The image of basis index `i` under a signed permutation or its inverse,
/// with the orientation sign.
pub open spec fn signed_image(p: SignedPermutation, inverse: bool, i: int) -> (int, int) {
    if inverse {
        (p.spec_sources()[i] as int, p.spec_signs()[p.spec_sources()[i] as int] as int)
    } else {
        (p.spec_targets()[i] as int, p.spec_signs()[i] as int)
    }
}

/// The image of basis index `s` under `after ∘ before`, with the product of
/// the orientation signs: `1` when they agree, `-1` when they differ.
pub open spec fn composite_image(a: SignedPermutation, ai: bool, b: SignedPermutation, bi: bool, s: int) -> (int, int) {
    (
        signed_image(a, ai, signed_image(b, bi, s).0).0,
        if signed_image(b, bi, s).1 == signed_image(a, ai, signed_image(b, bi, s).0).1 {
            1
        } else {
            -1
        },
    )
}

/// The targets of `after ∘ before`.
pub open spec fn composite_targets(a: SignedPermutation, ai: bool, b: SignedPermutation, bi: bool) -> Seq<usize> {
    Seq::new(b.spec_targets().len(), |s: int| composite_image(a, ai, b, bi, s).0 as usize)
}

/// The orientation signs of `after ∘ before`.
pub open spec fn composite_signs(a: SignedPermutation, ai: bool, b: SignedPermutation, bi: bool) -> Seq<i8> {
    Seq::new(b.spec_targets().len(), |s: int| composite_image(a, ai, b, bi, s).1 as i8)
}

/// An elementary exact map: a boundary, a coboundary, a signed permutation
/// or its inverse, the identity, or zero.
pub enum AtomicRecipe {
    Boundary { degree: usize },
    Coboundary { boundary_degree: usize },
    SignedPermutation { permutation: SignedPermutation, inverse: bool },
    Identity,
    Zero,
}

impl AtomicRecipe {
    /// The recipe of the dual map.
    pub fn dual(&self) -> (r: AtomicRecipe)
        ensures
            match *self {
                AtomicRecipe::Boundary { degree } => r == AtomicRecipe::Coboundary { boundary_degree: degree },
                AtomicRecipe::Coboundary { boundary_degree } => r == AtomicRecipe::Boundary { degree: boundary_degree },
                AtomicRecipe::SignedPermutation { permutation, inverse } => r matches AtomicRecipe::SignedPermutation {
                    permutation: q,
                    inverse: i,
                } && q.spec_targets() == permutation.spec_targets() && q.spec_sources() == permutation.spec_sources()
                    && q.spec_signs() == permutation.spec_signs() && i == !inverse,
                AtomicRecipe::Identity => r == AtomicRecipe::Identity,
                AtomicRecipe::Zero => r == AtomicRecipe::Zero,
            },
    {
        match self {
            AtomicRecipe::Boundary { degree } => AtomicRecipe::Coboundary { boundary_degree: *degree },
            AtomicRecipe::Coboundary { boundary_degree } => AtomicRecipe::Boundary { degree: *boundary_degree },
            AtomicRecipe::SignedPermutation { permutation, inverse } => AtomicRecipe::SignedPermutation {
                permutation: permutation.duplicate(),
                inverse: !*inverse,
            },
            AtomicRecipe::Identity => AtomicRecipe::Identity,
            AtomicRecipe::Zero => AtomicRecipe::Zero,
        }
    }
}

/// Image of one basis index under a signed permutation or its inverse.
pub fn signed_basis(permutation: &SignedPermutation, inverse: bool, index: usize) -> (r: Result<
    (usize, i8),
    CompositionError,
>)
    requires
        permutation.wf(),
    ensures
        index < permutation.spec_targets().len() ==> (r matches Ok(pair) && pair.0 == signed_image(
            *permutation,
            inverse,
            index as int,
        ).0 && pair.1 == signed_image(*permutation, inverse, index as int).1),
        index >= permutation.spec_targets().len() ==> r == Err::<(usize, i8), CompositionError>(
            CompositionError::Topology(TopologyError::DegreeOutside(index)),
        ),
{
    let mapped = if inverse {
        permutation.inverse_basis(index)
    } else {
        permutation.map_basis(index)
    };
    match mapped {
        Ok(pair) => Ok(pair),
        Err(e) => Err(CompositionError::Topology(e)),
    }
}

/// The composite `after ∘ before` of two signed-permutation recipes; `None`
/// when either recipe is not a signed permutation.
pub fn compose_signed_recipes(after: &AtomicRecipe, before: &AtomicRecipe) -> (r: Result<
    Option<SignedPermutation>,
    CompositionError,
>)
    requires
        after matches AtomicRecipe::SignedPermutation { permutation, .. } ==> permutation.wf(),
        before matches AtomicRecipe::SignedPermutation { permutation, .. } ==> permutation.wf(),
    ensures
        !(*after is SignedPermutation && *before is SignedPermutation) ==> r == Ok::<
            Option<SignedPermutation>,
            CompositionError,
        >(None),
        *after is SignedPermutation && *before is SignedPermutation && after->permutation.spec_targets().len()
            != before->permutation.spec_targets().len() ==> r == Err::<Option<SignedPermutation>, CompositionError>(
            CompositionError::SpaceMismatch,
        ),
        *after is SignedPermutation && *before is SignedPermutation && after->permutation.spec_targets().len()
            == before->permutation.spec_targets().len() ==> r matches Ok(Some(_)),
        r matches Ok(Some(c)) ==> c.wf(),
        r matches Ok(Some(c)) ==> c.spec_targets().len() == before->permutation.spec_targets().len(),
        r matches Ok(Some(c)) ==> c.spec_targets() == composite_targets(
            after->permutation,
            after->inverse,
            before->permutation,
            before->inverse,
        ) && c.spec_signs() == composite_signs(
            after->permutation,
            after->inverse,
            before->permutation,
            before->inverse,
        ),
{
    let (a, ai) = match after {
        AtomicRecipe::SignedPermutation { permutation, inverse } => (permutation, *inverse),
        _ => return Ok(None),
    };
    let (b, bi) = match before {
        AtomicRecipe::SignedPermutation { permutation, inverse } => (permutation, *inverse),
        _ => return Ok(None),
    };
    proof {
        assert(*a == after->permutation);
        assert(ai == after->inverse);
        assert(*b == before->permutation);
        assert(bi == before->inverse);
    }
    if a.len() != b.len() {
        return Err(CompositionError::SpaceMismatch);
    }
    let n = b.len();
    let mut targets: Vec<usize> = Vec::new();
    let mut signs: Vec<i8> = Vec::new();
    let mut source: usize = 0;
    while source < n
        invariant
            source <= n,
            *a == after->permutation,
            ai == after->inverse,
            *b == before->permutation,
            bi == before->inverse,
            *after is SignedPermutation,
            *before is SignedPermutation,
            n == b.spec_targets().len(),
            n == a.spec_targets().len(),
            a.wf(),
            b.wf(),
            targets@.len() == source,
            signs@.len() == source,
            forall|s: int|
                #![trigger targets@[s]]
                0 <= s < source ==> targets@[s] == composite_image(*a, ai, *b, bi, s).0 && signs@[s]
                    == composite_image(*a, ai, *b, bi, s).1,
            forall|s: int| 0 <= s < source ==> #[trigger] signs@[s] == 1 || signs@[s] == -1,
        decreases n - source,
    {
        let (middle, before_sign) = match signed_basis(b, bi, source) {
            Ok(pair) => pair,
            Err(e) => return Err(e),
        };
        proof {
            lemma_image_in_range(*b, bi, source as int);
        }
        let (target, after_sign) = match signed_basis(a, ai, middle) {
            Ok(pair) => pair,
            Err(e) => return Err(e),
        };
        proof {
            lemma_image_in_range(*a, ai, middle as int);
        }
        let sign: i8 = if before_sign == after_sign {
            1
        } else {
            -1
        };
        let ghost old_targets = targets@;
        let ghost old_signs = signs@;
        let ghost current = source as int;
        targets.push(target);
        signs.push(sign);
        source = source + 1;
        proof {
            assert(targets@[current] == composite_image(*a, ai, *b, bi, current).0);
            assert(signs@[current] == composite_image(*a, ai, *b, bi, current).1);
            assert forall|s: int|
                #![trigger targets@[s]]
                0 <= s < source implies targets@[s] == composite_image(*a, ai, *b, bi, s).0 && signs@[s]
                    == composite_image(*a, ai, *b, bi, s).1 by {
                if s < current {
                    assert(targets@[s] == old_targets[s]);
                    assert(signs@[s] == old_signs[s]);
                }
            }
            assert forall|s: int| 0 <= s < source implies #[trigger] signs@[s] == 1 || signs@[s] == -1 by {
                if s < current {
                    assert(signs@[s] == old_signs[s]);
                }
            }
        }
    }
    proof {
        assert forall|x: int, y: int| 0 <= x < y < n implies targets@[x] != targets@[y] by {
            lemma_image_injective(*b, bi, x, y);
            lemma_image_in_range(*b, bi, x);
            lemma_image_in_range(*b, bi, y);
            lemma_image_injective(*a, ai, signed_image(*b, bi, x).0, signed_image(*b, bi, y).0);
        }
        assert forall|s: int| 0 <= s < n implies #[trigger] targets@[s] < n by {
            lemma_image_in_range(*b, bi, s);
            lemma_image_in_range(*a, ai, signed_image(*b, bi, s).0);
        }
    }
    proof {
        assert(signed_permutation(targets@, signs@));
    }
    let ghost composed_targets = targets@;
    let ghost composed_signs = signs@;
    match SignedPermutation::from_parts(targets, signs) {
        Ok(c) => {
            proof {
                assert(c.spec_targets() == composed_targets);
                assert(composed_targets =~= composite_targets(*a, ai, *b, bi)) by {
                    assert forall|s: int| 0 <= s < n implies composed_targets[s] == composite_targets(*a, ai, *b, bi)[s] by {
                        assert(composed_targets[s] == composite_image(*a, ai, *b, bi, s).0);
                    }
                }
                assert(composed_signs =~= composite_signs(*a, ai, *b, bi)) by {
                    assert forall|s: int| 0 <= s < n implies composed_signs[s] == composite_signs(*a, ai, *b, bi)[s] by {
                        assert(composed_targets[s] == composite_image(*a, ai, *b, bi, s).0);
                        assert(composed_signs[s] == composite_image(*a, ai, *b, bi, s).1);
                    }
                }
            }
            Ok(Some(c))
        },
        Err(e) => {
            proof {
                assert(false);
            }
            Err(CompositionError::Topology(e))
        },
    }
}

proof fn lemma_image_in_range(p: SignedPermutation, inverse: bool, i: int)
    requires
        p.wf(),
        0 <= i < p.spec_targets().len(),
    ensures
        0 <= signed_image(p, inverse, i).0 < p.spec_targets().len(),
        signed_image(p, inverse, i).1 == 1 || signed_image(p, inverse, i).1 == -1,
{
}

proof fn lemma_image_injective(p: SignedPermutation, inverse: bool, x: int, y: int)
    requires
        p.wf(),
        0 <= x < p.spec_targets().len(),
        0 <= y < p.spec_targets().len(),
        x != y,
    ensures
        signed_image(p, inverse, x).0 != signed_image(p, inverse, y).0,
{
    if inverse {
        assert(p.spec_targets()[p.spec_sources()[x] as int] == x);
        assert(p.spec_targets()[p.spec_sources()[y] as int] == y);
    } else {
        if x < y {
            assert(p.spec_targets()[x] != p.spec_targets()[y]);
        } else {
            assert(p.spec_targets()[y] != p.spec_targets()[x]);
        }
    }
}

/// Whether a signed permutation maps every index to itself with sign `1`.
pub fn permutation_is_identity(permutation: &SignedPermutation) -> (r: bool)
    ensures
        r <==> forall|s: int|
            0 <= s < permutation.spec_targets().len() ==> #[trigger] permutation.spec_targets()[s] == s
                && permutation.spec_signs()[s] == 1,
{
    let count = permutation.len();
    let targets = permutation.target_of_source();
    let signs = permutation.signs();
    let mut s: usize = 0;
    while s < targets.len()
        invariant
            s <= targets@.len(),
            targets@ == permutation.spec_targets(),
            signs@ == permutation.spec_signs(),
            signs@.len() == targets@.len(),
            forall|t: int| 0 <= t < s ==> #[trigger] targets@[t] == t && signs@[t] == 1,
        decreases targets@.len() - s,
    {
        if targets[s] != s || signs[s] != 1 {
            return false;
        }
        proof {
            assert(targets@[s as int] == s && signs@[s as int] == 1);
            assert forall|t: int| 0 <= t < s + 1 implies #[trigger] targets@[t] == t && signs@[t] == 1 by {
                if t < s {
                    assert(targets@[t] == t);
                }
            }
        }
        s = s + 1;
    }
    true
}

} // verus!
