use vstd::prelude::*;

use crate::complex::{ComplexCore, lemma_entry_in_extent};
use crate::disjoint::{DisjointSet, respects};
use crate::error::TopologyError;
use crate::bucket::{bucket, bucket_order, lemma_bucket_members};
use crate::incidence::{DegreeLayout, boundary_built, incidence_columns, lemma_row_of, lemma_row_window, row_of, lemma_words_before_monotone, word_count, words_before};
use crate::mask::{
    PackedDegreeMasks, PackedDegreeMasksBuilder, in_layout, mask_bit, padding_clear, total_words,
};

verus! {

/// A deterministic verdict on a topological property: admitted with its
/// evidence, or rejected with a counterexample.
#[derive(Debug)]
pub enum DomainVerdict<E, R> {
    Admitted(E),
    Rejected(R),
}

/// Counterexample to codimension-one regularity.
#[derive(Debug, Clone, Copy, PartialEq, Eq, Structural)]
pub enum RegularRejection {
    /// A vertex that no top-dimensional simplex contains.
    NotPure { vertex: usize },
    /// A codimension-one simplex with neither one nor two top cofaces.
    CodimensionOneIncidence { degree: usize, simplex: usize, cofaces: usize },
}

impl RegularRejection {
    /// The classification of the rejection, with its counterexample.
    pub open spec fn classified(self) -> TopologyError {
        match self {
            RegularRejection::NotPure { vertex } => TopologyError::NotPure(vertex),
            RegularRejection::CodimensionOneIncidence { degree, simplex, cofaces } => {
                TopologyError::CodimensionOneIncidence(degree, simplex, cofaces)
            },
        }
    }

    /// The classification of the rejection.
    pub fn error(self) -> (r: TopologyError)
        ensures
            r == self.classified(),
    {
        match self {
            RegularRejection::NotPure { vertex } => TopologyError::NotPure(vertex),
            RegularRejection::CodimensionOneIncidence { degree, simplex, cofaces } => {
                TopologyError::CodimensionOneIncidence(degree, simplex, cofaces)
            },
        }
    }
}

/// Whether the topological boundary is empty, with the first boundary
/// simplex of codimension one otherwise.
#[derive(Debug, Clone, Copy, PartialEq, Eq, Structural)]
pub enum BoundaryKind {
    Empty,
    NonEmpty { first_codimension_one_simplex: usize },
}

/// The top basis of an owner.
pub open spec fn top_values(core: ComplexCore) -> Seq<usize> {
    core.spec_bases()[core.spec_dimension() as int].spec_values()
}

/// Whether some top-dimensional simplex contains vertex `v`.
pub open spec fn vertex_used(core: ComplexCore, v: int) -> bool {
    top_values(core).contains(v as usize)
}

/// Whether every vertex lies in a top-dimensional simplex.
pub open spec fn pure(core: ComplexCore) -> bool {
    forall|v: int| 0 <= v < core.spec_vertex_count() ==> #[trigger] vertex_used(core, v)
}

/// Whether `v` is the least vertex in no top-dimensional simplex.
pub open spec fn first_unused(core: ComplexCore, v: int) -> bool {
    &&& 0 <= v < core.spec_vertex_count()
    &&& !vertex_used(core, v)
    &&& forall|u: int| 0 <= u < v ==> #[trigger] vertex_used(core, u)
}

/// Number of top-dimensional cofaces of codimension-one simplex `x`: the
/// length of row `x` of the top signed boundary.
pub open spec fn coface_count(core: ComplexCore, x: int) -> int {
    let m = core.spec_boundaries()[core.spec_dimension() as int].spec_storage();
    m.spec_indptr()[x + 1] - m.spec_indptr()[x]
}

/// Number of codimension-one simplices.
pub open spec fn codimension_one_count(core: ComplexCore) -> int {
    core.spec_bases()[core.spec_dimension() - 1].spec_row_count()
}

/// Whether codimension-one simplex `x` has one or two top cofaces.
pub open spec fn incidence_regular(core: ComplexCore, x: int) -> bool {
    1 <= coface_count(core, x) <= 2
}

/// Whether every codimension-one simplex has one or two top cofaces.
pub open spec fn all_incidence_regular(core: ComplexCore) -> bool {
    forall|x: int| 0 <= x < codimension_one_count(core) ==> #[trigger] incidence_regular(core, x)
}

/// Whether `x` is the first codimension-one simplex with an irregular
/// number of top cofaces.
pub open spec fn first_irregular(core: ComplexCore, x: int) -> bool {
    &&& 0 <= x < codimension_one_count(core)
    &&& !incidence_regular(core, x)
    &&& forall|y: int| 0 <= y < x ==> #[trigger] incidence_regular(core, y)
}

/// Whether `x` is the first codimension-one simplex with exactly one top
/// coface.
pub open spec fn first_boundary_simplex(core: ComplexCore, x: int) -> bool {
    &&& 0 <= x < codimension_one_count(core)
    &&& coface_count(core, x) == 1
    &&& forall|y: int| 0 <= y < x ==> #[trigger] coface_count(core, y) != 1
}

/// Whether simplex `t` of degree `d` lies on the topological boundary: a
/// codimension-one simplex with one top coface, or a face of a lower-degree
/// boundary simplex.
pub open spec fn on_boundary(core: ComplexCore, d: int, t: int) -> bool
    decreases core.spec_dimension() - d,
{
    if d < 0 || d + 1 > core.spec_dimension() {
        false
    } else if d + 1 == core.spec_dimension() {
        coface_count(core, t) == 1
    } else {
        let faces = core.spec_immediate_faces()[d + 1];
        exists|q: int|
            #![trigger faces[q]]
            0 <= q < faces.len() && faces[q] == t && on_boundary(core, d + 1, q / (d + 2))
    }
}

/// Whether one of the first `limit` incidences of degree `d + 1` makes `t` a
/// face of a boundary simplex.
pub open spec fn marked_by(core: ComplexCore, d: int, limit: int, t: int) -> bool {
    let faces = core.spec_immediate_faces()[d + 1];
    exists|q: int|
        #![trigger faces[q]]
        0 <= q < limit && faces[q] == t && on_boundary(core, d + 1, q / (d + 2))
}

/// Monotone row pointers of `rows` rows.
pub open spec fn row_pointers_of(indptr: Seq<usize>, rows: int) -> bool {
    &&& indptr.len() == rows + 1
    &&& forall|a: int, b: int| 0 <= a <= b <= rows ==> #[trigger] indptr[a] <= #[trigger] indptr[b]
}

/// Whether `words` are the canonical boundary masks of `core`.
pub open spec fn boundary_masks(core: ComplexCore, words: Seq<u64>) -> bool {
    let counts = core.spec_layout().spec_counts();
    &&& words.len() == total_words(counts)
    &&& padding_clear(words, counts)
    &&& forall|d: int, t: int|
        #![trigger mask_bit(words, counts, d, t)]
        in_layout(counts, d, t) ==> mask_bit(words, counts, d, t) == on_boundary(core, d, t)
}

/// Whether `kind` classifies the boundary of `core`.
pub open spec fn boundary_kind(core: ComplexCore, kind: BoundaryKind) -> bool {
    match kind {
        BoundaryKind::Empty => core.spec_dimension() == 0 || forall|x: int|
            0 <= x < codimension_one_count(core) ==> #[trigger] coface_count(core, x) != 1,
        BoundaryKind::NonEmpty { first_codimension_one_simplex } => core.spec_dimension() >= 1
            && first_boundary_simplex(core, first_codimension_one_simplex as int),
    }
}

/// Retained evidence of codimension-one regularity: the boundary masks of
/// every degree and the boundary classification.
#[derive(Debug)]
pub struct RegularEvidence {
    boundary: PackedDegreeMasks,
    kind: BoundaryKind,
}

impl RegularEvidence {
    pub closed spec fn spec_boundary(&self) -> PackedDegreeMasks {
        self.boundary
    }

    pub closed spec fn spec_kind(&self) -> BoundaryKind {
        self.kind
    }

    /// Whether this is the regularity evidence of `core`.
    pub open spec fn of(&self, core: ComplexCore) -> bool {
        &&& boundary_masks(core, self.spec_boundary().spec_words())
        &&& boundary_kind(core, self.spec_kind())
    }
}

/// The canonical regularity verdict of `core`: the least unused vertex, else
/// the first codimension-one simplex without one or two cofaces, else the
/// boundary evidence.
pub open spec fn regular_verdict(
    core: ComplexCore,
    verdict: DomainVerdict<RegularEvidence, RegularRejection>,
) -> bool {
    if core.spec_dimension() == 0 {
        verdict matches DomainVerdict::Admitted(ev) && ev.of(core)
    } else if !pure(core) {
        verdict matches DomainVerdict::Rejected(RegularRejection::NotPure { vertex }) && first_unused(
            core,
            vertex as int,
        )
    } else if !all_incidence_regular(core) {
        verdict matches DomainVerdict::Rejected(
            RegularRejection::CodimensionOneIncidence { degree, simplex, cofaces },
        ) && degree == core.spec_dimension() - 1 && first_irregular(core, simplex as int) && cofaces
            == coface_count(core, simplex as int)
    } else {
        verdict matches DomainVerdict::Admitted(ev) && ev.of(core)
    }
}

/// The refusal owed by a complex that is not regular: its first vertex in
/// no top-dimensional simplex, or else its first codimension-one simplex
/// with neither one nor two top cofaces, with its degree and coface count.
pub open spec fn regular_failure(core: ComplexCore, e: TopologyError) -> bool {
    if !pure(core) {
        e matches TopologyError::NotPure(v) && first_unused(core, v as int)
    } else {
        e matches TopologyError::CodimensionOneIncidence(d, s, c) && d == core.spec_dimension() - 1
            && first_irregular(core, s as int) && c == coface_count(core, s as int)
    }
}

} // verus!

verus! {

/// Flags the vertices that some top-dimensional simplex contains.
fn vertex_usage(owner: &ComplexCore) -> (used: Vec<bool>)
    ensures
        used@.len() == owner.spec_vertex_count(),
        forall|v: int| 0 <= v < used@.len() ==> #[trigger] used@[v] == vertex_used(*owner, v),
{
    proof {
        use_type_invariant(owner);
    }
    let vertex_count = owner.vertex_count();
    let dimension = owner.dimension();
    let top = match owner.basis(dimension) {
        Ok(b) => b,
        Err(_) => {
            proof {
                assert(false);
            }
            return Vec::new();
        },
    };
    let values = top.values();
    let width = top.row_width();
    let ghost core = *owner;
    proof {
        assert(top.shape_inv());
        top.lemma_shape_bounds();
    }
    let mut used: Vec<bool> = Vec::new();
    let mut v: usize = 0;
    while v < vertex_count
        invariant
            v <= vertex_count,
            used@.len() == v,
            forall|u: int| 0 <= u < v ==> !#[trigger] used@[u],
        decreases vertex_count - v,
    {
        used.push(false);
        v = v + 1;
    }
    let mut p: usize = 0;
    while p < values.len()
        invariant
            core == *owner,
            core.core_inv(),
            vertex_count == core.spec_vertex_count(),
            dimension == core.spec_dimension(),
            *top == core.spec_bases()[dimension as int],
            values@ == top_values(core),
            width == top.spec_row_width(),
            values@.len() == top.spec_row_count() * top.spec_row_width(),
            p <= values@.len(),
            used@.len() == vertex_count,
            forall|u: int|
                0 <= u < vertex_count ==> #[trigger] used@[u] == values@.subrange(0, p as int).contains(
                    u as usize,
                ),
        decreases values@.len() - p,
    {
        let vertex = values[p];
        proof {
            let s = p as int / width as int;
            let j = p as int % width as int;
            assert(width > 0 && 0 <= s < top.spec_row_count() && s * width + j == p && 0 <= j < width)
                by (nonlinear_arith)
                requires
                    0 <= p < top.spec_row_count() * width,
                    width >= 0,
                    s == p as int / width as int,
                    j == p as int % width as int,
            ;
            lemma_entry_in_extent(core, dimension as int, s, j);
            lemma_row_window(s, width as int, top.spec_row_count());
            assert(top.rows()[s][j] == values@[p as int]);
        }
        let ghost before = used@;
        used.set(vertex, true);
        proof {
            assert forall|u: int| 0 <= u < vertex_count implies #[trigger] used@[u] == values@.subrange(
                0,
                p + 1,
            ).contains(u as usize) by {
                let prefix = values@.subrange(0, p as int);
                assert(values@.subrange(0, p + 1) == prefix.push(vertex));
                assert(before[u] == prefix.contains(u as usize));
                assert(values@.subrange(0, p + 1)[p as int] == vertex);
                if prefix.contains(u as usize) {
                    let k = choose|k: int| 0 <= k < prefix.len() && #[trigger] prefix[k] == u as usize;
                    assert(values@.subrange(0, p + 1)[k] == u as usize);
                }
                if values@.subrange(0, p + 1).contains(u as usize) && u != vertex {
                    let whole = values@.subrange(0, p + 1);
                    let k = choose|k: int| 0 <= k < whole.len() && #[trigger] whole[k] == u as usize;
                    assert(prefix[k] == u as usize);
                }
            }
        }
        p = p + 1;
    }
    proof {
        assert(values@.subrange(0, p as int) == values@);
    }
    used
}

/// The least vertex whose flag is clear.
fn first_clear(flags: &Vec<bool>) -> (r: Option<usize>)
    ensures
        r matches Some(v) ==> v < flags@.len() && !flags@[v as int] && forall|u: int|
            0 <= u < v ==> #[trigger] flags@[u],
        r is None ==> forall|u: int| 0 <= u < flags@.len() ==> #[trigger] flags@[u],
{
    let mut v: usize = 0;
    while v < flags.len()
        invariant
            v <= flags@.len(),
            forall|u: int| 0 <= u < v ==> #[trigger] flags@[u],
        decreases flags@.len() - v,
    {
        if !flags[v] {
            return Some(v);
        }
        v = v + 1;
    }
    None
}

} // verus!

verus! {

/// Scans the codimension-one simplices: rejects the first without one or two
/// top cofaces, and otherwise marks those with one coface and returns the
/// first of them.
fn mark_codimension_one<'a>(owner: &'a ComplexCore, builder: &mut PackedDegreeMasksBuilder<'a>) -> (r:
    Result<Option<usize>, RegularRejection>)
    requires
        owner.spec_dimension() >= 1,
        old(builder).spec_layout() == owner.spec_layout(),
        padding_clear(old(builder).spec_words(), old(builder).spec_counts()),
        forall|d: int, t: int|
            #![trigger old(builder).bit(d, t)]
            in_layout(old(builder).spec_counts(), d, t) ==> !old(builder).bit(d, t),
    ensures
        final(builder).spec_layout() == owner.spec_layout(),
        padding_clear(final(builder).spec_words(), final(builder).spec_counts()),
        r is Err <==> !all_incidence_regular(*owner),
        r matches Err(rejection) ==> (rejection matches RegularRejection::CodimensionOneIncidence {
            degree,
            simplex,
            cofaces,
        } && degree == owner.spec_dimension() - 1 && first_irregular(*owner, simplex as int) && cofaces
            == coface_count(*owner, simplex as int)),
        r matches Ok(first) ==> match first {
            Some(x) => first_boundary_simplex(*owner, x as int),
            None => forall|x: int|
                0 <= x < codimension_one_count(*owner) ==> #[trigger] coface_count(*owner, x) != 1,
        },
        r is Ok ==> forall|d: int, t: int|
            #![trigger final(builder).bit(d, t)]
            in_layout(final(builder).spec_counts(), d, t) ==> final(builder).bit(d, t) == (d
                == owner.spec_dimension() - 1 && coface_count(*owner, t) == 1),
{
    proof {
        use_type_invariant(owner);
    }
    let ghost core = *owner;
    let dimension = owner.dimension();
    let codimension = dimension - 1;
    let boundary = match owner.boundary(dimension) {
        Ok(b) => b,
        Err(_) => {
            proof {
                assert(false);
            }
            return Ok(None);
        },
    };
    let lower = match owner.basis(codimension) {
        Ok(b) => b,
        Err(_) => {
            proof {
                assert(false);
            }
            return Ok(None);
        },
    };
    let rows = lower.row_count();
    let indptr = boundary.indptr();
    let ghost counts = builder.spec_counts();
    proof {
        lower.lemma_shape_bounds();
        assert(counts[codimension as int] == rows);
        assert(indptr@.len() == rows + 1);
    }
    let mut first: Option<usize> = None;
    let mut x: usize = 0;
    while x < rows
        invariant
            core == *owner,
            core.core_inv(),
            dimension == core.spec_dimension(),
            codimension + 1 == dimension,
            rows == codimension_one_count(core),
            counts == builder.spec_counts(),
            counts == core.spec_layout().spec_counts(),
            counts[codimension as int] == rows,
            builder.spec_layout() == core.spec_layout(),
            indptr@ == core.spec_boundaries()[dimension as int].spec_storage().spec_indptr(),
            row_pointers_of(indptr@, rows as int),
            padding_clear(builder.spec_words(), builder.spec_counts()),
            x <= rows,
            forall|y: int| 0 <= y < x ==> #[trigger] incidence_regular(core, y),
            match first {
                Some(f) => first_boundary_simplex(core, f as int) && f < x,
                None => forall|y: int| 0 <= y < x ==> #[trigger] coface_count(core, y) != 1,
            },
            forall|d: int, t: int|
                #![trigger builder.bit(d, t)]
                in_layout(counts, d, t) ==> builder.bit(d, t) == (d == codimension && t < x
                    && coface_count(core, t) == 1),
        decreases rows - x,
    {
        proof {
            assert(indptr@[x as int] <= indptr@[x + 1]);
        }
        let cofaces = indptr[x + 1] - indptr[x];
        proof {
            assert(cofaces == coface_count(core, x as int));
        }
        if cofaces < 1 || cofaces > 2 {
            proof {
                assert(!incidence_regular(core, x as int));
            }
            return Err(
                RegularRejection::CodimensionOneIncidence { degree: codimension, simplex: x, cofaces },
            );
        }
        if cofaces == 1 {
            if first.is_none() {
                first = Some(x);
            }
            let marked = builder.set(codimension, x, true);
            proof {
                assert(marked is Ok);
            }
        }
        x = x + 1;
    }
    Ok(first)
}

} // verus!

verus! {

/// Marks every face of a boundary simplex of degree `degree`.
fn propagate_boundary<'a>(owner: &'a ComplexCore, builder: &mut PackedDegreeMasksBuilder<'a>, degree: usize)
    requires
        1 <= degree,
        degree + 1 <= owner.spec_dimension(),
        old(builder).spec_layout() == owner.spec_layout(),
        padding_clear(old(builder).spec_words(), old(builder).spec_counts()),
        forall|d: int, t: int|
            #![trigger old(builder).bit(d, t)]
            in_layout(old(builder).spec_counts(), d, t) ==> old(builder).bit(d, t) == (d >= degree
                && on_boundary(*owner, d, t)),
    ensures
        final(builder).spec_layout() == owner.spec_layout(),
        padding_clear(final(builder).spec_words(), final(builder).spec_counts()),
        forall|d: int, t: int|
            #![trigger final(builder).bit(d, t)]
            in_layout(final(builder).spec_counts(), d, t) ==> final(builder).bit(d, t) == (d >= degree
                - 1 && on_boundary(*owner, d, t)),
{
    proof {
        use_type_invariant(owner);
    }
    let ghost core = *owner;
    let ghost counts = builder.spec_counts();
    let faces = match owner.immediate_faces(degree) {
        Ok(f) => f,
        Err(_) => {
            proof {
                assert(false);
            }
            return;
        },
    };
    let dimension = owner.dimension();
    let width = degree + 1;
    let ghost upper = core.spec_bases()[degree as int];
    let ghost lower = core.spec_bases()[degree - 1];
    proof {
        assert(boundary_built(
            core.spec_boundaries()[degree as int],
            faces@,
            upper.rows(),
            lower.rows(),
            core.spec_orientations()[degree as int],
            degree as int,
        ));
        upper.lemma_shape_bounds();
        lower.lemma_shape_bounds();
        assert(counts[degree as int] == upper.spec_row_count());
        assert(counts[degree - 1] == lower.spec_row_count());
    }
    let mut q: usize = 0;
    while q < faces.len()
        invariant
            core == *owner,
            core.core_inv(),
            1 <= degree,
            degree + 1 <= core.spec_dimension(),
            width == degree + 1,
            faces@ == core.spec_immediate_faces()[degree as int],
            faces@.len() == upper.rows().len() * width,
            upper == core.spec_bases()[degree as int],
            lower == core.spec_bases()[degree - 1],
            forall|p: int| 0 <= p < faces@.len() ==> #[trigger] faces@[p] < lower.rows().len(),
            counts == builder.spec_counts(),
            counts == core.spec_layout().spec_counts(),
            counts[degree as int] == upper.spec_row_count(),
            counts[degree - 1] == lower.spec_row_count(),
            upper.rows().len() == upper.spec_row_count(),
            lower.rows().len() == lower.spec_row_count(),
            builder.spec_layout() == core.spec_layout(),
            padding_clear(builder.spec_words(), builder.spec_counts()),
            q <= faces@.len(),
            forall|d: int, t: int|
                #![trigger builder.bit(d, t)]
                in_layout(counts, d, t) ==> builder.bit(d, t) == if d >= degree {
                    on_boundary(core, d, t)
                } else if d == degree - 1 {
                    marked_by(core, d, q as int, t)
                } else {
                    false
                },
        decreases faces@.len() - q,
    {
        let simplex = q / width;
        proof {
            assert(simplex < upper.rows().len()) by (nonlinear_arith)
                requires
                    simplex == q as int / width as int,
                    0 <= q < upper.rows().len() * width,
                    width >= 1,
            ;
        }
        let selected = match builder.contains(degree, simplex) {
            Ok(b) => b,
            Err(_) => {
                proof {
                    assert(false);
                }
                false
            },
        };
        let ghost before = *builder;
        if selected {
            let face = faces[q];
            let marked = builder.set(degree - 1, face, true);
            proof {
                assert(marked is Ok);
            }
        }
        proof {
            assert forall|d: int, t: int|
                #![trigger builder.bit(d, t)]
                in_layout(counts, d, t) implies builder.bit(d, t) == if d >= degree {
                    on_boundary(core, d, t)
                } else if d == degree - 1 {
                    marked_by(core, d, q + 1, t)
                } else {
                    false
                } by {
                if d == degree - 1 {
                    let fs = core.spec_immediate_faces()[degree as int];
                    assert(before.bit(d, t) == marked_by(core, d, q as int, t));
                    if marked_by(core, d, q as int, t) {
                        let p = choose|p: int|
                            #![trigger fs[p]]
                            0 <= p < q && fs[p] == t && on_boundary(core, degree as int, p / (d + 2));
                        assert(fs[p] == t);
                    }
                    if selected && faces@[q as int] == t {
                        assert(fs[q as int] == t);
                    }
                    if marked_by(core, d, q + 1, t) && !marked_by(core, d, q as int, t) {
                        let p = choose|p: int|
                            #![trigger fs[p]]
                            0 <= p < q + 1 && fs[p] == t && on_boundary(core, degree as int, p / (d + 2));
                        assert(p == q);
                    }
                }
            }
        }
        q = q + 1;
    }
    proof {
        assert forall|d: int, t: int|
            #![trigger builder.bit(d, t)]
            in_layout(counts, d, t) implies builder.bit(d, t) == (d >= degree - 1 && on_boundary(
                core,
                d,
                t,
            )) by {
            if d == degree - 1 {
                assert(marked_by(core, d, q as int, t) == on_boundary(core, d, t));
            }
        }
    }
}

} // verus!

verus! {

/// The canonical regularity verdict of an admitted owner, computed from its
/// retained bases, boundaries and immediate faces.
pub fn compute_regular(owner: &ComplexCore) -> (r: Result<
    DomainVerdict<RegularEvidence, RegularRejection>,
    TopologyError,
>)
    ensures
        r matches Ok(verdict) && regular_verdict(*owner, verdict),
{
    proof {
        use_type_invariant(owner);
    }
    let ghost core = *owner;
    let layout = owner.layout();
    let mut builder = match PackedDegreeMasksBuilder::empty(layout) {
        Ok(b) => b,
        Err(e) => return Err(e),
    };
    let ghost counts = builder.spec_counts();
    let dimension = owner.dimension();
    if dimension == 0 {
        let boundary = builder.finish();
        let evidence = RegularEvidence { boundary, kind: BoundaryKind::Empty };
        proof {
            assert forall|d: int, t: int|
                #![trigger mask_bit(boundary.spec_words(), counts, d, t)]
                in_layout(counts, d, t) implies mask_bit(boundary.spec_words(), counts, d, t)
                == on_boundary(core, d, t) by {
                assert(!builder.bit(d, t));
            }
        }
        return Ok(DomainVerdict::Admitted(evidence));
    }
    let used = vertex_usage(owner);
    match first_clear(&used) {
        Some(vertex) => {
            proof {
                assert(!vertex_used(core, vertex as int));
                assert forall|u: int| 0 <= u < vertex implies #[trigger] vertex_used(core, u) by {
                    assert(used@[u]);
                }
            }
            return Ok(DomainVerdict::Rejected(RegularRejection::NotPure { vertex }));
        },
        None => {
            proof {
                assert forall|u: int| 0 <= u < core.spec_vertex_count() implies #[trigger] vertex_used(
                    core,
                    u,
                ) by {
                    assert(used@[u]);
                }
            }
        },
    }
    let first = match mark_codimension_one(owner, &mut builder) {
        Ok(f) => f,
        Err(rejection) => {
            return Ok(DomainVerdict::Rejected(rejection));
        },
    };
    let mut degree = dimension - 1;
    while degree >= 1
        invariant
            core == *owner,
            core.core_inv(),
            dimension == core.spec_dimension(),
            dimension >= 1,
            degree + 1 <= dimension,
            counts == builder.spec_counts(),
            counts == core.spec_layout().spec_counts(),
            builder.spec_layout() == core.spec_layout(),
            padding_clear(builder.spec_words(), builder.spec_counts()),
            forall|d: int, t: int|
                #![trigger builder.bit(d, t)]
                in_layout(counts, d, t) ==> builder.bit(d, t) == (d >= degree && on_boundary(core, d, t)),
        decreases degree,
    {
        propagate_boundary(owner, &mut builder, degree);
        degree = degree - 1;
    }
    let kind = match first {
        Some(x) => BoundaryKind::NonEmpty { first_codimension_one_simplex: x },
        None => BoundaryKind::Empty,
    };
    let boundary = builder.finish();
    let evidence = RegularEvidence { boundary, kind };
    proof {
        assert forall|d: int, t: int|
            #![trigger mask_bit(boundary.spec_words(), counts, d, t)]
            in_layout(counts, d, t) implies mask_bit(boundary.spec_words(), counts, d, t) == on_boundary(
                core,
                d,
                t,
            ) by {
            assert(builder.bit(d, t) == (d >= degree && on_boundary(core, d, t)));
        }
    }
    Ok(DomainVerdict::Admitted(evidence))
}

} // verus!

verus! {

/// Counterexample to coherent orientation.
#[derive(Debug, Clone, Copy, PartialEq, Eq, Structural)]
pub struct OrientationRejection {
    pub codimension_one_simplex: usize,
}

/// The signed coefficients of row `x` of the top boundary.
pub open spec fn coface_signs(core: ComplexCore, x: int) -> Seq<i8> {
    let m = core.spec_boundaries()[core.spec_dimension() as int].spec_storage();
    m.spec_values().subrange(m.spec_indptr()[x] as int, m.spec_indptr()[x + 1] as int)
}

/// Whether the top cofaces of codimension-one simplex `x` induce opposite
/// orientations on it: at most two cofaces, and two only with opposite signs.
pub open spec fn orientation_coherent(core: ComplexCore, x: int) -> bool {
    let signs = coface_signs(core, x);
    &&& signs.len() <= 2
    &&& signs.len() == 2 ==> signs[0] + signs[1] == 0
}

/// The canonical orientation verdict of `core`: admitted in dimension zero
/// or when every codimension-one simplex is coherent, else rejected at the
/// first incoherent one.
pub open spec fn oriented_verdict(core: ComplexCore, verdict: DomainVerdict<(), OrientationRejection>) -> bool {
    if core.spec_dimension() == 0 || forall|x: int|
        0 <= x < codimension_one_count(core) ==> #[trigger] orientation_coherent(core, x) {
        verdict is Admitted
    } else {
        verdict matches DomainVerdict::Rejected(rejection) && {
            let x = rejection.codimension_one_simplex as int;
            &&& 0 <= x < codimension_one_count(core)
            &&& !orientation_coherent(core, x)
            &&& forall|y: int| 0 <= y < x ==> #[trigger] orientation_coherent(core, y)
        }
    }
}

/// The refusal owed by a complex without a coherent orientation: its first
/// codimension-one simplex whose coface signs disagree.
pub open spec fn orientation_failure(core: ComplexCore, e: TopologyError) -> bool {
    e matches TopologyError::Orientation(x) && {
        &&& 0 <= x < codimension_one_count(core)
        &&& !orientation_coherent(core, x as int)
        &&& forall|y: int| 0 <= y < x ==> #[trigger] orientation_coherent(core, y)
    }
}

/// The canonical orientation verdict of an admitted owner.
pub fn compute_oriented(owner: &ComplexCore) -> (r: DomainVerdict<(), OrientationRejection>)
    ensures
        oriented_verdict(*owner, r),
{
    proof {
        use_type_invariant(owner);
    }
    let ghost core = *owner;
    let dimension = owner.dimension();
    if dimension == 0 {
        return DomainVerdict::Admitted(());
    }
    let boundary = match owner.boundary(dimension) {
        Ok(b) => b,
        Err(_) => {
            proof {
                assert(false);
            }
            return DomainVerdict::Admitted(());
        },
    };
    let lower = match owner.basis(dimension - 1) {
        Ok(b) => b,
        Err(_) => {
            proof {
                assert(false);
            }
            return DomainVerdict::Admitted(());
        },
    };
    let rows = lower.row_count();
    let indptr = boundary.indptr();
    let data = boundary.data();
    proof {
        lower.lemma_shape_bounds();
        assert(indptr@.len() == rows + 1);
    }
    let mut x: usize = 0;
    while x < rows
        invariant
            core == *owner,
            core.core_inv(),
            dimension == core.spec_dimension(),
            dimension >= 1,
            rows == codimension_one_count(core),
            indptr@ == core.spec_boundaries()[dimension as int].spec_storage().spec_indptr(),
            data@ == core.spec_boundaries()[dimension as int].spec_storage().spec_values(),
            row_pointers_of(indptr@, rows as int),
            indptr@[rows as int] == data@.len(),
            x <= rows,
            forall|y: int| 0 <= y < x ==> #[trigger] orientation_coherent(core, y),
        decreases rows - x,
    {
        let start = indptr[x];
        let end = indptr[x + 1];
        proof {
            assert(start <= end <= indptr@[rows as int]);
        }
        let length = end - start;
        let coherent = if length > 2 {
            false
        } else if length == 2 {
            (data[start] as i16) + (data[start + 1] as i16) == 0
        } else {
            true
        };
        proof {
            let signs = coface_signs(core, x as int);
            assert(signs.len() == length);
            if length == 2 {
                assert(signs[0] == data@[start as int] && signs[1] == data@[start + 1]);
            }
            assert(coherent == orientation_coherent(core, x as int));
        }
        if !coherent {
            return DomainVerdict::Rejected(OrientationRejection { codimension_one_simplex: x });
        }
        x = x + 1;
    }
    DomainVerdict::Admitted(())
}

} // verus!

verus! {

/// Counterexample to one-skeleton connectivity.
#[derive(Debug, Clone, Copy, PartialEq, Eq, Structural)]
pub struct ConnectivityRejection {
    pub unreachable_vertex: usize,
}

/// Number of edges of an owner of positive dimension.
pub open spec fn edge_count(core: ComplexCore) -> int {
    core.spec_bases()[1].spec_row_count()
}

/// Endpoint `k` (`0` or `1`) of edge `e`, as a vertex.
pub open spec fn edge_end(core: ComplexCore, e: int, k: int) -> int {
    core.spec_immediate_faces()[1][2 * e + k] as int
}

/// Whether every edge has both or neither of its endpoints in `reached`.
pub open spec fn edge_closed(core: ComplexCore, reached: Set<int>) -> bool {
    forall|e: int|
        0 <= e < edge_count(core) ==> (reached.contains(#[trigger] edge_end(core, e, 0)) <==> reached.contains(
            edge_end(core, e, 1),
        ))
}

/// Whether vertex `v` is reachable from vertex `0` along edges: it lies in
/// every edge-closed vertex set that holds vertex `0`.
pub open spec fn reachable(core: ComplexCore, v: int) -> bool {
    forall|reached: Set<int>| #[trigger] edge_closed(core, reached) && reached.contains(0) ==> reached.contains(v)
}

/// The canonical connectivity verdict of `core`.
pub open spec fn connected_verdict(core: ComplexCore, verdict: DomainVerdict<(), ConnectivityRejection>) -> bool {
    if core.spec_dimension() == 0 {
        if core.spec_vertex_count() == 1 {
            verdict is Admitted
        } else {
            verdict matches DomainVerdict::Rejected(rejection) && rejection.unreachable_vertex == 1
        }
    } else if forall|v: int| 0 <= v < core.spec_vertex_count() ==> #[trigger] reachable(core, v) {
        verdict is Admitted
    } else {
        verdict matches DomainVerdict::Rejected(rejection) && {
            let v = rejection.unreachable_vertex as int;
            &&& 0 <= v < core.spec_vertex_count()
            &&& !reachable(core, v)
            &&& forall|u: int| 0 <= u < v ==> #[trigger] reachable(core, u)
        }
    }
}

/// The refusal owed by a disconnected complex: vertex `1` of a
/// zero-dimensional complex, else the first vertex that vertex `0` does not
/// reach.
pub open spec fn connected_failure(core: ComplexCore, e: TopologyError) -> bool {
    e matches TopologyError::Disconnected(v) && if core.spec_dimension() == 0 {
        v == 1
    } else {
        &&& 0 <= v < core.spec_vertex_count()
        &&& !reachable(core, v as int)
        &&& forall|u: int| 0 <= u < v ==> #[trigger] reachable(core, u)
    }
}

/// The edges listed in row `u` of the vertex-edge boundary are exactly the
/// edges with `u` as an endpoint.
proof fn lemma_vertex_row(core: ComplexCore, u: int)
    requires
        core.core_inv(),
        core.spec_dimension() >= 1,
        0 <= u < core.spec_vertex_count(),
    ensures
        ({
            let m = core.spec_boundaries()[1].spec_storage();
            let lo = m.spec_indptr()[u] as int;
            let hi = m.spec_indptr()[u + 1] as int;
            &&& 0 <= lo <= hi <= m.spec_indices().len()
            &&& forall|p: int|
                lo <= p < hi ==> #[trigger] m.spec_indices()[p] < edge_count(core) && (edge_end(
                    core,
                    m.spec_indices()[p] as int,
                    0,
                ) == u || edge_end(core, m.spec_indices()[p] as int, 1) == u)
            &&& forall|e: int|
                0 <= e < edge_count(core) && (edge_end(core, e, 0) == u || edge_end(core, e, 1) == u)
                    ==> exists|p: int| lo <= p < hi && #[trigger] m.spec_indices()[p] == e
        }),
{
    let m = core.spec_boundaries()[1].spec_storage();
    let faces = core.spec_immediate_faces()[1];
    let upper = core.spec_bases()[1];
    let lower = core.spec_bases()[0];
    assert(boundary_built(
        core.spec_boundaries()[1],
        faces,
        upper.rows(),
        lower.rows(),
        core.spec_orientations()[1],
        1,
    ));
    upper.lemma_shape_bounds();
    lower.lemma_shape_bounds();
    assert(lower.rows().len() == core.spec_vertex_count());
    let lo = m.spec_indptr()[u] as int;
    let hi = m.spec_indptr()[u + 1] as int;
    let b = bucket(faces, faces.len() as int, u);
    lemma_bucket_members(faces, faces.len() as int, u);
    assert(m.spec_indices().subrange(lo, hi) == incidence_columns(b, 2));
    assert forall|p: int| lo <= p < hi implies #[trigger] m.spec_indices()[p] < edge_count(core) && (
    edge_end(core, m.spec_indices()[p] as int, 0) == u || edge_end(core, m.spec_indices()[p] as int, 1)
        == u) by {
        let k = p - lo;
        assert(m.spec_indices()[p] == m.spec_indices().subrange(lo, hi)[k]);
        let q = b[k] as int;
        assert(faces[q] == u && q < faces.len());
        let e = q / 2;
        assert(m.spec_indices()[p] == e);
        assert(q == 2 * e + q % 2);
    }
    assert forall|e: int|
        0 <= e < edge_count(core) && (edge_end(core, e, 0) == u || edge_end(core, e, 1) == u) implies exists|
        p: int,
    | lo <= p < hi && #[trigger] m.spec_indices()[p] == e by {
        let q: int = if edge_end(core, e, 0) == u {
            2 * e
        } else {
            2 * e + 1
        };
        assert(faces[q] == u);
        assert(b.contains(q as usize));
        let k = choose|k: int| 0 <= k < b.len() && b[k] == q as usize;
        assert(m.spec_indices().subrange(lo, hi)[k] == q / 2);
        assert(m.spec_indices()[lo + k] == e);
    }
}

} // verus!

verus! {

/// Number of clear flags.
pub open spec fn clear_count(flags: Seq<bool>) -> nat
    decreases flags.len(),
{
    if flags.len() == 0 {
        0
    } else {
        clear_count(flags.drop_last()) + if flags.last() {
            0nat
        } else {
            1nat
        }
    }
}

proof fn lemma_clear_count_set(flags: Seq<bool>, i: int)
    requires
        0 <= i < flags.len(),
        !flags[i],
    ensures
        clear_count(flags.update(i, true)) + 1 == clear_count(flags),
    decreases flags.len(),
{
    let updated = flags.update(i, true);
    if i == flags.len() - 1 {
        assert(updated.drop_last() == flags.drop_last());
    } else {
        assert(updated.drop_last() == flags.drop_last().update(i, true));
        lemma_clear_count_set(flags.drop_last(), i);
    }
}

/// Whether both endpoints of edge `e` are reached or pending.
pub open spec fn edge_handled(core: ComplexCore, seen: Seq<bool>, pending: Seq<usize>, e: int) -> bool {
    &&& (seen[edge_end(core, e, 0)] || pending.contains(edge_end(core, e, 0) as usize))
    &&& (seen[edge_end(core, e, 1)] || pending.contains(edge_end(core, e, 1) as usize))
}

/// Whether every edge at a reached vertex other than `skip` is handled.
pub open spec fn search_complete(core: ComplexCore, seen: Seq<bool>, pending: Seq<usize>, skip: int) -> bool {
    forall|u: int, e: int|
        #![trigger seen[u], edge_end(core, e, 0)]
        0 <= u < seen.len() && u != skip && 0 <= e < edge_count(core) && seen[u] && (edge_end(core, e, 0) == u
            || edge_end(core, e, 1) == u) ==> edge_handled(core, seen, pending, e)
}

/// Facts of a search state that its steps keep.
pub open spec fn search_bounds(core: ComplexCore, seen: Seq<bool>, pending: Seq<usize>) -> bool {
    &&& seen.len() == core.spec_vertex_count()
    &&& forall|i: int| 0 <= i < pending.len() ==> #[trigger] pending[i] < seen.len()
    &&& forall|e: int, k: int|
        0 <= e < edge_count(core) && 0 <= k < 2 ==> 0 <= #[trigger] edge_end(core, e, k) < seen.len()
}

proof fn lemma_pending_pop(core: ComplexCore, seen: Seq<bool>, popped: Seq<usize>)
    requires
        popped.len() > 0,
        search_bounds(core, seen, popped),
        seen[popped.last() as int],
        search_sound(core, seen, popped),
        search_complete(core, seen, popped, -1),
        seen[0] || popped.contains(0),
    ensures
        search_bounds(core, seen, popped.drop_last()),
        search_sound(core, seen, popped.drop_last()),
        search_complete(core, seen, popped.drop_last(), -1),
        seen[0] || popped.drop_last().contains(0),
{
    let rest = popped.drop_last();
    assert forall|w: usize| popped.contains(w) && !seen[w as int] implies rest.contains(w) by {
        let i = choose|i: int| 0 <= i < popped.len() && popped[i] == w;
        assert(rest[i] == w);
    }
    assert forall|reached: Set<int>|
        #[trigger] edge_closed(core, reached) && reached.contains(0) implies (forall|u: int|
        0 <= u < seen.len() && #[trigger] seen[u] ==> reached.contains(u)) && (forall|i: int|
        0 <= i < rest.len() ==> reached.contains(#[trigger] rest[i] as int)) by {
        assert forall|i: int| 0 <= i < rest.len() implies reached.contains(#[trigger] rest[i] as int) by {
            assert(rest[i] == popped[i]);
        }
    }
    assert forall|u: int, e: int|
        #![trigger seen[u], edge_end(core, e, 0)]
        0 <= u < seen.len() && 0 <= e < edge_count(core) && seen[u] && (edge_end(core, e, 0) == u
            || edge_end(core, e, 1) == u) implies edge_handled(core, seen, rest, e) by {
        assert(edge_handled(core, seen, popped, e));
    }
}

proof fn lemma_mark_popped(core: ComplexCore, before: Seq<bool>, popped: Seq<usize>)
    requires
        popped.len() > 0,
        search_bounds(core, before, popped),
        !before[popped.last() as int],
        search_sound(core, before, popped),
        search_complete(core, before, popped, -1),
        before[0] || popped.contains(0),
    ensures
        search_bounds(core, before.update(popped.last() as int, true), popped.drop_last()),
        search_sound(core, before.update(popped.last() as int, true), popped.drop_last()),
        search_complete(
            core,
            before.update(popped.last() as int, true),
            popped.drop_last(),
            popped.last() as int,
        ),
        before.update(popped.last() as int, true)[0] || popped.drop_last().contains(0),
{
    let vertex = popped.last() as int;
    let seen = before.update(vertex, true);
    let rest = popped.drop_last();
    assert forall|w: usize| popped.contains(w) && w != vertex implies rest.contains(w) by {
        let i = choose|i: int| 0 <= i < popped.len() && popped[i] == w;
        assert(rest[i] == w);
    }
    assert forall|reached: Set<int>|
        #[trigger] edge_closed(core, reached) && reached.contains(0) implies (forall|u: int|
        0 <= u < seen.len() && #[trigger] seen[u] ==> reached.contains(u)) && (forall|i: int|
        0 <= i < rest.len() ==> reached.contains(#[trigger] rest[i] as int)) by {
        assert(reached.contains(popped[popped.len() - 1] as int));
        assert forall|u: int| 0 <= u < seen.len() && #[trigger] seen[u] implies reached.contains(u) by {
            if u != vertex {
                assert(before[u]);
            }
        }
        assert forall|i: int| 0 <= i < rest.len() implies reached.contains(#[trigger] rest[i] as int) by {
            assert(rest[i] == popped[i]);
        }
    }
    assert forall|u: int, e: int|
        #![trigger seen[u], edge_end(core, e, 0)]
        0 <= u < seen.len() && u != vertex && 0 <= e < edge_count(core) && seen[u] && (edge_end(core, e, 0)
            == u || edge_end(core, e, 1) == u) implies edge_handled(core, seen, rest, e) by {
        assert(before[u]);
        assert(edge_handled(core, before, popped, e));
    }
}

proof fn lemma_push_endpoints(
    core: ComplexCore,
    seen: Seq<bool>,
    previous: Seq<usize>,
    pending: Seq<usize>,
    edge: int,
    vertex: int,
    lo: int,
    p: int,
    indices: Seq<usize>,
)
    requires
        0 <= edge < edge_count(core),
        0 <= vertex < seen.len(),
        seen[vertex],
        edge_end(core, edge, 0) == vertex || edge_end(core, edge, 1) == vertex,
        search_bounds(core, seen, previous),
        search_sound(core, seen, previous),
        search_complete(core, seen, previous, vertex),
        seen[0] || previous.contains(0),
        previous.len() <= pending.len() <= previous.len() + 2,
        pending.subrange(0, previous.len() as int) == previous,
        forall|i: int|
            previous.len() <= i < pending.len() ==> #[trigger] pending[i] == edge_end(core, edge, 0)
                || pending[i] == edge_end(core, edge, 1),
        seen[edge_end(core, edge, 0)] || pending.contains(edge_end(core, edge, 0) as usize),
        seen[edge_end(core, edge, 1)] || pending.contains(edge_end(core, edge, 1) as usize),
        lo <= p,
        indices[p] == edge,
        forall|q: int| lo <= q < p ==> edge_handled(core, seen, previous, #[trigger] indices[q] as int),
    ensures
        search_bounds(core, seen, pending),
        search_sound(core, seen, pending),
        search_complete(core, seen, pending, vertex),
        seen[0] || pending.contains(0),
        forall|q: int| lo <= q < p + 1 ==> edge_handled(core, seen, pending, #[trigger] indices[q] as int),
{
    assert forall|w: usize| previous.contains(w) implies pending.contains(w) by {
        let i = choose|i: int| 0 <= i < previous.len() && previous[i] == w;
        assert(pending.subrange(0, previous.len() as int)[i] == w);
    }
    assert forall|i: int| 0 <= i < pending.len() implies #[trigger] pending[i] < seen.len() by {
        if i < previous.len() {
            assert(pending.subrange(0, previous.len() as int)[i] == previous[i]);
        }
    }
    assert forall|reached: Set<int>|
        #[trigger] edge_closed(core, reached) && reached.contains(0) implies (forall|u: int|
        0 <= u < seen.len() && #[trigger] seen[u] ==> reached.contains(u)) && (forall|i: int|
        0 <= i < pending.len() ==> reached.contains(#[trigger] pending[i] as int)) by {
        assert(reached.contains(vertex));
        assert(reached.contains(edge_end(core, edge, 0)) && reached.contains(edge_end(core, edge, 1)));
        assert forall|i: int| 0 <= i < pending.len() implies reached.contains(#[trigger] pending[i] as int) by {
            if i < previous.len() {
                assert(pending.subrange(0, previous.len() as int)[i] == previous[i]);
            }
        }
    }
    assert forall|u: int, e: int|
        #![trigger seen[u], edge_end(core, e, 0)]
        0 <= u < seen.len() && u != vertex && 0 <= e < edge_count(core) && seen[u] && (edge_end(core, e, 0)
            == u || edge_end(core, e, 1) == u) implies edge_handled(core, seen, pending, e) by {
        assert(edge_handled(core, seen, previous, e));
    }
    assert forall|q: int| lo <= q < p + 1 implies edge_handled(core, seen, pending, #[trigger] indices[q] as int) by {
        if q < p {
            assert(edge_handled(core, seen, previous, indices[q] as int));
        }
    }
}

/// Whether the reached and pending vertices lie in every edge-closed set
/// that holds vertex `0`.
pub open spec fn search_sound(core: ComplexCore, seen: Seq<bool>, pending: Seq<usize>) -> bool {
    forall|reached: Set<int>|
        #[trigger] edge_closed(core, reached) && reached.contains(0) ==> (forall|u: int|
            0 <= u < seen.len() && #[trigger] seen[u] ==> reached.contains(u)) && (forall|i: int|
            0 <= i < pending.len() ==> reached.contains(#[trigger] pending[i] as int))
}

/// The canonical connectivity verdict of an admitted owner, by a
/// depth-first search of the one-skeleton from vertex `0`.
pub fn compute_connected(owner: &ComplexCore) -> (r: Result<
    DomainVerdict<(), ConnectivityRejection>,
    TopologyError,
>)
    ensures
        r matches Ok(verdict) && connected_verdict(*owner, verdict),
{
    proof {
        use_type_invariant(owner);
    }
    let ghost core = *owner;
    let dimension = owner.dimension();
    let vertex_count = owner.vertex_count();
    if dimension == 0 {
        if vertex_count == 1 {
            return Ok(DomainVerdict::Admitted(()));
        } else {
            return Ok(DomainVerdict::Rejected(ConnectivityRejection { unreachable_vertex: 1 }));
        }
    }
    if vertex_count == 0 {
        return Ok(DomainVerdict::Admitted(()));
    }
    let faces = match owner.immediate_faces(1) {
        Ok(f) => f,
        Err(e) => return Err(e),
    };
    let boundary = match owner.boundary(1) {
        Ok(b) => b,
        Err(e) => return Err(e),
    };
    let indptr = boundary.indptr();
    let indices = boundary.indices();
    let ghost m = core.spec_boundaries()[1].spec_storage();
    let ghost edges = edge_count(core);
    proof {
        let upper = core.spec_bases()[1];
        let lower = core.spec_bases()[0];
        assert(boundary_built(
            core.spec_boundaries()[1],
            faces@,
            upper.rows(),
            lower.rows(),
            core.spec_orientations()[1],
            1,
        ));
        upper.lemma_shape_bounds();
        lower.lemma_shape_bounds();
        assert(lower.rows().len() == vertex_count);
        assert(faces@.len() == edges * 2);
        assert forall|e: int, k: int| 0 <= e < edges && 0 <= k < 2 implies 0 <= #[trigger] edge_end(
            core,
            e,
            k,
        ) < vertex_count by {
            assert(faces@[2 * e + k] < lower.rows().len());
        }
    }
    let mut seen: Vec<bool> = Vec::new();
    let mut v: usize = 0;
    while v < vertex_count
        invariant
            v <= vertex_count,
            seen@.len() == v,
            forall|u: int| 0 <= u < v ==> !#[trigger] seen@[u],
        decreases vertex_count - v,
    {
        seen.push(false);
        v = v + 1;
    }
    let mut pending: Vec<usize> = Vec::new();
    pending.push(0);
    proof {
        assert(pending@[0] == 0);
    }
    while pending.len() > 0
        invariant
            core == *owner,
            core.core_inv(),
            core.spec_dimension() >= 1,
            vertex_count == core.spec_vertex_count(),
            vertex_count >= 1,
            edges == edge_count(core),
            faces@ == core.spec_immediate_faces()[1],
            faces@.len() == edges * 2,
            m == core.spec_boundaries()[1].spec_storage(),
            indptr@ == m.spec_indptr(),
            indices@ == m.spec_indices(),
            forall|e: int, k: int| 0 <= e < edges && 0 <= k < 2 ==> 0 <= #[trigger] edge_end(core, e, k) < vertex_count,
            search_bounds(core, seen@, pending@),
            seen@[0] || pending@.contains(0),
            search_sound(core, seen@, pending@),
            search_complete(core, seen@, pending@, -1),
        decreases clear_count(seen@), pending@.len(),
    {
        let ghost popped = pending@;
        let vertex = pending.pop().unwrap();
        proof {
            assert(pending@ == popped.drop_last() && vertex == popped.last());
            assert(popped[popped.len() - 1] == vertex);
        }
        if seen[vertex] {
            proof {
                lemma_pending_pop(core, seen@, popped);
            }
            continue;
        }
        let ghost before = seen@;
        seen.set(vertex, true);
        proof {
            lemma_clear_count_set(before, vertex as int);
            lemma_vertex_row(core, vertex as int);
            lemma_mark_popped(core, before, popped);
        }
        let lo = indptr[vertex];
        let hi = indptr[vertex + 1];
        let mut p: usize = lo;
        while p < hi
            invariant
                core == *owner,
                core.core_inv(),
                core.spec_dimension() >= 1,
                vertex_count == core.spec_vertex_count(),
                vertex < vertex_count,
                edges == edge_count(core),
                faces@ == core.spec_immediate_faces()[1],
                faces@.len() == edges * 2,
                m == core.spec_boundaries()[1].spec_storage(),
                indptr@ == m.spec_indptr(),
                indices@ == m.spec_indices(),
                lo == indptr@[vertex as int],
                hi == indptr@[vertex + 1],
                lo <= p <= hi <= indices@.len(),
                forall|q: int|
                    lo <= q < hi ==> #[trigger] indices@[q] < edges && (edge_end(core, indices@[q] as int, 0)
                        == vertex || edge_end(core, indices@[q] as int, 1) == vertex),
                forall|e: int, k: int| 0 <= e < edges && 0 <= k < 2 ==> 0 <= #[trigger] edge_end(core, e, k) < vertex_count,
                before.len() == vertex_count,
                seen@ == before.update(vertex as int, true),
                search_bounds(core, seen@, pending@),
                seen@[0] || pending@.contains(0),
                search_sound(core, seen@, pending@),
                search_complete(core, seen@, pending@, vertex as int),
                forall|q: int| lo <= q < p ==> edge_handled(core, seen@, pending@, #[trigger] indices@[q] as int),
            decreases hi - p,
        {
            let edge = indices[p];
            let a = faces[2 * edge];
            let b = faces[2 * edge + 1];
            let ghost previous = pending@;
            if !seen[a] {
                pending.push(a);
            }
            let ghost middle = pending@;
            if !seen[b] {
                pending.push(b);
            }
            proof {
                assert(a == edge_end(core, edge as int, 0) && b == edge_end(core, edge as int, 1));
                if !seen@[a as int] {
                    assert(middle[previous.len() as int] == a);
                    assert(pending@[previous.len() as int] == a);
                }
                if !seen@[b as int] {
                    assert(pending@[middle.len() as int] == b);
                }
                assert(pending@.subrange(0, previous.len() as int) =~= previous);
                lemma_push_endpoints(core, seen@, previous, pending@, edge as int, vertex as int, lo as int, p as int, indices@);
            }
            p = p + 1;
        }
        proof {
            assert forall|e: int|
                0 <= e < edges && (edge_end(core, e, 0) == vertex || edge_end(core, e, 1) == vertex) implies edge_handled(
                core,
                seen@,
                pending@,
                e,
            ) by {
                let q = choose|q: int| lo <= q < hi && #[trigger] indices@[q] == e;
                assert(edge_handled(core, seen@, pending@, indices@[q] as int));
            }
        }
    }
    let ghost reached = Set::new(|u: int| 0 <= u < vertex_count && seen@[u]);
    proof {
        assert(seen@[0]);
        assert forall|e: int| 0 <= e < edge_count(core) implies (reached.contains(
            #[trigger] edge_end(core, e, 0),
        ) <==> reached.contains(edge_end(core, e, 1))) by {
            let a = edge_end(core, e, 0);
            let b = edge_end(core, e, 1);
            if seen@[a] {
                assert(edge_handled(core, seen@, pending@, e));
            }
            if seen@[b] {
                assert(edge_handled(core, seen@, pending@, e));
            }
        }
        assert(edge_closed(core, reached));
    }
    match first_clear(&seen) {
        Some(v) => {
            proof {
                assert(!reached.contains(v as int));
                assert(reached.contains(0));
                assert(!reachable(core, v as int));
                assert forall|u: int| 0 <= u < v implies #[trigger] reachable(core, u) by {
                    assert(seen@[u]);
                }
            }
            Ok(DomainVerdict::Rejected(ConnectivityRejection { unreachable_vertex: v }))
        },
        None => {
            proof {
                assert forall|u: int| 0 <= u < vertex_count implies #[trigger] reachable(core, u) by {
                    assert(seen@[u]);
                }
            }
            Ok(DomainVerdict::Admitted(()))
        },
    }
}

} // verus!

verus! {

/// Counterexample to a disk: the number of boundary components, or the
/// Euler characteristic.
#[derive(Debug, Clone, Copy, PartialEq, Eq, Structural)]
pub enum DiskRejection {
    BoundaryComponents(usize),
    EulerCharacteristic(i128),
}

impl DiskRejection {
    /// The classification of the rejection.
    pub fn error(self) -> (r: TopologyError)
        ensures
            self matches DiskRejection::BoundaryComponents(c) ==> r == TopologyError::DiskBoundaryComponents(c),
            self matches DiskRejection::EulerCharacteristic(x) ==> r == TopologyError::DiskEulerCharacteristic(x),
    {
        match self {
            DiskRejection::BoundaryComponents(c) => TopologyError::DiskBoundaryComponents(c),
            DiskRejection::EulerCharacteristic(x) => TopologyError::DiskEulerCharacteristic(x),
        }
    }
}

/// The endpoints of the boundary edges among the first `k` edges, in edge
/// order.
pub open spec fn boundary_pairs(core: ComplexCore, k: int) -> Seq<(int, int)>
    decreases k,
{
    if k <= 0 {
        Seq::empty()
    } else {
        let rest = boundary_pairs(core, k - 1);
        let row = core.spec_bases()[1].rows()[k - 1];
        if on_boundary(core, 1, k - 1) {
            rest.push((row[0] as int, row[1] as int))
        } else {
            rest
        }
    }
}

/// Whether vertex `v` is an endpoint of one of `pairs`.
pub open spec fn paired(pairs: Seq<(int, int)>, v: int) -> bool {
    exists|i: int| 0 <= i < pairs.len() && (#[trigger] pairs[i].0 == v || pairs[i].1 == v)
}

/// Whether `rep` labels each of `0..n` with a representative of its class in
/// the finest partition that puts the two ends of every pair together.
pub open spec fn finest_classes(rep: Seq<int>, pairs: Seq<(int, int)>, n: int) -> bool {
    &&& rep.len() == n
    &&& forall|v: int| 0 <= v < n ==> 0 <= #[trigger] rep[v] < n && rep[rep[v]] == rep[v]
    &&& forall|k: int| 0 <= k < pairs.len() ==> rep[#[trigger] pairs[k].0] == rep[pairs[k].1]
    &&& forall|f: spec_fn(int) -> int, u: int|
        respects(f, pairs) && 0 <= u < n ==> #[trigger] f(u) == f(rep[u])
}

/// Number of paired vertices among the first `k` that represent their class.
pub open spec fn paired_roots(rep: Seq<int>, pairs: Seq<(int, int)>, k: int) -> nat
    decreases k,
{
    if k <= 0 {
        0
    } else {
        paired_roots(rep, pairs, k - 1) + if paired(pairs, k - 1) && rep[k - 1] == k - 1 {
            1nat
        } else {
            0nat
        }
    }
}

/// The alternating sum of the first `k` basis sizes.
pub open spec fn euler_characteristic(counts: Seq<usize>, k: int) -> int
    decreases k,
{
    if k <= 0 {
        0
    } else {
        euler_characteristic(counts, k - 1) + if (k - 1) % 2 == 0 {
            counts[k - 1] as int
        } else {
            -(counts[k - 1] as int)
        }
    }
}

/// The canonical disk verdict of a triangle manifold with regularity
/// evidence: the boundary edges form one component, then the Euler
/// characteristic is one.
pub open spec fn disk_verdict(core: ComplexCore, verdict: DomainVerdict<(), DiskRejection>) -> bool {
    let n = core.spec_vertex_count() as int;
    let pairs = boundary_pairs(core, edge_count(core));
    let chi = euler_characteristic(core.spec_layout().spec_counts(), core.spec_layout().spec_counts().len() as int);
    match verdict {
        DomainVerdict::Rejected(DiskRejection::BoundaryComponents(c)) => c != 1 && exists|rep: Seq<int>|
            finest_classes(rep, pairs, n) && #[trigger] paired_roots(rep, pairs, n) == c,
        DomainVerdict::Rejected(DiskRejection::EulerCharacteristic(x)) => x == chi && chi != 1 && exists|
            rep: Seq<int>,
        | finest_classes(rep, pairs, n) && #[trigger] paired_roots(rep, pairs, n) == 1,
        DomainVerdict::Admitted(()) => chi == 1 && exists|rep: Seq<int>|
            finest_classes(rep, pairs, n) && #[trigger] paired_roots(rep, pairs, n) == 1,
    }
}

} // verus!

verus! {

proof fn lemma_euler_bound(counts: Seq<usize>, k: int)
    requires
        0 <= k <= counts.len(),
    ensures
        -64 * words_before(counts, k) <= euler_characteristic(counts, k) <= 64 * words_before(counts, k),
    decreases k,
{
    if k > 0 {
        lemma_euler_bound(counts, k - 1);
        let c = counts[k - 1] as int;
        assert(c <= 64 * word_count(c));
    }
}

proof fn lemma_paired_push(pairs: Seq<(int, int)>, pair: (int, int), v: int)
    ensures
        paired(pairs.push(pair), v) == (paired(pairs, v) || pair.0 == v || pair.1 == v),
{
    let longer = pairs.push(pair);
    if paired(pairs, v) {
        let i = choose|i: int| 0 <= i < pairs.len() && (#[trigger] pairs[i].0 == v || pairs[i].1 == v);
        assert(longer[i] == pairs[i]);
    }
    if pair.0 == v || pair.1 == v {
        assert(longer[pairs.len() as int] == pair);
    }
    if paired(longer, v) {
        let i = choose|i: int| 0 <= i < longer.len() && (#[trigger] longer[i].0 == v || longer[i].1 == v);
        if i < pairs.len() {
            assert(longer[i] == pairs[i]);
        }
    }
}

/// The canonical disk verdict of an owner of positive dimension with its
/// regularity evidence.
pub fn compute_disk(owner: &ComplexCore, evidence: &RegularEvidence) -> (r: Result<
    DomainVerdict<(), DiskRejection>,
    TopologyError,
>)
    requires
        owner.spec_dimension() >= 1,
        evidence.of(*owner),
    ensures
        r matches Ok(verdict) && disk_verdict(*owner, verdict),
{
    proof {
        use_type_invariant(owner);
    }
    let ghost core = *owner;
    let vertex_count = owner.vertex_count();
    let layout = owner.layout();
    let masks = &evidence.boundary;
    let edges = match owner.basis(1) {
        Ok(b) => b,
        Err(e) => return Err(e),
    };
    let edge_total = edges.row_count();
    let ghost counts = core.spec_layout().spec_counts();
    proof {
        edges.lemma_shape_bounds();
        assert(counts[1] == edge_total);
    }
    let mut components = DisjointSet::try_new(vertex_count);
    let mut present: Vec<bool> = Vec::new();
    let mut v: usize = 0;
    while v < vertex_count
        invariant
            v <= vertex_count,
            present@.len() == v,
            forall|u: int| 0 <= u < v ==> !#[trigger] present@[u],
        decreases vertex_count - v,
    {
        present.push(false);
        v = v + 1;
    }
    let mut e: usize = 0;
    while e < edge_total
        invariant
            core == *owner,
            core.core_inv(),
            core.spec_dimension() >= 1,
            evidence.of(core),
            *masks == evidence.spec_boundary(),
            *layout == core.spec_layout(),
            counts == core.spec_layout().spec_counts(),
            counts[1] == edge_total,
            *edges == core.spec_bases()[1],
            edge_total == edge_count(core),
            vertex_count == core.spec_vertex_count(),
            e <= edge_total,
            components.wf(),
            components.size() == vertex_count,
            components.pairs() == boundary_pairs(core, e as int),
            present@.len() == vertex_count,
            forall|u: int| 0 <= u < vertex_count ==> #[trigger] present@[u] == paired(boundary_pairs(core, e as int), u),
        decreases edge_total - e,
    {
        let on = match masks.contains(1, e, layout) {
            Ok(b) => b,
            Err(err) => return Err(err),
        };
        proof {
            assert(in_layout(counts, 1, e as int));
        }
        if on {
            let row = match edges.row(e) {
                Some(r) => r,
                None => return Err(TopologyError::InternalInvariant),
            };
            proof {
                lemma_entry_in_extent(core, 1, e as int, 0);
                lemma_entry_in_extent(core, 1, e as int, 1);
            }
            let left = row[0];
            let right = row[1];
            present.set(left, true);
            present.set(right, true);
            components.join(left, right);
            proof {
                let pairs = boundary_pairs(core, e as int);
                assert(boundary_pairs(core, e + 1) == pairs.push((left as int, right as int)));
                assert forall|u: int| 0 <= u < vertex_count implies #[trigger] present@[u] == paired(
                    boundary_pairs(core, e + 1),
                    u,
                ) by {
                    lemma_paired_push(pairs, (left as int, right as int), u);
                }
            }
        } else {
            proof {
                assert(boundary_pairs(core, e + 1) == boundary_pairs(core, e as int));
            }
        }
        e = e + 1;
    }
    let ghost pairs = boundary_pairs(core, edge_total as int);
    let mut count: usize = 0;
    let mut u: usize = 0;
    while u < vertex_count
        invariant
            u <= vertex_count,
            components.wf(),
            components.size() == vertex_count,
            components.pairs() == pairs,
            count <= u,
            present@.len() == vertex_count,
            forall|w: int| 0 <= w < vertex_count ==> #[trigger] present@[w] == paired(pairs, w),
            count == paired_roots(components.classes(), pairs, u as int),
        decreases vertex_count - u,
    {
        let ghost classes = components.classes();
        if present[u] && components.is_root(u) {
            count = count + 1;
        }
        proof {
            assert(components.classes() == classes);
        }
        u = u + 1;
    }
    let ghost rep = components.classes();
    proof {
        components.lemma_wf_facts();
        assert(finest_classes(rep, pairs, vertex_count as int));
    }
    if count != 1 {
        proof {
            assert(paired_roots(rep, pairs, vertex_count as int) == count);
        }
        return Ok(DomainVerdict::Rejected(DiskRejection::BoundaryComponents(count)));
    }
    let sizes = layout.counts();
    let offsets = layout.word_offsets();
    proof {
        assert(offsets@[sizes@.len() as int] == words_before(counts, counts.len() as int));
        lemma_euler_bound(counts, counts.len() as int);
    }
    let mut value: i128 = 0;
    let mut d: usize = 0;
    while d < sizes.len()
        invariant
            sizes@ == counts,
            d <= counts.len(),
            value == euler_characteristic(counts, d as int),
            words_before(counts, counts.len() as int) <= usize::MAX,
        decreases counts.len() - d,
    {
        proof {
            lemma_euler_bound(counts, d + 1);
            lemma_words_before_monotone(counts, d + 1, counts.len() as int);
        }
        if d % 2 == 0 {
            value = value + sizes[d] as i128;
        } else {
            value = value - sizes[d] as i128;
        }
        d = d + 1;
    }
    if value != 1 {
        proof {
            assert(paired_roots(rep, pairs, vertex_count as int) == 1);
        }
        return Ok(DomainVerdict::Rejected(DiskRejection::EulerCharacteristic(value)));
    }
    proof {
        assert(paired_roots(rep, pairs, vertex_count as int) == 1);
    }
    Ok(DomainVerdict::Admitted(()))
}

} // verus!

verus! {

/// Whether `core` passes the regularity check: dimension zero, or pure with
/// one or two top cofaces at every codimension-one simplex.
pub open spec fn regular(core: ComplexCore) -> bool {
    core.spec_dimension() == 0 || (pure(core) && all_incidence_regular(core))
}

/// Whether some codimension-one simplex has exactly one top coface.
pub open spec fn has_boundary(core: ComplexCore) -> bool {
    core.spec_dimension() >= 1 && exists|x: int|
        0 <= x < codimension_one_count(core) && #[trigger] coface_count(core, x) == 1
}

/// Whether every codimension-one simplex is coherently oriented.
pub open spec fn oriented(core: ComplexCore) -> bool {
    core.spec_dimension() == 0 || forall|x: int|
        0 <= x < codimension_one_count(core) ==> #[trigger] orientation_coherent(core, x)
}

/// Whether the one-skeleton is connected.
pub open spec fn connected(core: ComplexCore) -> bool {
    if core.spec_dimension() == 0 {
        core.spec_vertex_count() == 1
    } else {
        forall|v: int| 0 <= v < core.spec_vertex_count() ==> #[trigger] reachable(core, v)
    }
}

/// The boundary memberships of one degree, in index order.
pub open spec fn boundary_row(core: ComplexCore, degree: int) -> Seq<bool> {
    Seq::new(
        core.spec_layout().spec_counts()[degree] as nat,
        |t: int| on_boundary(core, degree, t),
    )
}

/// Borrowed proof of codimension-one regularity, with the boundary masks.
#[derive(Debug)]
pub struct RegularView<'a> {
    owner: &'a ComplexCore,
    row: RegularEvidence,
}

impl<'a> RegularView<'a> {
    #[verifier::type_invariant]
    closed spec fn view_inv(&self) -> bool {
        &&& self.row.of(*self.owner)
        &&& regular(*self.owner)
    }

    pub closed spec fn spec_owner(&self) -> ComplexCore {
        *self.owner
    }

    pub closed spec fn spec_evidence(&self) -> RegularEvidence {
        self.row
    }

    /// The owner whose regularity this view proves.
    pub fn owner(&self) -> (r: &'a ComplexCore)
        ensures
            *r == self.spec_owner(),
            regular(*r),
            self.spec_evidence().of(*r),
    {
        proof {
            use_type_invariant(self);
        }
        self.owner
    }

    /// The boundary memberships of one degree; `DegreeOutside` above the
    /// owner's dimension.
    pub fn boundary_mask(&self, degree: usize) -> (r: Result<Vec<bool>, TopologyError>)
        ensures
            degree > self.spec_owner().spec_dimension() ==> r == Err::<Vec<bool>, TopologyError>(
                TopologyError::DegreeOutside(degree),
            ),
            degree <= self.spec_owner().spec_dimension() ==> (r matches Ok(v) && v@ == boundary_row(
                self.spec_owner(),
                degree as int,
            )),
    {
        proof {
            use_type_invariant(self);
            use_type_invariant(self.owner);
        }
        let ghost core = *self.owner;
        let ghost counts = core.spec_layout().spec_counts();
        let r = self.row.boundary.export_degree(degree, self.owner.layout());
        proof {
            if degree <= core.spec_dimension() {
                let v = r->Ok_0;
                assert(v@ =~= boundary_row(core, degree as int)) by {
                    assert forall|t: int| 0 <= t < v@.len() implies v@[t] == on_boundary(
                        core,
                        degree as int,
                        t,
                    ) by {
                        assert(in_layout(counts, degree as int, t));
                    }
                }
            }
        }
        r
    }

    /// Writes the boundary memberships of one degree into `output`, whose
    /// length must be that degree's basis size (`MaskShape` otherwise).
    pub fn write_boundary_mask(&self, degree: usize, output: &mut [bool]) -> (r: Result<(), TopologyError>)
        ensures
            degree > self.spec_owner().spec_dimension() ==> r == Err::<(), TopologyError>(
                TopologyError::DegreeOutside(degree),
            ),
            degree <= self.spec_owner().spec_dimension() && old(output)@.len()
                != self.spec_owner().spec_layout().spec_counts()[degree as int] ==> r == Err::<
                (),
                TopologyError,
            >(TopologyError::MaskShape),
            degree <= self.spec_owner().spec_dimension() && old(output)@.len()
                == self.spec_owner().spec_layout().spec_counts()[degree as int] ==> r is Ok,
            r is Ok ==> final(output)@ == boundary_row(self.spec_owner(), degree as int),
            r is Err ==> final(output)@ == old(output)@,
    {
        proof {
            use_type_invariant(self);
            use_type_invariant(self.owner);
        }
        let ghost core = *self.owner;
        let ghost counts = core.spec_layout().spec_counts();
        let r = self.row.boundary.write_degree(degree, self.owner.layout(), output);
        proof {
            if r is Ok {
                assert(output@ =~= boundary_row(core, degree as int)) by {
                    assert forall|t: int| 0 <= t < output@.len() implies output@[t] == on_boundary(
                        core,
                        degree as int,
                        t,
                    ) by {
                        assert(in_layout(counts, degree as int, t));
                    }
                }
            }
        }
        r
    }

    /// The nonempty-boundary classification; `BoundaryAbsent` when no
    /// codimension-one simplex has exactly one coface.
    pub fn with_boundary(self) -> (r: Result<WithBoundaryView<'a>, TopologyError>)
        ensures
            !has_boundary(self.spec_owner()) ==> r == Err::<WithBoundaryView<'a>, TopologyError>(
                TopologyError::BoundaryAbsent,
            ),
            has_boundary(self.spec_owner()) ==> (r matches Ok(w) && w.spec_regular() == self
                && first_boundary_simplex(self.spec_owner(), w.spec_witness() as int)),
    {
        proof {
            use_type_invariant(&self);
        }
        match self.row.kind {
            BoundaryKind::Empty => Err(TopologyError::BoundaryAbsent),
            BoundaryKind::NonEmpty { first_codimension_one_simplex } => Ok(
                WithBoundaryView { regular: self, witness: first_codimension_one_simplex },
            ),
        }
    }

    /// The empty-boundary classification; `BoundaryPresent` when some
    /// codimension-one simplex has exactly one coface.
    pub fn without_boundary(self) -> (r: Result<WithoutBoundaryView<'a>, TopologyError>)
        ensures
            has_boundary(self.spec_owner()) ==> (r matches Err(TopologyError::BoundaryPresent(x))
                && first_boundary_simplex(self.spec_owner(), x as int)),
            !has_boundary(self.spec_owner()) ==> (r matches Ok(w) && w.spec_regular() == self),
    {
        proof {
            use_type_invariant(&self);
        }
        match self.row.kind {
            BoundaryKind::Empty => Ok(WithoutBoundaryView { regular: self }),
            BoundaryKind::NonEmpty { first_codimension_one_simplex } => Err(
                TopologyError::BoundaryPresent(first_codimension_one_simplex),
            ),
        }
    }

    pub(crate) fn evidence(&self) -> (r: &RegularEvidence)
        ensures
            *r == self.spec_evidence(),
            r.of(self.spec_owner()),
            regular(self.spec_owner()),
    {
        proof {
            use_type_invariant(self);
        }
        &self.row
    }
}

/// Borrowed constructive proof of a nonempty topological boundary.
#[derive(Debug)]
pub struct WithBoundaryView<'a> {
    regular: RegularView<'a>,
    witness: usize,
}

impl<'a> WithBoundaryView<'a> {
    #[verifier::type_invariant]
    closed spec fn with_inv(&self) -> bool {
        first_boundary_simplex(self.regular.spec_owner(), self.witness as int)
    }

    pub closed spec fn spec_regular(&self) -> RegularView<'a> {
        self.regular
    }

    pub closed spec fn spec_witness(&self) -> usize {
        self.witness
    }

    /// The regularity evidence this classification refines.
    pub fn regular(&self) -> (r: &RegularView<'a>)
        ensures
            *r == self.spec_regular(),
    {
        &self.regular
    }

    /// The first codimension-one simplex with exactly one top coface.
    pub fn codimension_one_simplex(&self) -> (r: usize)
        ensures
            r == self.spec_witness(),
            first_boundary_simplex(self.spec_regular().spec_owner(), r as int),
    {
        proof {
            use_type_invariant(self);
        }
        self.witness
    }
}

/// Borrowed proof of an empty topological boundary.
#[derive(Debug)]
pub struct WithoutBoundaryView<'a> {
    regular: RegularView<'a>,
}

impl<'a> WithoutBoundaryView<'a> {
    #[verifier::type_invariant]
    closed spec fn without_inv(&self) -> bool {
        !has_boundary(self.regular.spec_owner())
    }

    pub closed spec fn spec_regular(&self) -> RegularView<'a> {
        self.regular
    }

    /// The regularity evidence this classification refines.
    pub fn regular(&self) -> (r: &RegularView<'a>)
        ensures
            *r == self.spec_regular(),
            !has_boundary(r.spec_owner()),
    {
        proof {
            use_type_invariant(self);
        }
        &self.regular
    }
}

/// Borrowed proof of coherent top-dimensional orientation.
#[derive(Debug, Clone, Copy)]
pub struct OrientedView<'a> {
    owner: &'a ComplexCore,
}

impl<'a> OrientedView<'a> {
    #[verifier::type_invariant]
    closed spec fn oriented_inv(&self) -> bool {
        oriented(*self.owner)
    }

    pub closed spec fn spec_owner(&self) -> ComplexCore {
        *self.owner
    }

    /// The owner whose orientation this view proves.
    pub fn owner(&self) -> (r: &'a ComplexCore)
        ensures
            *r == self.spec_owner(),
            oriented(*r),
    {
        proof {
            use_type_invariant(self);
        }
        self.owner
    }
}

/// Borrowed proof of one-skeleton connectivity.
#[derive(Debug, Clone, Copy)]
pub struct ConnectedView<'a> {
    owner: &'a ComplexCore,
}

impl<'a> ConnectedView<'a> {
    #[verifier::type_invariant]
    closed spec fn connected_inv(&self) -> bool {
        connected(*self.owner)
    }

    pub closed spec fn spec_owner(&self) -> ComplexCore {
        *self.owner
    }

    /// The owner whose connectivity this view proves.
    pub fn owner(&self) -> (r: &'a ComplexCore)
        ensures
            *r == self.spec_owner(),
            connected(*r),
    {
        proof {
            use_type_invariant(self);
        }
        self.owner
    }
}

impl ComplexCore {
    /// Regularity of this owner, as a view with its boundary masks, or as
    /// `NotPure` or `CodimensionOneIncidence`.
    pub fn refine_regular(&self) -> (r: Result<RegularView<'_>, TopologyError>)
        ensures
            r is Ok <==> regular(*self),
            r matches Ok(view) ==> view.spec_owner() == *self,
            r matches Err(e) ==> regular_failure(*self, e),
    {
        match compute_regular(self) {
            Ok(DomainVerdict::Admitted(row)) => Ok(RegularView { owner: self, row }),
            Ok(DomainVerdict::Rejected(rejection)) => Err(rejection.error()),
            Err(e) => Err(e),
        }
    }

    /// Coherent orientation of this owner, as a view, or `Orientation`.
    pub fn refine_oriented(&self) -> (r: Result<OrientedView<'_>, TopologyError>)
        ensures
            r is Ok <==> oriented(*self),
            r matches Ok(view) ==> view.spec_owner() == *self,
            r matches Err(e) ==> orientation_failure(*self, e),
    {
        match compute_oriented(self) {
            DomainVerdict::Admitted(()) => Ok(OrientedView { owner: self }),
            DomainVerdict::Rejected(rejection) => Err(TopologyError::Orientation(rejection.codimension_one_simplex)),
        }
    }

    /// Connectivity of this owner, as a view, or `Disconnected`.
    pub fn refine_connected(&self) -> (r: Result<ConnectedView<'_>, TopologyError>)
        ensures
            r is Ok <==> connected(*self),
            r matches Ok(view) ==> view.spec_owner() == *self,
            r matches Err(e) ==> connected_failure(*self, e),
    {
        match compute_connected(self) {
            Ok(DomainVerdict::Admitted(())) => Ok(ConnectedView { owner: self }),
            Ok(DomainVerdict::Rejected(rejection)) => Err(TopologyError::Disconnected(rejection.unreachable_vertex)),
            Err(e) => Err(e),
        }
    }
}

} // verus!

verus! {

/// The edge of a triangle opposite its corner `j`.
pub open spec fn corner_opposite(tri: Seq<usize>, j: int) -> (usize, usize) {
    if j == 0 {
        (tri[1], tri[2])
    } else if j == 1 {
        (tri[0], tri[2])
    } else {
        (tri[0], tri[1])
    }
}

/// The link of vertex `v`: the opposite edge of every triangle corner at
/// `v`, in corner order.
pub open spec fn link(core: ComplexCore, v: int) -> Seq<(usize, usize)> {
    let values = top_values(core);
    bucket(values, values.len() as int, v).map_values(
        |q: usize| corner_opposite(core.spec_bases()[2].rows()[q as int / 3], q as int % 3),
    )
}

/// Both orientations of each link edge, in order: `(l, r)` then `(r, l)`.
pub open spec fn directed(edges: Seq<(usize, usize)>) -> Seq<(usize, usize)> {
    Seq::new(
        2 * edges.len(),
        |i: int|
            if i % 2 == 0 {
                edges[i / 2]
            } else {
                (edges[i / 2].1, edges[i / 2].0)
            },
    )
}

/// The neighbors of `x` along directed link edges, in order.
pub open spec fn neighbors(arcs: Seq<(usize, usize)>, x: int) -> Seq<usize>
    decreases arcs.len(),
{
    if arcs.len() == 0 {
        Seq::empty()
    } else {
        let rest = neighbors(arcs.drop_last(), x);
        if arcs.last().0 == x {
            rest.push(arcs.last().1)
        } else {
            rest
        }
    }
}

/// The link vertices in order of first appearance as arc sources.
pub open spec fn touch_order(arcs: Seq<(usize, usize)>) -> Seq<usize>
    decreases arcs.len(),
{
    if arcs.len() == 0 {
        Seq::empty()
    } else {
        let rest = touch_order(arcs.drop_last());
        if rest.contains(arcs.last().0) {
            rest
        } else {
            rest.push(arcs.last().0)
        }
    }
}

/// At most two neighbors, and two only when distinct.
pub open spec fn neighbors_ok(s: Seq<usize>) -> bool {
    s.len() <= 2 && (s.len() == 2 ==> s[0] != s[1])
}

/// Number of vertices among the first `k` of `order` with one neighbor.
pub open spec fn endpoint_count(arcs: Seq<(usize, usize)>, order: Seq<usize>, k: int) -> nat
    decreases k,
{
    if k <= 0 {
        0
    } else {
        endpoint_count(arcs, order, k - 1) + if neighbors(arcs, order[k - 1] as int).len() == 1 {
            1nat
        } else {
            0nat
        }
    }
}

/// Whether every link edge has both or neither of its ends in `reached`.
pub open spec fn link_closed(edges: Seq<(usize, usize)>, reached: Set<int>) -> bool {
    forall|i: int|
        0 <= i < edges.len() ==> (reached.contains(#[trigger] edges[i].0 as int) <==> reached.contains(
            edges[i].1 as int,
        ))
}

/// Whether every link vertex is reachable from the first along link edges.
pub open spec fn link_connected(edges: Seq<(usize, usize)>) -> bool {
    let order = touch_order(directed(edges));
    forall|reached: Set<int>|
        #[trigger] link_closed(edges, reached) && reached.contains(edges[0].0 as int) ==> forall|i: int|
            0 <= i < order.len() ==> reached.contains(#[trigger] order[i] as int)
}

/// Whether a link is a single simple path or cycle: nonempty, at most two
/// distinct neighbors per vertex, zero or two path ends, and connected.
pub open spec fn link_valid(edges: Seq<(usize, usize)>) -> bool {
    let arcs = directed(edges);
    let order = touch_order(arcs);
    &&& edges.len() > 0
    &&& forall|x: int| #[trigger] neighbors_ok(neighbors(arcs, x))
    &&& (endpoint_count(arcs, order, order.len() as int) == 0 || endpoint_count(
        arcs,
        order,
        order.len() as int,
    ) == 2)
    &&& link_connected(edges)
}

} // verus!

verus! {

/// The links of all vertices of a triangle complex, grouped by center.
#[derive(Debug)]
struct CenteredLinkEdges {
    offsets: Vec<usize>,
    endpoints: Vec<(usize, usize)>,
}

impl CenteredLinkEdges {
    spec fn of(&self, core: ComplexCore) -> bool {
        let n = core.spec_vertex_count() as int;
        &&& self.offsets@.len() == n + 1
        &&& forall|a: int, b: int| 0 <= a <= b <= n ==> #[trigger] self.offsets@[a] <= #[trigger] self.offsets@[b]
        &&& self.offsets@[n] == self.endpoints@.len()
        &&& forall|v: int|
            0 <= v < n ==> self.endpoints@.subrange(self.offsets@[v] as int, self.offsets@[v + 1] as int)
                == #[trigger] link(core, v)
    }

    /// Groups the opposite edges of every triangle corner by the corner's
    /// vertex; `NotPure` when some vertex has no corner.
    fn partition(owner: &ComplexCore) -> (r: Result<Self, TopologyError>)
        requires
            owner.spec_dimension() == 2,
        ensures
            r is Err <==> !pure(*owner),
            r matches Err(e) ==> e is NotPure,
            r matches Ok(links) ==> links.of(*owner),
    {
        proof {
            use_type_invariant(owner);
        }
        let ghost core = *owner;
        let vertex_count = owner.vertex_count();
        let top = match owner.basis(2) {
            Ok(b) => b,
            Err(e) => {
                proof {
                    assert(false);
                }
                return Err(e);
            },
        };
        let values = top.values();
        let ghost rows = top.rows();
        proof {
            assert(top.shape_inv());
            top.lemma_shape_bounds();
        }
        let mut centers: Vec<usize> = Vec::new();
        let mut i: usize = 0;
        while i < values.len()
            invariant
                core == *owner,
                core.core_inv(),
                core.spec_dimension() == 2,
                *top == core.spec_bases()[2],
                values@ == top.spec_values(),
                values@.len() == top.spec_row_count() * 3,
                top.spec_row_width() == 3,
                vertex_count == core.spec_vertex_count(),
                rows == top.rows(),
                i <= values@.len(),
                centers@ == values@.subrange(0, i as int),
                forall|q: int| 0 <= q < i ==> #[trigger] centers@[q] < vertex_count,
            decreases values@.len() - i,
        {
            proof {
                let t = i as int / 3;
                let j = i as int % 3;
                assert(0 <= t < top.spec_row_count() && t * 3 + j == i) by (nonlinear_arith)
                    requires
                        0 <= i < top.spec_row_count() * 3,
                        t == i as int / 3,
                        j == i as int % 3,
                ;
                lemma_entry_in_extent(core, 2, t, j);
                lemma_row_window(t, 3, top.spec_row_count());
                assert(rows[t][j] == values@[i as int]);
            }
            centers.push(values[i]);
            i = i + 1;
            proof {
                assert(centers@ =~= values@.subrange(0, i as int));
            }
        }
        proof {
            assert(centers@ =~= values@);
        }
        let (offsets, order) = bucket_order(&centers, vertex_count);
        let mut v: usize = 0;
        while v < vertex_count
            invariant
                core == *owner,
                centers@ == top_values(core),
                values@ == centers@,
                vertex_count == core.spec_vertex_count(),
                offsets@.len() == vertex_count + 1,
                offsets@[0] == 0,
                offsets@[vertex_count as int] == order@.len(),
                forall|a: int, b: int| 0 <= a <= b <= vertex_count ==> #[trigger] offsets@[a] <= #[trigger] offsets@[b],
                order@.len() == centers@.len(),
                forall|x: int|
                    0 <= x < vertex_count ==> order@.subrange(offsets@[x] as int, offsets@[x + 1] as int)
                        == #[trigger] bucket(centers@, centers@.len() as int, x),
                v <= vertex_count,
                forall|u: int| 0 <= u < v ==> #[trigger] vertex_used(core, u),
            decreases vertex_count - v,
        {
            proof {
                lemma_bucket_members(centers@, centers@.len() as int, v as int);
            }
            if offsets[v] == offsets[v + 1] {
                proof {
                    let b = bucket(centers@, centers@.len() as int, v as int);
                    assert(b.len() == 0);
                    if vertex_used(core, v as int) {
                        let q = choose|q: int| 0 <= q < centers@.len() && centers@[q] == v as usize;
                        assert(b.contains(q as usize));
                    }
                }
                return Err(TopologyError::NotPure(v));
            }
            proof {
                let b = bucket(centers@, centers@.len() as int, v as int);
                assert(b.len() > 0);
                assert(centers@[b[0] as int] == v);
            }
            v = v + 1;
        }
        proof {
            assert forall|q: int| 0 <= q < order@.len() implies #[trigger] order@[q] < values@.len() by {
                lemma_row_of(offsets@, vertex_count as int, order@.len() as int, q);
                let x = row_of(offsets@, vertex_count as int, q);
                lemma_bucket_members(centers@, centers@.len() as int, x);
                let b = bucket(centers@, centers@.len() as int, x);
                assert(order@.subrange(offsets@[x] as int, offsets@[x + 1] as int)[q - offsets@[x]]
                    == order@[q]);
                assert(b[q - offsets@[x]] == order@[q]);
            }
        }
        let mut endpoints: Vec<(usize, usize)> = Vec::new();
        let mut p: usize = 0;
        while p < order.len()
            invariant
                core == *owner,
                core.core_inv(),
                core.spec_dimension() == 2,
                *top == core.spec_bases()[2],
                rows == top.rows(),
                values@ == top.spec_values(),
                values@.len() == top.spec_row_count() * 3,
                top.spec_row_width() == 3,
                forall|q: int| 0 <= q < order@.len() ==> #[trigger] order@[q] < values@.len(),
                order@.len() == values@.len(),
                p <= order@.len(),
                endpoints@.len() == p,
                forall|k: int|
                    0 <= k < p ==> #[trigger] endpoints@[k] == corner_opposite(
                        rows[order@[k] as int / 3],
                        order@[k] as int % 3,
                    ),
            decreases order@.len() - p,
        {
            let q = order[p];
            let t = q / 3;
            let j = q % 3;
            let base = t * 3;
            proof {
                assert(0 <= t < top.spec_row_count() && base + 3 <= values@.len()) by (nonlinear_arith)
                    requires
                        0 <= q < top.spec_row_count() * 3,
                        values@.len() == top.spec_row_count() * 3,
                        t == q as int / 3,
                        base == t * 3,
                ;
                lemma_row_window(t as int, 3, top.spec_row_count());
                assert(rows[t as int] == values@.subrange(base as int, base + 3));
            }
            let edge = if j == 0 {
                (values[base + 1], values[base + 2])
            } else if j == 1 {
                (values[base], values[base + 2])
            } else {
                (values[base], values[base + 1])
            };
            endpoints.push(edge);
            p = p + 1;
        }
        let links = CenteredLinkEdges { offsets, endpoints };
        proof {
            assert forall|v: int| 0 <= v < vertex_count implies links.endpoints@.subrange(
                links.offsets@[v] as int,
                links.offsets@[v + 1] as int,
            ) == #[trigger] link(core, v) by {
                let lo = links.offsets@[v] as int;
                let hi = links.offsets@[v + 1] as int;
                let b = bucket(centers@, centers@.len() as int, v);
                assert(order@.subrange(lo, hi) == b);
                assert(links.endpoints@.subrange(lo, hi) =~= link(core, v)) by {
                    assert forall|k: int| 0 <= k < hi - lo implies links.endpoints@.subrange(lo, hi)[k]
                        == link(core, v)[k] by {
                        assert(links.endpoints@[lo + k] == corner_opposite(
                            rows[order@[lo + k] as int / 3],
                            order@[lo + k] as int % 3,
                        ));
                        assert(order@[lo + k] == b[k]);
                    }
                }
            }
        }
        Ok(links)
    }

    /// The link of one center.
    fn for_center(&self, center: usize, core: Ghost<ComplexCore>) -> (r: &[(usize, usize)])
        requires
            self.of(core@),
            center < core@.spec_vertex_count(),
        ensures
            r@ == link(core@, center as int),
    {
        let count = self.offsets.len();
        let start = self.offsets[center];
        let end = self.offsets[center + 1];
        proof {
            assert(end <= self.offsets@[core@.spec_vertex_count() as int]);
        }
        &self.endpoints.as_slice()[start..end]
    }
}

} // verus!

verus! {

/// Whether some arc leads from `x` to `y`.
pub open spec fn from_arc(arcs: Seq<(usize, usize)>, x: int, y: usize) -> bool {
    exists|j: int| 0 <= j < arcs.len() && #[trigger] arcs[j].0 == x && arcs[j].1 == y
}

proof fn lemma_neighbors_prefix(arcs: Seq<(usize, usize)>, k: int, x: int)
    requires
        0 <= k <= arcs.len(),
    ensures
        neighbors(arcs.take(k), x).len() <= neighbors(arcs, x).len(),
        neighbors(arcs, x).take(neighbors(arcs.take(k), x).len() as int) == neighbors(arcs.take(k), x),
    decreases arcs.len() - k,
{
    if k < arcs.len() {
        lemma_neighbors_prefix(arcs, k + 1, x);
        let longer = arcs.take(k + 1);
        assert(longer.drop_last() == arcs.take(k));
        assert(longer.last() == arcs[k]);
    } else {
        assert(arcs.take(k) == arcs);
    }
}

/// Every neighbor comes from an arc, and every arc gives a neighbor.
proof fn lemma_neighbors_arcs(arcs: Seq<(usize, usize)>, x: int)
    ensures
        forall|k: int| 0 <= k < neighbors(arcs, x).len() ==> from_arc(arcs, x, #[trigger] neighbors(arcs, x)[k]),
        forall|j: int| 0 <= j < arcs.len() && arcs[j].0 == x ==> neighbors(arcs, x).contains(#[trigger] arcs[j].1),
    decreases arcs.len(),
{
    if arcs.len() > 0 {
        let rest = arcs.drop_last();
        lemma_neighbors_arcs(rest, x);
        let n = neighbors(arcs, x);
        let m = neighbors(rest, x);
        assert forall|k: int| 0 <= k < n.len() implies from_arc(arcs, x, #[trigger] n[k]) by {
            if k < m.len() {
                assert(n[k] == m[k]);
                let j = choose|j: int| 0 <= j < rest.len() && #[trigger] rest[j].0 == x && rest[j].1 == m[k];
                assert(arcs[j] == rest[j]);
                assert(arcs[j].0 == x && arcs[j].1 == n[k]);
            } else {
                assert(arcs[arcs.len() - 1].0 == x && arcs[arcs.len() - 1].1 == n[k]);
            }
        }
        assert forall|j: int| 0 <= j < arcs.len() && arcs[j].0 == x implies n.contains(#[trigger] arcs[j].1) by {
            if j < rest.len() {
                assert(rest[j] == arcs[j]);
                assert(m.contains(rest[j].1));
                let k = choose|k: int| 0 <= k < m.len() && m[k] == rest[j].1;
                assert(n[k] == m[k]);
            } else {
                assert(n[n.len() - 1] == arcs[j].1);
            }
        }
        assert(n == neighbors(arcs, x));
    } else {
        assert(neighbors(arcs, x).len() == 0);
    }
}

/// The vertices in the touch order are exactly the arc sources.
proof fn lemma_touch_order(arcs: Seq<(usize, usize)>)
    ensures
        forall|v: usize| touch_order(arcs).contains(v) <==> exists|j: int| 0 <= j < arcs.len() && #[trigger] arcs[j].0 == v,
        forall|i: int, j: int| 0 <= i < j < touch_order(arcs).len() ==> touch_order(arcs)[i] != touch_order(arcs)[j],
    decreases arcs.len(),
{
    if arcs.len() > 0 {
        let rest = arcs.drop_last();
        lemma_touch_order(rest);
        let t = touch_order(arcs);
        let u = touch_order(rest);
        assert forall|v: usize| t.contains(v) <==> exists|j: int| 0 <= j < arcs.len() && #[trigger] arcs[j].0 == v by {
            if t.contains(v) {
                if u.contains(v) {
                    let j = choose|j: int| 0 <= j < rest.len() && #[trigger] rest[j].0 == v;
                    assert(arcs[j] == rest[j]);
                } else {
                    assert(arcs[arcs.len() - 1].0 == v);
                }
            }
            if exists|j: int| 0 <= j < arcs.len() && #[trigger] arcs[j].0 == v {
                let j = choose|j: int| 0 <= j < arcs.len() && #[trigger] arcs[j].0 == v;
                if j < rest.len() {
                    assert(rest[j] == arcs[j]);
                    assert(u.contains(v));
                    let k = choose|k: int| 0 <= k < u.len() && u[k] == v;
                    assert(t[k] == u[k]);
                } else {
                    if !u.contains(v) {
                        assert(t[t.len() - 1] == v);
                    } else {
                        let k = choose|k: int| 0 <= k < u.len() && u[k] == v;
                        assert(t[k] == u[k]);
                    }
                }
            }
        }
    }
}

/// A link edge at index `i` gives arcs `(l, r)` at `2 i` and `(r, l)` at
/// `2 i + 1`.
proof fn lemma_directed_index(edges: Seq<(usize, usize)>, i: int)
    requires
        0 <= i < edges.len(),
    ensures
        directed(edges)[2 * i] == edges[i],
        directed(edges)[2 * i + 1] == (edges[i].1, edges[i].0),
        directed(edges).len() == 2 * edges.len(),
{
    assert((2 * i) / 2 == i && (2 * i) % 2 == 0 && (2 * i + 1) / 2 == i && (2 * i + 1) % 2 == 1);
}

} // verus!

verus! {

/// Reusable per-vertex scratch for link validation.
#[derive(Debug)]
struct LinkScratch {
    degrees: Vec<u8>,
    first: Vec<usize>,
    second: Vec<usize>,
    visited: Vec<bool>,
    touched: Vec<usize>,
}

impl LinkScratch {
    /// Every vertex untouched and unvisited.
    spec fn clean(&self, n: int) -> bool {
        &&& self.degrees@.len() == n
        &&& self.first@.len() == n
        &&& self.second@.len() == n
        &&& self.visited@.len() == n
        &&& forall|x: int| 0 <= x < n ==> #[trigger] self.degrees@[x] == 0 && !self.visited@[x]
    }

    /// The scratch records the neighbors and touch order of `arcs`.
    spec fn records(&self, arcs: Seq<(usize, usize)>, n: int) -> bool {
        &&& self.degrees@.len() == n
        &&& self.first@.len() == n
        &&& self.second@.len() == n
        &&& self.visited@.len() == n
        &&& forall|j: int| 0 <= j < arcs.len() ==> #[trigger] arcs[j].0 < n && arcs[j].1 < n
        &&& forall|x: int|
            0 <= x < n ==> {
                let s = #[trigger] neighbors(arcs, x);
                &&& self.degrees@[x] == s.len()
                &&& neighbors_ok(s)
                &&& s.len() >= 1 ==> self.first@[x] == s[0]
                &&& s.len() == 2 ==> self.second@[x] == s[1]
            }
        &&& self.touched@ == touch_order(arcs)
    }

    /// The scratch records `arcs` and no vertex is visited.
    spec fn tracks(&self, arcs: Seq<(usize, usize)>, n: int) -> bool {
        &&& self.records(arcs, n)
        &&& forall|x: int| 0 <= x < n ==> !#[trigger] self.visited@[x]
    }

    fn try_new(n: usize) -> (r: Self)
        ensures
            r.clean(n as int),
            r.touched@.len() == 0,
    {
        let mut degrees: Vec<u8> = Vec::new();
        let mut first: Vec<usize> = Vec::new();
        let mut second: Vec<usize> = Vec::new();
        let mut visited: Vec<bool> = Vec::new();
        let mut i: usize = 0;
        while i < n
            invariant
                i <= n,
                degrees@.len() == i,
                first@.len() == i,
                second@.len() == i,
                visited@.len() == i,
                forall|x: int| 0 <= x < i ==> #[trigger] degrees@[x] == 0 && !visited@[x],
            decreases n - i,
        {
            degrees.push(0);
            first.push(0);
            second.push(0);
            visited.push(false);
            i = i + 1;
        }
        LinkScratch { degrees, first, second, visited, touched: Vec::new() }
    }

    /// Records `neighbor` as the next neighbor of `vertex`; an error when
    /// that gives `vertex` a third or a repeated neighbor.
    fn attach(&mut self, vertex: usize, neighbor: usize, arcs: Ghost<Seq<(usize, usize)>>, n: Ghost<int>) -> (r:
        Result<(), ()>)
        requires
            old(self).tracks(arcs@, n@),
            vertex < n@,
            neighbor < n@,
        ensures
            r is Ok <==> neighbors_ok(neighbors(arcs@.push((vertex, neighbor)), vertex as int)),
            r is Ok ==> final(self).tracks(arcs@.push((vertex, neighbor)), n@),
    {
        let ghost longer = arcs@.push((vertex, neighbor));
        proof {
            assert(longer.drop_last() =~= arcs@);
            assert(longer.last() == (vertex, neighbor));
        }
        let degree = self.degrees[vertex];
        if degree == 0 {
            proof {
                assert(!touch_order(arcs@).contains(vertex)) by {
                    lemma_touch_order(arcs@);
                    if touch_order(arcs@).contains(vertex) {
                        let j = choose|j: int| 0 <= j < arcs@.len() && #[trigger] arcs@[j].0 == vertex;
                        lemma_neighbors_arcs(arcs@, vertex as int);
                        assert(neighbors(arcs@, vertex as int).contains(arcs@[j].1));
                    }
                }
            }
            self.touched.push(vertex);
            self.first.set(vertex, neighbor);
            self.degrees.set(vertex, 1);
            proof {
                assert forall|x: int| 0 <= x < n@ implies {
                    let s = #[trigger] neighbors(longer, x);
                    &&& self.degrees@[x] == s.len()
                    &&& neighbors_ok(s)
                    &&& s.len() >= 1 ==> self.first@[x] == s[0]
                    &&& s.len() == 2 ==> self.second@[x] == s[1]
                } by {
                    assert(neighbors(arcs@, x) == neighbors(longer.drop_last(), x));
                }
                assert forall|j: int| 0 <= j < longer.len() implies #[trigger] longer[j].0 < n@ && longer[j].1 < n@ by {
                    if j < arcs@.len() {
                        assert(longer[j] == arcs@[j]);
                    }
                }
            }
            Ok(())
        } else if degree == 1 && self.first[vertex] != neighbor {
            self.second.set(vertex, neighbor);
            self.degrees.set(vertex, 2);
            proof {
                assert(touch_order(arcs@).contains(vertex)) by {
                    lemma_touch_order(arcs@);
                    lemma_neighbors_arcs(arcs@, vertex as int);
                    assert(from_arc(arcs@, vertex as int, neighbors(arcs@, vertex as int)[0]));
                    let j = choose|j: int|
                        0 <= j < arcs@.len() && #[trigger] arcs@[j].0 == vertex as int && arcs@[j].1
                            == neighbors(arcs@, vertex as int)[0];
                    assert(arcs@[j].0 == vertex);
                }
                assert forall|x: int| 0 <= x < n@ implies {
                    let s = #[trigger] neighbors(longer, x);
                    &&& self.degrees@[x] == s.len()
                    &&& neighbors_ok(s)
                    &&& s.len() >= 1 ==> self.first@[x] == s[0]
                    &&& s.len() == 2 ==> self.second@[x] == s[1]
                } by {
                    assert(neighbors(arcs@, x) == neighbors(longer.drop_last(), x));
                }
                assert forall|j: int| 0 <= j < longer.len() implies #[trigger] longer[j].0 < n@ && longer[j].1 < n@ by {
                    if j < arcs@.len() {
                        assert(longer[j] == arcs@[j]);
                    }
                }
            }
            Ok(())
        } else {
            proof {
                assert(neighbors(arcs@, vertex as int) == neighbors(longer.drop_last(), vertex as int));
            }
            Err(())
        }
    }
}


proof fn lemma_not_ok_extends(arcs: Seq<(usize, usize)>, k: int, x: int)
    requires
        0 <= k <= arcs.len(),
        !neighbors_ok(neighbors(arcs.take(k), x)),
    ensures
        !neighbors_ok(neighbors(arcs, x)),
{
    lemma_neighbors_prefix(arcs, k, x);
    let p = neighbors(arcs.take(k), x);
    let f = neighbors(arcs, x);
    if p.len() >= 2 {
        assert(f[0] == p[0] && f[1] == p[1]);
    }
}

impl LinkScratch {
    /// Records both orientations of every link edge; an error as soon as
    /// some vertex gets a third or a repeated neighbor.
    fn attach_all(&mut self, edges: &[(usize, usize)], n: Ghost<int>) -> (r: Result<(), ()>)
        requires
            old(self).tracks(Seq::empty(), n@),
            forall|i: int| 0 <= i < edges@.len() ==> #[trigger] edges@[i].0 < n@ && edges@[i].1 < n@,
        ensures
            r is Ok <==> forall|x: int| #[trigger] neighbors_ok(neighbors(directed(edges@), x)),
            r is Ok ==> final(self).tracks(directed(edges@), n@),
    {
        let ghost arcs = directed(edges@);
        proof {
            assert(arcs.take(0) =~= Seq::<(usize, usize)>::empty());
        }
        let mut i: usize = 0;
        while i < edges.len()
            invariant
                arcs == directed(edges@),
                arcs.len() == 2 * edges@.len(),
                i <= edges@.len(),
                forall|i: int| 0 <= i < edges@.len() ==> #[trigger] edges@[i].0 < n@ && edges@[i].1 < n@,
                self.tracks(arcs.take(2 * i), n@),
            decreases edges@.len() - i,
        {
            let (left, right) = edges[i];
            proof {
                lemma_directed_index(edges@, i as int);
                assert(arcs.take(2 * i).push((left, right)) =~= arcs.take(2 * i + 1));
                assert(arcs.take(2 * i + 1).push((right, left)) =~= arcs.take(2 * i + 2));
            }
            match self.attach(left, right, Ghost(arcs.take(2 * i)), n) {
                Ok(()) => {},
                Err(e) => {
                    proof {
                        lemma_not_ok_extends(arcs, 2 * i + 1, left as int);
                    }
                    return Err(e);
                },
            }
            match self.attach(right, left, Ghost(arcs.take(2 * i + 1)), n) {
                Ok(()) => {},
                Err(e) => {
                    proof {
                        lemma_not_ok_extends(arcs, 2 * i + 2, right as int);
                    }
                    return Err(e);
                },
            }
            i = i + 1;
        }
        proof {
            assert(arcs.take(2 * i) =~= arcs);
            assert forall|x: int| #[trigger] neighbors_ok(neighbors(arcs, x)) by {
                if !(0 <= x < n@) {
                    lemma_neighbors_arcs(arcs, x);
                    if neighbors(arcs, x).len() > 0 {
                        assert(from_arc(arcs, x, neighbors(arcs, x)[0]));
                        let j = choose|j: int| 0 <= j < arcs.len() && #[trigger] arcs[j].0 == x && arcs[j].1 == neighbors(arcs, x)[0];
                        assert(arcs[j].0 < n@);
                    }
                }
            }
        }
        Ok(())
    }
}


/// Whether the visited and stacked link vertices lie in every link-closed
/// set that holds `start`.
spec fn link_sound(edges: Seq<(usize, usize)>, start: int, visited: Seq<bool>, stack: Seq<usize>) -> bool {
    forall|reached: Set<int>|
        #[trigger] link_closed(edges, reached) && reached.contains(start) ==> (forall|x: int|
            0 <= x < visited.len() && #[trigger] visited[x] ==> reached.contains(x)) && (forall|i: int|
            0 <= i < stack.len() ==> reached.contains(#[trigger] stack[i] as int))
}

/// Whether every neighbor of a visited link vertex is visited or stacked.
spec fn link_complete(arcs: Seq<(usize, usize)>, visited: Seq<bool>, stack: Seq<usize>) -> bool {
    forall|x: int, k: int|
        #![trigger neighbors(arcs, x)[k]]
        0 <= x < visited.len() && visited[x] && 0 <= k < neighbors(arcs, x).len() ==> visited[neighbors(
            arcs,
            x,
        )[k] as int] || stack.contains(neighbors(arcs, x)[k])
}

proof fn lemma_neighbor_closed(edges: Seq<(usize, usize)>, reached: Set<int>, x: int, y: usize)
    requires
        link_closed(edges, reached),
        reached.contains(x),
        from_arc(directed(edges), x, y),
    ensures
        reached.contains(y as int),
{
    let arcs = directed(edges);
    let j = choose|j: int| 0 <= j < arcs.len() && #[trigger] arcs[j].0 == x && arcs[j].1 == y;
    let i = j / 2;
    lemma_directed_index(edges, i);
    assert(j == 2 * i || j == 2 * i + 1);
    assert(reached.contains(edges[i].0 as int) <==> reached.contains(edges[i].1 as int));
}

impl LinkScratch {
    /// Marks every link vertex reachable from `start`.
    fn search(&mut self, start: usize, edges: &[(usize, usize)], n: Ghost<int>)
        requires
            old(self).tracks(directed(edges@), n@),
            start < n@,
            old(self).degrees@[start as int] > 0,
        ensures
            final(self).records(directed(edges@), n@),
            forall|x: int| 0 <= x < n@ && #[trigger] final(self).visited@[x] ==> final(self).degrees@[x] > 0,
            final(self).visited@[start as int],
            link_sound(edges@, start as int, final(self).visited@, Seq::empty()),
            link_complete(directed(edges@), final(self).visited@, Seq::empty()),
    {
        let ghost arcs = directed(edges@);
        let mut stack: Vec<usize> = Vec::new();
        stack.push(start);
        proof {
            assert(stack@[0] == start);
        }
        while stack.len() > 0
            invariant
                arcs == directed(edges@),
                self.records(arcs, n@),
                start < n@,
                forall|x: int| 0 <= x < n@ && #[trigger] self.visited@[x] ==> self.degrees@[x] > 0,
                forall|i: int| 0 <= i < stack@.len() ==> #[trigger] stack@[i] < n@ && self.degrees@[stack@[i] as int] > 0,
                self.visited@[start as int] || stack@.contains(start),
                link_sound(edges@, start as int, self.visited@, stack@),
                link_complete(arcs, self.visited@, stack@),
            decreases clear_count(self.visited@), stack@.len(),
        {
            let ghost popped = stack@;
            let x = stack.pop().unwrap();
            proof {
                assert(stack@ == popped.drop_last() && x == popped.last());
                assert(popped[popped.len() - 1] == x);
                assert forall|w: usize| popped.contains(w) && w != x implies stack@.contains(w) by {
                    let i = choose|i: int| 0 <= i < popped.len() && popped[i] == w;
                    assert(stack@[i] == w);
                }
            }
            if self.visited[x] {
                proof {
                    assert forall|reached: Set<int>|
                        #[trigger] link_closed(edges@, reached) && reached.contains(start as int) implies (forall|v: int|
                        0 <= v < self.visited@.len() && #[trigger] self.visited@[v] ==> reached.contains(v)) && (forall|i: int|
                        0 <= i < stack@.len() ==> reached.contains(#[trigger] stack@[i] as int)) by {
                        assert forall|i: int| 0 <= i < stack@.len() implies reached.contains(#[trigger] stack@[i] as int) by {
                            assert(stack@[i] == popped[i]);
                        }
                    }
                }
                continue;
            }
            let ghost before = self.visited@;
            self.visited.set(x, true);
            proof {
                lemma_clear_count_set(before, x as int);
                lemma_neighbors_arcs(arcs, x as int);
            }
            let ghost rest = stack@;
            let f = self.first[x];
            stack.push(f);
            if self.degrees[x] == 2 {
                let g = self.second[x];
                stack.push(g);
            }
            proof {
                let s = neighbors(arcs, x as int);
                assert(s.len() >= 1 && f == s[0]);
                assert(stack@[rest.len() as int] == s[0]);
                if s.len() == 2 {
                    assert(stack@[rest.len() as int + 1] == s[1]);
                }
                assert forall|w: usize| rest.contains(w) implies stack@.contains(w) by {
                    let i = choose|i: int| 0 <= i < rest.len() && rest[i] == w;
                    assert(stack@[i] == w);
                }
                assert forall|i: int| 0 <= i < stack@.len() implies #[trigger] stack@[i] < n@ && self.degrees@[stack@[i] as int] > 0 by {
                    if i < rest.len() {
                        assert(stack@[i] == rest[i]);
                        assert(rest[i] == popped[i]);
                    } else {
                        let k = i - rest.len();
                        assert(stack@[i] == s[k]);
                        assert(from_arc(arcs, x as int, s[k]));
                        let j = choose|j: int| 0 <= j < arcs.len() && #[trigger] arcs[j].0 == x as int && arcs[j].1 == s[k];
                        lemma_directed_index(edges@, j / 2);
                        lemma_neighbors_arcs(arcs, s[k] as int);
                        assert(j == 2 * (j / 2) || j == 2 * (j / 2) + 1);
                        let back: int = if j == 2 * (j / 2) { j + 1 } else { j - 1 };
                        assert(arcs[back].0 == s[k] && arcs[back].1 == x);
                        assert(neighbors(arcs, s[k] as int).contains(arcs[back].1));
                    }
                }
                assert forall|reached: Set<int>|
                    #[trigger] link_closed(edges@, reached) && reached.contains(start as int) implies (forall|v: int|
                    0 <= v < self.visited@.len() && #[trigger] self.visited@[v] ==> reached.contains(v)) && (forall|i: int|
                    0 <= i < stack@.len() ==> reached.contains(#[trigger] stack@[i] as int)) by {
                    assert(reached.contains(popped[popped.len() - 1] as int));
                    assert forall|v: int| 0 <= v < self.visited@.len() && #[trigger] self.visited@[v] implies reached.contains(v) by {
                        if v != x {
                            assert(before[v]);
                        }
                    }
                    assert forall|i: int| 0 <= i < stack@.len() implies reached.contains(#[trigger] stack@[i] as int) by {
                        if i < rest.len() {
                            assert(stack@[i] == rest[i]);
                            assert(rest[i] == popped[i]);
                        } else {
                            let k = i - rest.len();
                            assert(stack@[i] == s[k]);
                            assert(from_arc(arcs, x as int, s[k]));
                            lemma_neighbor_closed(edges@, reached, x as int, s[k]);
                        }
                    }
                }
                assert forall|v: int, k: int|
                    #![trigger neighbors(arcs, v)[k]]
                    0 <= v < self.visited@.len() && self.visited@[v] && 0 <= k < neighbors(arcs, v).len() implies self.visited@[neighbors(
                        arcs,
                        v,
                    )[k] as int] || stack@.contains(neighbors(arcs, v)[k]) by {
                    if v == x {
                        assert(stack@[rest.len() as int + k] == s[k]);
                    } else {
                        assert(before[v]);
                        let y = neighbors(arcs, v)[k];
                        lemma_neighbors_arcs(arcs, v);
                        assert(from_arc(arcs, v, y));
                        let j = choose|j: int| 0 <= j < arcs.len() && #[trigger] arcs[j].0 == v && arcs[j].1 == y;
                        assert(arcs[j].1 < n@);
                        if !self.visited@[y as int] {
                            assert(!before[y as int]);
                            assert(popped.contains(y));
                        }
                    }
                }
                if x != start && !before[start as int] {
                    assert(popped.contains(start));
                    assert(rest.contains(start));
                }
            }
        }
    }
}


proof fn lemma_closed_from_complete(edges: Seq<(usize, usize)>, visited: Seq<bool>, n: int)
    requires
        link_complete(directed(edges), visited, Seq::empty()),
        visited.len() == n,
        forall|i: int| 0 <= i < edges.len() ==> #[trigger] edges[i].0 < n && edges[i].1 < n,
    ensures
        link_closed(edges, Set::new(|x: int| 0 <= x < n && visited[x])),
{
    let arcs = directed(edges);
    let reached = Set::new(|x: int| 0 <= x < n && visited[x]);
    assert forall|i: int| 0 <= i < edges.len() implies (reached.contains(#[trigger] edges[i].0 as int)
        <==> reached.contains(edges[i].1 as int)) by {
        lemma_directed_index(edges, i);
        let l = edges[i].0;
        let r = edges[i].1;
        lemma_neighbors_arcs(arcs, l as int);
        lemma_neighbors_arcs(arcs, r as int);
        assert(arcs[2 * i].0 == l && arcs[2 * i].1 == r);
        assert(arcs[2 * i + 1].0 == r && arcs[2 * i + 1].1 == l);
        assert(neighbors(arcs, l as int).contains(arcs[2 * i].1));
        assert(neighbors(arcs, r as int).contains(arcs[2 * i + 1].1));
        if visited[l as int] {
            let k = choose|k: int| 0 <= k < neighbors(arcs, l as int).len() && neighbors(arcs, l as int)[k] == r;
            assert(visited[neighbors(arcs, l as int)[k] as int] || Seq::<usize>::empty().contains(neighbors(arcs, l as int)[k]));
        }
        if visited[r as int] {
            let k = choose|k: int| 0 <= k < neighbors(arcs, r as int).len() && neighbors(arcs, r as int)[k] == l;
            assert(visited[neighbors(arcs, r as int)[k] as int] || Seq::<usize>::empty().contains(neighbors(arcs, r as int)[k]));
        }
    }
}

/// A vertex outside the touch order has no neighbors.
proof fn lemma_untouched(arcs: Seq<(usize, usize)>, x: int)
    requires
        !touch_order(arcs).contains(x as usize) || x < 0,
    ensures
        neighbors(arcs, x).len() == 0,
{
    lemma_touch_order(arcs);
    lemma_neighbors_arcs(arcs, x);
    if neighbors(arcs, x).len() > 0 {
        assert(from_arc(arcs, x, neighbors(arcs, x)[0]));
        let j = choose|j: int| 0 <= j < arcs.len() && #[trigger] arcs[j].0 == x && arcs[j].1 == neighbors(arcs, x)[0];
        assert(arcs[j].0 == x as usize);
    }
}

impl LinkScratch {
    /// Whether a link is a single simple path or cycle; an error otherwise.
    #[verifier::spinoff_prover]
    #[verifier::rlimit(60)]
    fn validate(&mut self, edges: &[(usize, usize)], n: Ghost<int>) -> (r: Result<(), ()>)
        requires
            old(self).clean(n@),
            0 <= n@ <= usize::MAX,
            forall|i: int| 0 <= i < edges@.len() ==> #[trigger] edges@[i].0 < n@ && edges@[i].1 < n@,
        ensures
            r is Ok <==> link_valid(edges@),
            r is Ok ==> final(self).clean(n@),
    {
        let ghost arcs = directed(edges@);
        self.touched.clear();
        proof {
            assert forall|x: int| 0 <= x < n@ implies {
                let s = #[trigger] neighbors(Seq::<(usize, usize)>::empty(), x);
                &&& self.degrees@[x] == s.len()
                &&& neighbors_ok(s)
                &&& s.len() >= 1 ==> self.first@[x] == s[0]
                &&& s.len() == 2 ==> self.second@[x] == s[1]
            } by {
                assert(neighbors(Seq::<(usize, usize)>::empty(), x).len() == 0);
            }
            assert(self.touched@ =~= touch_order(Seq::<(usize, usize)>::empty()));
            assert forall|x: int| 0 <= x < n@ implies !#[trigger] self.visited@[x] by {
                assert(self.degrees@[x] == 0);
            }
        }
        match self.attach_all(edges, n) {
            Ok(()) => {},
            Err(e) => {
                return Err(e);
            },
        }
        if self.touched.len() == 0 {
            proof {
                if edges@.len() > 0 {
                    lemma_directed_index(edges@, 0);
                    lemma_touch_order(arcs);
                    assert(arcs[0].0 == edges@[0].0);
                    assert(touch_order(arcs).contains(arcs[0].0));
                }
            }
            return Err(());
        }
        proof {
            lemma_touch_order(arcs);
        }
        let ghost order = self.touched@;
        let mut endpoints: usize = 0;
        let mut k: usize = 0;
        while k < self.touched.len()
            invariant
                arcs == directed(edges@),
                self.tracks(arcs, n@),
                order == self.touched@,
                forall|v: usize| order.contains(v) <==> exists|j: int| 0 <= j < arcs.len() && #[trigger] arcs[j].0 == v,
                k <= order.len(),
                endpoints <= k,
                endpoints == endpoint_count(arcs, order, k as int),
            decreases order.len() - k,
        {
            let vertex = self.touched[k];
            proof {
                assert(order.contains(vertex));
                let j = choose|j: int| 0 <= j < arcs.len() && #[trigger] arcs[j].0 == vertex;
                assert(arcs[j].0 < n@);
            }
            if self.degrees[vertex] == 1 {
                endpoints = endpoints + 1;
            }
            k = k + 1;
        }
        if endpoints != 0 && endpoints != 2 {
            return Err(());
        }
        let start = edges[0].0;
        proof {
            lemma_directed_index(edges@, 0);
            lemma_neighbors_arcs(arcs, start as int);
            assert(arcs[0].0 == start);
            assert(neighbors(arcs, start as int).contains(arcs[0].1));
        }
        self.search(start, edges, n);
        proof {
            lemma_closed_from_complete(edges@, self.visited@, n@);
        }
        let ghost reached = Set::new(|x: int| 0 <= x < n@ && self.visited@[x]);
        let mut k: usize = 0;
        while k < self.touched.len()
            invariant
                arcs == directed(edges@),
                self.records(arcs, n@),
                order == self.touched@,
                order == touch_order(arcs),
                forall|v: usize| order.contains(v) <==> exists|j: int| 0 <= j < arcs.len() && #[trigger] arcs[j].0 == v,
                k <= order.len(),
                start == edges@[0].0,
                edges@.len() > 0,
                reached == Set::new(|x: int| 0 <= x < n@ && self.visited@[x]),
                link_closed(edges@, reached),
                reached.contains(start as int),
                link_sound(edges@, start as int, self.visited@, Seq::empty()),
                forall|x: int| 0 <= x < n@ && #[trigger] self.visited@[x] ==> self.degrees@[x] > 0,
                forall|i: int| 0 <= i < k ==> #[trigger] self.visited@[order[i] as int],
            decreases order.len() - k,
        {
            let vertex = self.touched[k];
            proof {
                assert(order.contains(vertex));
                let j = choose|j: int| 0 <= j < arcs.len() && #[trigger] arcs[j].0 == vertex;
                assert(arcs[j].0 < n@);
            }
            if !self.visited[vertex] {
                proof {
                    assert(!reached.contains(order[k as int] as int));
                    assert(!link_connected(edges@));
                }
                return Err(());
            }
            k = k + 1;
        }
        proof {
            assert forall|s: Set<int>| #[trigger] link_closed(edges@, s) && s.contains(edges@[0].0 as int) implies forall|i: int|
                0 <= i < order.len() ==> s.contains(#[trigger] order[i] as int) by {
                assert forall|i: int| 0 <= i < order.len() implies s.contains(#[trigger] order[i] as int) by {
                    assert(self.visited@[order[i] as int]);
                    assert(order.contains(order[i]));
                    let j = choose|j: int| 0 <= j < arcs.len() && #[trigger] arcs[j].0 == order[i];
                    assert(arcs[j].0 < n@);
                }
            }
            assert(link_connected(edges@));
            assert forall|x: int|
                0 <= x < n@ && (order.subrange(0, 0).contains(x as usize) || !order.contains(x as usize))
                    implies #[trigger] self.degrees@[x] == 0 && !self.visited@[x] by {
                if !order.contains(x as usize) {
                    lemma_untouched(arcs, x);
                }
            }
        }
        let mut k: usize = 0;
        while k < self.touched.len()
            invariant
                arcs == directed(edges@),
                0 <= n@ <= usize::MAX,
                self.degrees@.len() == n@,
                self.first@.len() == n@,
                self.second@.len() == n@,
                self.visited@.len() == n@,
                order == self.touched@,
                forall|v: usize| order.contains(v) <==> exists|j: int| 0 <= j < arcs.len() && #[trigger] arcs[j].0 == v,
                forall|j: int| 0 <= j < arcs.len() ==> #[trigger] arcs[j].0 < n@ && arcs[j].1 < n@,
                k <= order.len(),
                forall|x: int|
                    0 <= x < n@ && (order.subrange(0, k as int).contains(x as usize) || !order.contains(x as usize))
                        ==> #[trigger] self.degrees@[x] == 0 && !self.visited@[x],
            decreases order.len() - k,
        {
            let vertex = self.touched[k];
            proof {
                assert(order.contains(vertex));
                let j = choose|j: int| 0 <= j < arcs.len() && #[trigger] arcs[j].0 == vertex;
                assert(arcs[j].0 < n@);
            }
            let next = k + 1;
            let ghost old_degrees = self.degrees@;
            let ghost old_visited = self.visited@;
            self.degrees.set(vertex, 0);
            self.visited.set(vertex, false);
            proof {
                assert forall|x: int|
                    0 <= x < n@ && (order.subrange(0, next as int).contains(x as usize) || !order.contains(x as usize))
                        implies #[trigger] self.degrees@[x] == 0 && !self.visited@[x] by {
                    if x != vertex {
                        assert(self.degrees@[x] == old_degrees[x] && self.visited@[x] == old_visited[x]);
                        if !order.contains(x as usize) {
                            assert(old_degrees[x] == 0 && !old_visited[x]);
                        }
                    }
                    if x != vertex && order.subrange(0, next as int).contains(x as usize) {
                        let prefix = order.subrange(0, next as int);
                        let i = choose|i: int| 0 <= i < prefix.len() && #[trigger] prefix[i] == x as usize;
                        if i < k {
                            assert(order.subrange(0, k as int)[i] == x as usize);
                            assert(order.subrange(0, k as int).contains(x as usize));
                            assert(old_degrees[x] == 0 && !old_visited[x]);
                        } else {
                            assert(order[k as int] == vertex);
                        }
                    }
                }
            }
            k = next;
        }
        proof {
            assert(order.subrange(0, k as int) =~= order);
        }
        Ok(())
    }
}

} // verus!

verus! {

/// Counterexample to a triangle manifold.
#[derive(Debug, Clone, Copy, PartialEq, Eq, Structural)]
pub enum TriangleRejection {
    Regular(RegularRejection),
    WrongDimension { actual: usize },
    VertexLink { vertex: usize },
}

impl TriangleRejection {
    /// The classification of the rejection.
    pub fn error(self) -> (r: TopologyError)
        ensures
            self matches TriangleRejection::Regular(inner) ==> r == inner.classified(),
            self matches TriangleRejection::WrongDimension { actual } ==> r == TopologyError::TriangleDimension(actual),
            self matches TriangleRejection::VertexLink { vertex } ==> r == TopologyError::VertexLink(vertex),
    {
        match self {
            TriangleRejection::Regular(inner) => inner.error(),
            TriangleRejection::WrongDimension { actual } => TopologyError::TriangleDimension(actual),
            TriangleRejection::VertexLink { vertex } => TopologyError::VertexLink(vertex),
        }
    }
}

/// Whether `core` is a two-dimensional triangle manifold: every vertex link
/// is a single simple path or cycle.
pub open spec fn triangle_manifold(core: ComplexCore) -> bool {
    &&& core.spec_dimension() == 2
    &&& forall|v: int| 0 <= v < core.spec_vertex_count() ==> #[trigger] link_valid(link(core, v))
}

/// The canonical triangle-manifold verdict of a regular `core`.
pub open spec fn triangle_verdict(core: ComplexCore, verdict: DomainVerdict<(), TriangleRejection>) -> bool {
    if core.spec_dimension() != 2 {
        verdict matches DomainVerdict::Rejected(TriangleRejection::WrongDimension { actual }) && actual
            == core.spec_dimension()
    } else if triangle_manifold(core) {
        verdict is Admitted
    } else {
        verdict matches DomainVerdict::Rejected(TriangleRejection::VertexLink { vertex }) && {
            &&& 0 <= vertex < core.spec_vertex_count()
            &&& !link_valid(link(core, vertex as int))
            &&& forall|u: int| 0 <= u < vertex ==> #[trigger] link_valid(link(core, u))
        }
    }
}

/// The refusal owed by a complex that is not a triangle manifold: that of
/// regularity first, then the dimension when it is not two, else the first
/// vertex whose link is not a single simple path or cycle.
pub open spec fn triangle_failure(core: ComplexCore, e: TopologyError) -> bool {
    if !regular(core) {
        regular_failure(core, e)
    } else if core.spec_dimension() != 2 {
        e == TopologyError::TriangleDimension(core.spec_dimension() as usize)
    } else {
        e matches TopologyError::VertexLink(v) && 0 <= v < core.spec_vertex_count() && !link_valid(
            link(core, v as int),
        ) && forall|u: int| 0 <= u < v ==> #[trigger] link_valid(link(core, u))
    }
}

/// The link edges of a vertex join vertices of the extent.
proof fn lemma_link_extent(core: ComplexCore, v: int)
    requires
        core.core_inv(),
        core.spec_dimension() == 2,
        top_values(core).len() <= usize::MAX,
    ensures
        forall|i: int|
            0 <= i < link(core, v).len() ==> #[trigger] link(core, v)[i].0 < core.spec_vertex_count() && link(
                core,
                v,
            )[i].1 < core.spec_vertex_count(),
{
    let values = top_values(core);
    let top = core.spec_bases()[2];
    assert(top.shape_inv());
    top.lemma_shape_bounds();
    let b = bucket(values, values.len() as int, v);
    lemma_bucket_members(values, values.len() as int, v);
    assert forall|i: int| 0 <= i < link(core, v).len() implies #[trigger] link(core, v)[i].0
        < core.spec_vertex_count() && link(core, v)[i].1 < core.spec_vertex_count() by {
        let q = b[i] as int;
        let t = q / 3;
        assert(0 <= t < top.spec_row_count()) by (nonlinear_arith)
            requires
                0 <= q < top.spec_row_count() * 3,
                t == q / 3,
        ;
        lemma_entry_in_extent(core, 2, t, 0);
        lemma_entry_in_extent(core, 2, t, 1);
        lemma_entry_in_extent(core, 2, t, 2);
    }
}

/// The canonical triangle-manifold verdict of a regular owner.
pub fn compute_triangle(owner: &ComplexCore) -> (r: Result<DomainVerdict<(), TriangleRejection>, TopologyError>)
    requires
        regular(*owner),
    ensures
        r matches Ok(verdict) && triangle_verdict(*owner, verdict),
{
    proof {
        use_type_invariant(owner);
    }
    let ghost core = *owner;
    let dimension = owner.dimension();
    if dimension != 2 {
        return Ok(DomainVerdict::Rejected(TriangleRejection::WrongDimension { actual: dimension }));
    }
    let links = match CenteredLinkEdges::partition(owner) {
        Ok(l) => l,
        Err(e) => return Err(e),
    };
    let vertex_count = owner.vertex_count();
    let top_length = match owner.basis(2) {
        Ok(b) => b.values().len(),
        Err(e) => return Err(e),
    };
    let mut scratch = LinkScratch::try_new(vertex_count);
    let mut v: usize = 0;
    while v < vertex_count
        invariant
            core == *owner,
            core.core_inv(),
            core.spec_dimension() == 2,
            top_length == top_values(core).len(),
            links.of(core),
            vertex_count == core.spec_vertex_count(),
            scratch.clean(vertex_count as int),
            v <= vertex_count,
            forall|u: int| 0 <= u < v ==> #[trigger] link_valid(link(core, u)),
        decreases vertex_count - v,
    {
        let edges = links.for_center(v, Ghost(core));
        proof {
            lemma_link_extent(core, v as int);
        }
        match scratch.validate(edges, Ghost(vertex_count as int)) {
            Ok(()) => {},
            Err(_) => {
                return Ok(DomainVerdict::Rejected(TriangleRejection::VertexLink { vertex: v }));
            },
        }
        v = v + 1;
    }
    Ok(DomainVerdict::Admitted(()))
}

} // verus!

verus! {

/// Whether the boundary edges of `core` form one component and its Euler
/// characteristic is one, for some labelling by the finest partition that
/// joins the ends of every boundary edge.
pub open spec fn disk_shaped(core: ComplexCore) -> bool {
    let counts = core.spec_layout().spec_counts();
    let pairs = boundary_pairs(core, edge_count(core));
    &&& euler_characteristic(counts, counts.len() as int) == 1
    &&& exists|rep: Seq<int>|
        finest_classes(rep, pairs, core.spec_vertex_count() as int) && #[trigger] paired_roots(
            rep,
            pairs,
            core.spec_vertex_count() as int,
        ) == 1
}

/// Whether `core` is an oriented, connected triangle manifold with nonempty
/// boundary that is shaped like a disk.
pub open spec fn disk(core: ComplexCore) -> bool {
    &&& regular(core)
    &&& triangle_manifold(core)
    &&& oriented(core)
    &&& connected(core)
    &&& has_boundary(core)
    &&& disk_shaped(core)
}

impl<'a> RegularView<'a> {
    /// Whether some codimension-one simplex has exactly one top coface.
    pub(crate) fn boundary_nonempty(&self) -> (r: bool)
        ensures
            r == has_boundary(self.spec_owner()),
    {
        proof {
            use_type_invariant(self);
        }
        match self.row.kind {
            BoundaryKind::Empty => false,
            BoundaryKind::NonEmpty { .. } => true,
        }
    }
}

/// Borrowed proof of two-dimensional triangle-manifold topology.
#[derive(Debug)]
pub struct TriangleView<'a> {
    regular: RegularView<'a>,
}

impl<'a> TriangleView<'a> {
    #[verifier::type_invariant]
    closed spec fn triangle_inv(&self) -> bool {
        triangle_manifold(self.regular.spec_owner())
    }

    pub closed spec fn spec_regular(&self) -> RegularView<'a> {
        self.regular
    }

    pub open spec fn spec_owner(&self) -> ComplexCore {
        self.spec_regular().spec_owner()
    }

    /// The owner whose triangle-manifold topology this view proves.
    pub fn owner(&self) -> (r: &'a ComplexCore)
        ensures
            *r == self.spec_owner(),
            triangle_manifold(*r),
            regular(*r),
    {
        proof {
            use_type_invariant(self);
        }
        self.regular.owner()
    }

    /// The regularity evidence of the same owner.
    pub fn regular(&self) -> (r: &RegularView<'a>)
        ensures
            *r == self.spec_regular(),
            triangle_manifold(r.spec_owner()),
    {
        proof {
            use_type_invariant(self);
        }
        &self.regular
    }
}

/// Borrowed proof that one connected oriented triangle manifold is a disk.
#[derive(Debug)]
pub struct DiskView<'a> {
    triangle: TriangleView<'a>,
}

impl<'a> DiskView<'a> {
    #[verifier::type_invariant]
    closed spec fn disk_inv(&self) -> bool {
        disk(self.triangle.spec_owner())
    }

    pub closed spec fn spec_triangle(&self) -> TriangleView<'a> {
        self.triangle
    }

    pub open spec fn spec_owner(&self) -> ComplexCore {
        self.spec_triangle().spec_owner()
    }

    /// The owner this view proves to be a disk.
    pub fn owner(&self) -> (r: &'a ComplexCore)
        ensures
            *r == self.spec_owner(),
            disk(*r),
    {
        proof {
            use_type_invariant(self);
        }
        self.triangle.owner()
    }

    /// The triangle-manifold evidence of the same owner.
    pub fn triangle(&self) -> (r: &TriangleView<'a>)
        ensures
            *r == self.spec_triangle(),
            disk(r.spec_owner()),
    {
        proof {
            use_type_invariant(self);
        }
        &self.triangle
    }
}

impl ComplexCore {
    /// The triangle-manifold verdict, after regularity.
    pub fn refine_triangle(&self) -> (r: Result<TriangleView<'_>, TopologyError>)
        ensures
            r is Ok <==> regular(*self) && triangle_manifold(*self),
            r matches Ok(view) ==> view.spec_owner() == *self,
            r matches Err(e) ==> triangle_failure(*self, e),
    {
        let regular = match self.refine_regular() {
            Ok(view) => view,
            Err(e) => return Err(e),
        };
        match compute_triangle(self) {
            Ok(DomainVerdict::Admitted(())) => Ok(TriangleView { regular }),
            Ok(DomainVerdict::Rejected(rejection)) => Err(rejection.error()),
            Err(e) => Err(e),
        }
    }

    /// The disk verdict, after the triangle-manifold, orientation,
    /// connectivity and nonempty-boundary verdicts.
    pub fn refine_disk(&self) -> (r: Result<DiskView<'_>, TopologyError>)
        ensures
            r matches Ok(view) ==> view.spec_owner() == *self && disk(*self),
            r is Err ==> match r {
                Err(e) => if !(regular(*self) && triangle_manifold(*self)) {
                    triangle_failure(*self, e)
                } else if !oriented(*self) {
                    orientation_failure(*self, e)
                } else if !connected(*self) {
                    connected_failure(*self, e)
                } else if !has_boundary(*self) {
                    e == TopologyError::BoundaryAbsent
                } else {
                    e is DiskBoundaryComponents || e is DiskEulerCharacteristic
                },
                Ok(_) => true,
            },
            r matches Err(TopologyError::DiskBoundaryComponents(c)) ==> c != 1 && exists|rep: Seq<int>|
                finest_classes(rep, boundary_pairs(*self, edge_count(*self)), self.spec_vertex_count() as int)
                    && #[trigger] paired_roots(
                    rep,
                    boundary_pairs(*self, edge_count(*self)),
                    self.spec_vertex_count() as int,
                ) == c,
            r matches Err(TopologyError::DiskEulerCharacteristic(x)) ==> x == euler_characteristic(
                self.spec_layout().spec_counts(),
                self.spec_layout().spec_counts().len() as int,
            ) && x != 1,
    {
        let triangle = match self.refine_triangle() {
            Ok(view) => view,
            Err(e) => return Err(e),
        };
        match self.refine_oriented() {
            Ok(_) => {},
            Err(e) => return Err(e),
        }
        match self.refine_connected() {
            Ok(_) => {},
            Err(e) => return Err(e),
        }
        if !triangle.regular().boundary_nonempty() {
            return Err(TopologyError::BoundaryAbsent);
        }
        let evidence = triangle.regular().evidence();
        match compute_disk(self, evidence) {
            Ok(DomainVerdict::Admitted(())) => Ok(DiskView { triangle }),
            Ok(DomainVerdict::Rejected(rejection)) => Err(rejection.error()),
            Err(e) => Err(e),
        }
    }
}

} // verus!

verus! {

/// The boundary edge `e` directed by the sign `c` of its top coface:
/// from its low to its high vertex for `1`, reversed otherwise.
pub open spec fn edge_arc(core: ComplexCore, e: int, c: i8) -> (int, int) {
    let row = core.spec_bases()[1].rows()[e];
    if c == 1 {
        (row[0] as int, row[1] as int)
    } else {
        (row[1] as int, row[0] as int)
    }
}

/// The directed boundary arcs of the first `k` edges of a triangle complex:
/// each boundary edge directed by each of its coface signs, in edge order.
pub open spec fn boundary_arcs(core: ComplexCore, k: int) -> Seq<(int, int)>
    decreases k,
{
    if k <= 0 {
        Seq::empty()
    } else if on_boundary(core, 1, k - 1) {
        boundary_arcs(core, k - 1) + coface_signs(core, k - 1).map_values(|c: i8| edge_arc(core, k - 1, c))
    } else {
        boundary_arcs(core, k - 1)
    }
}

/// Whether every coface sign of the boundary edges among the first `k` is a
/// unit.
pub open spec fn unit_boundary_signs(core: ComplexCore, k: int) -> bool {
    forall|e: int, p: int|
        0 <= e < k && on_boundary(core, 1, e) && 0 <= p < coface_signs(core, e).len() ==> #[trigger] coface_signs(
            core,
            e,
        )[p] == 1 || coface_signs(core, e)[p] == -1
}

/// Whether some arc leaves `x`.
pub open spec fn leaves(arcs: Seq<(int, int)>, x: int) -> bool {
    exists|j: int| 0 <= j < arcs.len() && #[trigger] arcs[j].0 == x
}

/// Whether `(x, y)` is one of the arcs.
pub open spec fn has_arc(arcs: Seq<(int, int)>, x: int, y: int) -> bool {
    exists|j: int| 0 <= j < arcs.len() && #[trigger] arcs[j] == (x, y)
}

/// Whether no two arcs leave the same vertex.
pub open spec fn distinct_sources(arcs: Seq<(int, int)>) -> bool {
    forall|i: int, j: int| 0 <= i < j < arcs.len() ==> #[trigger] arcs[i].0 != #[trigger] arcs[j].0
}

/// Whether `cycle` walks the arcs once each around one closed cycle from the
/// least vertex that an arc leaves.
pub open spec fn arc_cycle(arcs: Seq<(int, int)>, cycle: Seq<usize>) -> bool {
    let n = cycle.len() as int;
    &&& n == arcs.len()
    &&& n > 0
    &&& distinct_sources(arcs)
    &&& forall|i: int| 0 <= i < n ==> has_arc(arcs, #[trigger] cycle[i] as int, cycle[(i + 1) % n] as int)
    &&& forall|i: int, j: int| 0 <= i < j < n ==> #[trigger] cycle[i] != #[trigger] cycle[j]
    &&& leaves(arcs, cycle[0] as int)
    &&& forall|x: int| 0 <= x < cycle[0] ==> !#[trigger] leaves(arcs, x)
}

} // verus!

verus! {

/// Whether `successor` maps each vertex left by an arc to its target, and
/// every other vertex to `usize::MAX`.
pub open spec fn successor_of(arcs: Seq<(int, int)>, successor: Seq<usize>, n: int) -> bool {
    &&& successor.len() == n
    &&& forall|x: int|
        0 <= x < n ==> (#[trigger] successor[x] != usize::MAX <==> leaves(arcs, x)) && (successor[x]
            != usize::MAX ==> successor[x] < n && has_arc(arcs, x, successor[x] as int))
}

proof fn lemma_arcs_push(arcs: Seq<(int, int)>, arc: (int, int))
    ensures
        forall|x: int| #[trigger] leaves(arcs.push(arc), x) == (leaves(arcs, x) || arc.0 == x),
        forall|x: int, y: int| has_arc(arcs, x, y) ==> #[trigger] has_arc(arcs.push(arc), x, y),
        has_arc(arcs.push(arc), arc.0, arc.1),
{
    let longer = arcs.push(arc);
    assert(longer[arcs.len() as int] == arc);
    assert forall|x: int| #[trigger] leaves(longer, x) == (leaves(arcs, x) || arc.0 == x) by {
        if leaves(arcs, x) {
            let j = choose|j: int| 0 <= j < arcs.len() && #[trigger] arcs[j].0 == x;
            assert(longer[j] == arcs[j]);
        }
        if leaves(longer, x) && arc.0 != x {
            let j = choose|j: int| 0 <= j < longer.len() && #[trigger] longer[j].0 == x;
            assert(arcs[j] == longer[j]);
        }
    }
    assert forall|x: int, y: int| has_arc(arcs, x, y) implies #[trigger] has_arc(longer, x, y) by {
        let j = choose|j: int| 0 <= j < arcs.len() && #[trigger] arcs[j] == (x, y);
        assert(longer[j] == arcs[j]);
    }
}

/// The arcs of the first `k` edges begin the arcs of the first `m`.
proof fn lemma_boundary_arcs_prefix(core: ComplexCore, k: int, m: int)
    requires
        0 <= k <= m,
    ensures
        boundary_arcs(core, k).len() <= boundary_arcs(core, m).len(),
        forall|i: int| 0 <= i < boundary_arcs(core, k).len() ==> #[trigger] boundary_arcs(core, m)[i] == boundary_arcs(core, k)[i],
    decreases m - k,
{
    if k < m {
        lemma_boundary_arcs_prefix(core, k, m - 1);
        let prev = boundary_arcs(core, m - 1);
        if on_boundary(core, 1, m - 1) {
            let longer = prev + coface_signs(core, m - 1).map_values(|c: i8| edge_arc(core, m - 1, c));
            assert(boundary_arcs(core, m) == longer);
            assert forall|i: int| 0 <= i < boundary_arcs(core, k).len() implies #[trigger] boundary_arcs(core, m)[i]
                == boundary_arcs(core, k)[i] by {
                assert(longer[i] == prev[i]);
            }
        } else {
            assert(boundary_arcs(core, m) == prev);
        }
    }
}

/// Both ends of every boundary arc are vertices of the complex.
proof fn lemma_boundary_arcs_in_extent(core: ComplexCore, k: int)
    requires
        core.core_inv(),
        core.spec_dimension() == 2,
        0 <= k <= edge_count(core),
    ensures
        forall|j: int|
            0 <= j < boundary_arcs(core, k).len() ==> 0 <= (#[trigger] boundary_arcs(core, k)[j]).0
                < core.spec_vertex_count() && 0 <= boundary_arcs(core, k)[j].1 < core.spec_vertex_count(),
    decreases k,
{
    if k > 0 {
        lemma_boundary_arcs_in_extent(core, k - 1);
        lemma_entry_in_extent(core, 1, k - 1, 0);
        lemma_entry_in_extent(core, 1, k - 1, 1);
        let prev = boundary_arcs(core, k - 1);
        if on_boundary(core, 1, k - 1) {
            let extra = coface_signs(core, k - 1).map_values(|c: i8| edge_arc(core, k - 1, c));
            assert(boundary_arcs(core, k) == prev + extra);
            assert forall|j: int| 0 <= j < boundary_arcs(core, k).len() implies 0 <= (#[trigger] boundary_arcs(
                core,
                k,
            )[j]).0 < core.spec_vertex_count() && 0 <= boundary_arcs(core, k)[j].1 < core.spec_vertex_count() by {
                if j >= prev.len() {
                    assert(boundary_arcs(core, k)[j] == edge_arc(core, k - 1, coface_signs(core, k - 1)[j - prev.len()]));
                } else {
                    assert(boundary_arcs(core, k)[j] == prev[j]);
                }
            }
        }
    }
}

/// The successor of every vertex along the directed boundary arcs of a
/// triangle complex with regularity evidence, and the number of arcs;
/// `InternalInvariant` for a non-unit sign or two arcs leaving one vertex.
fn boundary_successors(owner: &ComplexCore, evidence: &RegularEvidence) -> (r: Result<
    (Vec<usize>, usize),
    TopologyError,
>)
    requires
        owner.spec_dimension() == 2,
        evidence.of(*owner),
    ensures
        r is Err ==> r == Err::<(Vec<usize>, usize), TopologyError>(TopologyError::InternalInvariant),
        r is Err ==> !(unit_boundary_signs(*owner, edge_count(*owner)) && distinct_sources(
            boundary_arcs(*owner, edge_count(*owner)),
        )),
        r matches Ok((successor, count)) ==> {
            let arcs = boundary_arcs(*owner, edge_count(*owner));
            &&& unit_boundary_signs(*owner, edge_count(*owner))
            &&& distinct_sources(arcs)
            &&& count == arcs.len()
            &&& successor_of(arcs, successor@, owner.spec_vertex_count() as int)
        },
{
    proof {
        use_type_invariant(owner);
    }
    let ghost core = *owner;
    let vertex_count = owner.vertex_count();
    let layout = owner.layout();
    let masks = &evidence.boundary;
    let edges = match owner.basis(1) {
        Ok(b) => b,
        Err(_) => return Err(TopologyError::InternalInvariant),
    };
    let boundary = match owner.boundary(2) {
        Ok(b) => b,
        Err(_) => return Err(TopologyError::InternalInvariant),
    };
    let indptr = boundary.indptr();
    let data = boundary.data();
    let edge_total = edges.row_count();
    let ghost counts = core.spec_layout().spec_counts();
    proof {
        edges.lemma_shape_bounds();
        assert(counts[1] == edge_total);
        assert(indptr@.len() == edge_total + 1);
        assert(codimension_one_count(core) == edge_total);
    }
    let mut successor: Vec<usize> = Vec::new();
    let mut v: usize = 0;
    while v < vertex_count
        invariant
            v <= vertex_count,
            successor@.len() == v,
            forall|u: int| 0 <= u < v ==> #[trigger] successor@[u] == usize::MAX,
        decreases vertex_count - v,
    {
        successor.push(usize::MAX);
        v = v + 1;
    }
    proof {
        assert forall|x: int| 0 <= x < vertex_count implies (#[trigger] successor@[x] != usize::MAX <==> leaves(
            boundary_arcs(core, 0),
            x,
        )) by {
            assert(boundary_arcs(core, 0).len() == 0);
        }
    }
    let mut count: usize = 0;
    let mut e: usize = 0;
    while e < edge_total
        invariant
            core == *owner,
            core.core_inv(),
            core.spec_dimension() == 2,
            evidence.of(core),
            *masks == evidence.spec_boundary(),
            *layout == core.spec_layout(),
            counts == core.spec_layout().spec_counts(),
            counts[1] == edge_total,
            *edges == core.spec_bases()[1],
            edge_total == edge_count(core),
            edge_total == codimension_one_count(core),
            vertex_count == core.spec_vertex_count(),
            indptr@ == core.spec_boundaries()[2].spec_storage().spec_indptr(),
            data@ == core.spec_boundaries()[2].spec_storage().spec_values(),
            row_pointers_of(indptr@, edge_total as int),
            indptr@[edge_total as int] == data@.len(),
            e <= edge_total,
            unit_boundary_signs(core, e as int),
            distinct_sources(boundary_arcs(core, e as int)),
            count == boundary_arcs(core, e as int).len(),
            count <= indptr@[e as int],
            successor_of(boundary_arcs(core, e as int), successor@, vertex_count as int),
        decreases edge_total - e,
    {
        let on = match masks.contains(1, e, layout) {
            Ok(b) => b,
            Err(_) => return Err(TopologyError::InternalInvariant),
        };
        proof {
            assert(in_layout(counts, 1, e as int));
        }
        let ghost before = boundary_arcs(core, e as int);
        if !on {
            proof {
                assert(boundary_arcs(core, e + 1) == before);
                assert(indptr@[e as int] <= indptr@[e + 1]);
                assert forall|x: int, p: int|
                    0 <= x < e + 1 && on_boundary(core, 1, x) && 0 <= p < coface_signs(core, x).len() implies #[trigger] coface_signs(
                    core,
                    x,
                )[p] == 1 || coface_signs(core, x)[p] == -1 by {
                    assert(x < e);
                }
            }
            e = e + 1;
            continue;
        }
        let row = match edges.row(e) {
            Some(r) => r,
            None => return Err(TopologyError::InternalInvariant),
        };
        proof {
            lemma_entry_in_extent(core, 1, e as int, 0);
            lemma_entry_in_extent(core, 1, e as int, 1);
        }
        let low = row[0];
        let high = row[1];
        let start = indptr[e];
        let end = indptr[e + 1];
        proof {
            assert(start <= end <= indptr@[edge_total as int]);
            assert(start <= end);
        }
        let ghost signs = coface_signs(core, e as int);
        let mut p: usize = start;
        while p < end
            invariant
                core == *owner,
                core.core_inv(),
                core.spec_dimension() == 2,
                vertex_count == core.spec_vertex_count(),
                e < edge_total,
                edge_total == codimension_one_count(core),
                on_boundary(core, 1, e as int),
                row@ == core.spec_bases()[1].rows()[e as int],
                low == row@[0],
                high == row@[1],
                low < vertex_count,
                high < vertex_count,
                data@ == core.spec_boundaries()[2].spec_storage().spec_values(),
                start == indptr@[e as int],
                end == indptr@[e + 1],
                start <= p <= end <= data@.len(),
                count <= p,
                signs == data@.subrange(start as int, end as int),
                signs == coface_signs(core, e as int),
                unit_boundary_signs(core, e as int),
                before == boundary_arcs(core, e as int),
                edge_total == edge_count(core),
                forall|q: int| 0 <= q < p - start ==> #[trigger] signs[q] == 1 || signs[q] == -1,
                distinct_sources(before + signs.take(p - start).map_values(|c: i8| edge_arc(core, e as int, c))),
                count == (before + signs.take(p - start).map_values(|c: i8| edge_arc(core, e as int, c))).len(),
                successor_of(
                    before + signs.take(p - start).map_values(|c: i8| edge_arc(core, e as int, c)),
                    successor@,
                    vertex_count as int,
                ),
            decreases end - p,
        {
            let ghost done = before + signs.take(p - start).map_values(|c: i8| edge_arc(core, e as int, c));
            let sign = data[p];
            let (source, target) = if sign == 1 {
                (low, high)
            } else if sign == -1 {
                (high, low)
            } else {
                proof {
                    assert(signs[p - start] == sign);
                    assert(!(coface_signs(core, e as int)[p - start] == 1 || coface_signs(core, e as int)[p - start] == -1));
                    assert(!unit_boundary_signs(core, edge_count(core)));
                }
                return Err(TopologyError::InternalInvariant);
            };
            if successor[source] != usize::MAX {
                proof {
                    let arc = (source as int, target as int);
                    assert(signs[p - start] == sign);
                    assert(arc == edge_arc(core, e as int, sign));
                    assert(leaves(done, source as int));
                    let j = choose|j: int| 0 <= j < done.len() && #[trigger] done[j].0 == source as int;
                    let full = boundary_arcs(core, edge_count(core));
                    let next_arcs = boundary_arcs(core, e + 1);
                    assert(next_arcs == before + signs.map_values(|c: i8| edge_arc(core, e as int, c)));
                    assert(next_arcs[j] == done[j]) by {
                        if j < before.len() {
                        } else {
                            assert(done[j] == edge_arc(core, e as int, signs[j - before.len()]));
                        }
                    }
                    assert(next_arcs[done.len() as int] == arc);
                    lemma_boundary_arcs_prefix(core, e + 1, edge_count(core));
                    assert(full[j] == next_arcs[j]);
                    assert(full[done.len() as int] == next_arcs[done.len() as int]);
                    assert(full[j].0 == full[done.len() as int].0);
                    assert(!distinct_sources(full));
                }
                return Err(TopologyError::InternalInvariant);
            }
            let ghost arc = (source as int, target as int);
            proof {
                assert(signs[p - start] == sign);
                assert(arc == edge_arc(core, e as int, sign));
                assert(before + signs.take(p - start + 1).map_values(|c: i8| edge_arc(core, e as int, c))
                    =~= done.push(arc));
                lemma_arcs_push(done, arc);
            }
            successor.set(source, target);
            count = count + 1;
            proof {
                let longer = done.push(arc);
                assert(!leaves(done, source as int));
                assert forall|i: int, j: int| 0 <= i < j < longer.len() implies #[trigger] longer[i].0
                    != #[trigger] longer[j].0 by {
                    if j == done.len() {
                        assert(longer[i] == done[i]);
                        if longer[i].0 == source {
                            assert(leaves(done, source as int));
                        }
                    } else {
                        assert(longer[i] == done[i] && longer[j] == done[j]);
                    }
                }
            }
            p = p + 1;
        }
        proof {
            assert(signs.take(end - start) =~= signs);
            assert(boundary_arcs(core, e + 1) == before + signs.map_values(|c: i8| edge_arc(core, e as int, c)));
            assert forall|x: int, q: int|
                0 <= x < e + 1 && on_boundary(core, 1, x) && 0 <= q < coface_signs(core, x).len() implies #[trigger] coface_signs(
                core,
                x,
            )[q] == 1 || coface_signs(core, x)[q] == -1 by {
                if x == e {
                    assert(signs[q] == 1 || signs[q] == -1);
                }
            }
        }
        e = e + 1;
    }
    Ok((successor, count))
}

} // verus!

verus! {

/// An arc cycle is nonempty, as long as the arcs, and starts at its least
/// leaving vertex.
proof fn lemma_cycle_facts(arcs: Seq<(int, int)>, c: Seq<usize>)
    requires
        arc_cycle(arcs, c),
    ensures
        c.len() == arcs.len(),
        c.len() > 0,
        leaves(arcs, c[0] as int),
        forall|x: int| 0 <= x < c[0] ==> !#[trigger] leaves(arcs, x),
{
}

/// Along an arc cycle with distinct sources, the successor of the `i`-th
/// vertex is the next vertex of the cycle.
proof fn lemma_cycle_step(arcs: Seq<(int, int)>, c: Seq<usize>, i: int, successor: Seq<usize>, n: int)
    requires
        arc_cycle(arcs, c),
        0 <= i < c.len(),
        successor_of(arcs, successor, n),
        forall|j: int| 0 <= j < arcs.len() ==> 0 <= (#[trigger] arcs[j]).0 < n,
    ensures
        0 <= c[i] < n,
        successor[c[i] as int] != usize::MAX,
        successor[c[i] as int] == c[(i + 1) % (c.len() as int)],
{
    let m = c.len() as int;
    assert(has_arc(arcs, c[i] as int, c[(i + 1) % m] as int));
    let w = choose|w: int| 0 <= w < arcs.len() && #[trigger] arcs[w] == (c[i] as int, c[(i + 1) % m] as int);
    assert(arcs[w].0 == c[i]);
    assert(leaves(arcs, c[i] as int));
    assert(has_arc(arcs, c[i] as int, successor[c[i] as int] as int));
    let v = choose|v: int| 0 <= v < arcs.len() && #[trigger] arcs[v] == (c[i] as int, successor[c[i] as int] as int);
    if v != w {
        if v < w {
            assert(arcs[v].0 != arcs[w].0);
        } else {
            assert(arcs[w].0 != arcs[v].0);
        }
    }
}

/// Whether the boundary signs are units and the boundary arcs form one
/// cycle.
#[verifier::opaque]
pub open spec fn boundary_one_cycle(core: ComplexCore) -> bool {
    unit_boundary_signs(core, edge_count(core)) && exists|c: Seq<usize>| #[trigger] arc_cycle(
        boundary_arcs(core, edge_count(core)),
        c,
    )
}

/// The walk along `successor` from `start` visits the `count` distinct
/// vertices of `c` in order and returns to `start`.
pub open spec fn walk_facts(c: Seq<usize>, successor: Seq<usize>, count: int, n: int, start: int) -> bool {
    &&& c.len() == count
    &&& count > 0
    &&& c[0] == start
    &&& forall|j: int|
        0 <= j < count ==> 0 <= #[trigger] c[j] < n && successor[c[j] as int] != usize::MAX && successor[c[j] as int]
            == c[(j + 1) % count]
    &&& forall|a: int, b: int| 0 <= a < b < count ==> #[trigger] c[a] != #[trigger] c[b]
}

proof fn lemma_walk_facts(arcs: Seq<(int, int)>, c: Seq<usize>, successor: Seq<usize>, n: int)
    requires
        arc_cycle(arcs, c),
        successor_of(arcs, successor, n),
        forall|j: int| 0 <= j < arcs.len() ==> 0 <= (#[trigger] arcs[j]).0 < n,
    ensures
        forall|j: int|
            0 <= j < c.len() ==> 0 <= #[trigger] c[j] < n && successor[c[j] as int] != usize::MAX && successor[c[j]
                as int] == c[(j + 1) % (c.len() as int)],
{
    assert forall|j: int| 0 <= j < c.len() implies 0 <= #[trigger] c[j] < n && successor[c[j] as int] != usize::MAX
        && successor[c[j] as int] == c[(j + 1) % (c.len() as int)] by {
        lemma_cycle_step(arcs, c, j, successor, n);
    }
}

impl<'a> DiskView<'a> {
    /// Boundary vertices in the orientation induced by the coherent face
    /// chain: the cycle of directed boundary arcs, from the least boundary
    /// vertex. `InternalInvariant` when the arcs do not form one such cycle.
    #[verifier::spinoff_prover]
    #[verifier::rlimit(80)]
    pub fn boundary_vertices(&self) -> (r: Result<Vec<usize>, TopologyError>)
        ensures
            r is Err ==> r == Err::<Vec<usize>, TopologyError>(TopologyError::InternalInvariant),
            r matches Ok(cycle) ==> unit_boundary_signs(self.spec_owner(), edge_count(self.spec_owner()))
                && arc_cycle(boundary_arcs(self.spec_owner(), edge_count(self.spec_owner())), cycle@),
            r is Err ==> !(unit_boundary_signs(self.spec_owner(), edge_count(self.spec_owner())) && exists|c: Seq<
                usize,
            >| #[trigger] arc_cycle(boundary_arcs(self.spec_owner(), edge_count(self.spec_owner())), c)),
    {
        proof {
            use_type_invariant(self);
        }
        let owner = self.triangle.owner();
        let evidence = self.triangle.regular().evidence();
        let ghost core = *owner;
        let ghost arcs = boundary_arcs(core, edge_count(core));
        let (successor, count) = match boundary_successors(owner, evidence) {
            Ok(found) => found,
            Err(e) => return Err(e),
        };
        let vertex_count = owner.vertex_count();
        let ghost has = boundary_one_cycle(core);
        let ghost c0 = choose|c: Seq<usize>| #[trigger] arc_cycle(arcs, c);
        proof {
            use_type_invariant(owner);
            reveal(boundary_one_cycle);
            lemma_boundary_arcs_in_extent(core, edge_count(core));
            if has {
                assert(arc_cycle(arcs, c0));
                lemma_cycle_facts(arcs, c0);
            }
        }
        let mut start: usize = 0;
        while start < vertex_count && successor[start] == usize::MAX
            invariant
                start <= vertex_count,
                successor_of(arcs, successor@, vertex_count as int),
                forall|x: int| 0 <= x < start ==> #[trigger] successor@[x] == usize::MAX,
            decreases vertex_count - start,
        {
            start = start + 1;
        }
        if start == vertex_count {
            proof {
                if has {
                    assert(leaves(arcs, c0[0] as int));
                    assert(successor@[c0[0] as int] == usize::MAX);
                }
            }
            return Err(TopologyError::InternalInvariant);
        }
        proof {
            if has {
                assert(leaves(arcs, c0[0] as int));
                if c0[0] < start {
                    assert(successor@[c0[0] as int] == usize::MAX);
                }
                if start < c0[0] {
                    assert(!leaves(arcs, start as int));
                }
            }
        }
        proof {
            assert(leaves(arcs, start as int));
            assert forall|x: int| 0 <= x < start implies !#[trigger] leaves(arcs, x) by {
                assert(successor@[x] == usize::MAX);
            }
            if has {
                lemma_walk_facts(arcs, c0, successor@, vertex_count as int);
                assert(walk_facts(c0, successor@, count as int, vertex_count as int, start as int));
            }
        }
        let mut visited: Vec<bool> = Vec::new();
        let mut v: usize = 0;
        while v < vertex_count
            invariant
                v <= vertex_count,
                visited@.len() == v,
                forall|u: int| 0 <= u < v ==> !#[trigger] visited@[u],
            decreases vertex_count - v,
        {
            visited.push(false);
            v = v + 1;
        }
        let mut cycle: Vec<usize> = Vec::new();
        let mut current = start;
        let mut i: usize = 0;
        while i < count
            invariant
                successor_of(arcs, successor@, vertex_count as int),
                start < vertex_count,
                current < vertex_count,
                visited@.len() == vertex_count,
                i <= count,
                cycle@.len() == i,
                i > 0 ==> cycle@[0] == start,
                i == 0 ==> current == start,
                i > 0 ==> has_arc(arcs, cycle@[i - 1] as int, current as int),
                forall|k: int| 0 <= k < i - 1 ==> has_arc(arcs, #[trigger] cycle@[k] as int, cycle@[k + 1] as int),
                forall|k: int| 0 <= k < i ==> #[trigger] cycle@[k] < vertex_count && visited@[cycle@[k] as int],
                forall|x: int| 0 <= x < vertex_count && #[trigger] visited@[x] ==> cycle@.contains(x as usize),
                forall|a: int, b: int| 0 <= a < b < i ==> #[trigger] cycle@[a] != #[trigger] cycle@[b],
                count == arcs.len(),
                core == self.spec_owner(),
                has == boundary_one_cycle(core),
                has ==> walk_facts(c0, successor@, count as int, vertex_count as int, start as int),
                has ==> cycle@ == c0.take(i as int),
                has && i < count ==> current == c0[i as int],
                has && i == count ==> current == start,
            decreases count - i,
        {
            proof {
                if has {
                    assert(current == c0[i as int]);
                    assert(current < vertex_count);
                    assert(successor@[current as int] != usize::MAX);
                    if visited@[current as int] {
                        assert(cycle@.contains(current));
                        let k = choose|k: int| 0 <= k < cycle@.len() && cycle@[k] == current;
                        assert(cycle@[k] == c0.take(i as int)[k]);
                        assert(c0.take(i as int)[k] == c0[k]);
                        assert(k < i);
                        assert(c0[k] != c0[i as int]);
                        assert(false);
                    }
                }
            }
            if current >= vertex_count || successor[current] == usize::MAX || visited[current] {
                proof {
                    reveal(boundary_one_cycle);
                }
                return Err(TopologyError::InternalInvariant);
            }
            let ghost previous = cycle@;
            visited.set(current, true);
            cycle.push(current);
            proof {
                assert forall|a: int, b: int| 0 <= a < b < i + 1 implies #[trigger] cycle@[a] != #[trigger] cycle@[b] by {
                    if b == i {
                        assert(cycle@[a] == previous[a]);
                        assert(visited@[previous[a] as int]);
                    }
                }
                assert forall|x: int| 0 <= x < vertex_count && #[trigger] visited@[x] implies cycle@.contains(x as usize) by {
                    if x == current {
                        assert(cycle@[i as int] == current);
                    } else {
                        assert(previous.contains(x as usize));
                        let k = choose|k: int| 0 <= k < previous.len() && previous[k] == x as usize;
                        assert(cycle@[k] == x as usize);
                    }
                }
            }
            let ghost at = current;
            current = successor[current];
            i = i + 1;
            proof {
                if has {
                    assert(cycle@ =~= c0.take(i as int));
                    assert(successor@[at as int] == c0[(i - 1 + 1) % (count as int)]);
                    if i < count {
                        assert((i - 1 + 1) % (count as int) == i) by (nonlinear_arith)
                            requires
                                0 < i < count,
                        ;
                    } else {
                        assert((i - 1 + 1) % (count as int) == 0) by (nonlinear_arith)
                            requires
                                i == count,
                                count > 0,
                        ;
                    }
                }
            }
        }
        if current != start || cycle.len() != count {
            proof {
                reveal(boundary_one_cycle);
            }
            return Err(TopologyError::InternalInvariant);
        }
        proof {
            let n = cycle@.len() as int;
            assert(n > 0) by {
                let j = choose|j: int| 0 <= j < arcs.len() && #[trigger] arcs[j].0 == start as int;
            }
            assert forall|k: int| 0 <= k < n implies has_arc(arcs, #[trigger] cycle@[k] as int, cycle@[(k + 1) % n] as int) by {
                if k < n - 1 {
                    assert((k + 1) % n == k + 1) by (nonlinear_arith)
                        requires
                            0 <= k + 1 < n,
                    ;
                } else {
                    assert((k + 1) % n == 0) by (nonlinear_arith)
                        requires
                            k + 1 == n,
                            n > 0,
                    ;
                }
            }
        }
        Ok(cycle)
    }
}

} // verus!

verus! {

/// Closes the capability traits to the views of this library.
pub trait Sealed {

}

/// A capability view belonging to one admitted simplicial complex.
pub trait SimplicialCapability: Sealed {
    spec fn spec_complex(&self) -> ComplexCore;

    /// The owner of the capability.
    fn complex(&self) -> (r: &ComplexCore)
        ensures
            *r == self.spec_complex(),
    ;
}

/// Entailment surface for codimension-one regular capability views.
pub trait CodimensionOneRegularCapability: SimplicialCapability {
    /// The regularity evidence of the same owner.
    fn as_regular(&self) -> (r: &RegularView<'_>)
        ensures
            r.spec_owner() == self.spec_complex(),
            regular(self.spec_complex()),
    ;
}

/// Triangle-manifold capability entails codimension-one regularity.
pub trait TriangleManifoldCapability: CodimensionOneRegularCapability {
}

/// Nonempty-boundary capability entails codimension-one regularity.
pub trait WithBoundaryCapability: CodimensionOneRegularCapability {
}

/// Empty-boundary capability entails codimension-one regularity.
pub trait WithoutBoundaryCapability: CodimensionOneRegularCapability {
}

/// Orientation is independent of regularity, connectivity and boundary.
pub trait OrientedCapability: SimplicialCapability {
}

/// Connectivity is independent of regularity, orientation and boundary.
pub trait ConnectedCapability: SimplicialCapability {
}

impl<'a> Sealed for RegularView<'a> {

}

impl<'a> Sealed for TriangleView<'a> {

}

impl<'a> Sealed for OrientedView<'a> {

}

impl<'a> Sealed for ConnectedView<'a> {

}

impl<'a> Sealed for WithBoundaryView<'a> {

}

impl<'a> Sealed for WithoutBoundaryView<'a> {

}

impl<'a> Sealed for DiskView<'a> {

}

impl<'a> SimplicialCapability for RegularView<'a> {
    open spec fn spec_complex(&self) -> ComplexCore {
        self.spec_owner()
    }

    fn complex(&self) -> (r: &ComplexCore) {
        self.owner()
    }
}

impl<'a> CodimensionOneRegularCapability for RegularView<'a> {
    fn as_regular(&self) -> (r: &RegularView<'_>) {
        proof {
            use_type_invariant(self);
        }
        self
    }
}

impl<'a> SimplicialCapability for TriangleView<'a> {
    open spec fn spec_complex(&self) -> ComplexCore {
        self.spec_owner()
    }

    fn complex(&self) -> (r: &ComplexCore) {
        self.owner()
    }
}

impl<'a> CodimensionOneRegularCapability for TriangleView<'a> {
    fn as_regular(&self) -> (r: &RegularView<'_>) {
        proof {
            use_type_invariant(self);
            use_type_invariant(&self.regular);
        }
        &self.regular
    }
}

impl<'a> TriangleManifoldCapability for TriangleView<'a> {

}

impl<'a> SimplicialCapability for WithBoundaryView<'a> {
    open spec fn spec_complex(&self) -> ComplexCore {
        self.spec_regular().spec_owner()
    }

    fn complex(&self) -> (r: &ComplexCore) {
        self.regular.owner()
    }
}

impl<'a> CodimensionOneRegularCapability for WithBoundaryView<'a> {
    fn as_regular(&self) -> (r: &RegularView<'_>) {
        proof {
            use_type_invariant(&self.regular);
        }
        &self.regular
    }
}

impl<'a> WithBoundaryCapability for WithBoundaryView<'a> {

}

impl<'a> SimplicialCapability for WithoutBoundaryView<'a> {
    open spec fn spec_complex(&self) -> ComplexCore {
        self.spec_regular().spec_owner()
    }

    fn complex(&self) -> (r: &ComplexCore) {
        self.regular.owner()
    }
}

impl<'a> CodimensionOneRegularCapability for WithoutBoundaryView<'a> {
    fn as_regular(&self) -> (r: &RegularView<'_>) {
        proof {
            use_type_invariant(&self.regular);
        }
        &self.regular
    }
}

impl<'a> WithoutBoundaryCapability for WithoutBoundaryView<'a> {

}

impl<'a> SimplicialCapability for OrientedView<'a> {
    open spec fn spec_complex(&self) -> ComplexCore {
        self.spec_owner()
    }

    fn complex(&self) -> (r: &ComplexCore) {
        self.owner()
    }
}

impl<'a> OrientedCapability for OrientedView<'a> {

}

impl<'a> SimplicialCapability for ConnectedView<'a> {
    open spec fn spec_complex(&self) -> ComplexCore {
        self.spec_owner()
    }

    fn complex(&self) -> (r: &ComplexCore) {
        self.owner()
    }
}

impl<'a> ConnectedCapability for ConnectedView<'a> {

}

impl<'a> SimplicialCapability for DiskView<'a> {
    open spec fn spec_complex(&self) -> ComplexCore {
        self.spec_owner()
    }

    fn complex(&self) -> (r: &ComplexCore) {
        self.owner()
    }
}

impl<'a> CodimensionOneRegularCapability for DiskView<'a> {
    fn as_regular(&self) -> (r: &RegularView<'_>) {
        proof {
            use_type_invariant(self);
            use_type_invariant(&self.triangle.regular);
        }
        &self.triangle.regular
    }
}

impl<'a> TriangleManifoldCapability for DiskView<'a> {

}

impl<'a> WithBoundaryCapability for DiskView<'a> {

}

impl<'a> OrientedCapability for DiskView<'a> {

}

impl<'a> ConnectedCapability for DiskView<'a> {

}

} // verus!

verus! {

/// Every arc turned around.
pub open spec fn reversed_arcs(arcs: Seq<(int, int)>) -> Seq<(int, int)> {
    arcs.map_values(|arc: (int, int)| (arc.1, arc.0))
}

/// The boundary cycle read backwards from the same start.
pub open spec fn reversed_cycle(cycle: Seq<usize>) -> Seq<usize> {
    Seq::new(cycle.len(), |i: int| cycle[(cycle.len() - i) % (cycle.len() as int)])
}

/// Whether `b` carries the boundary matrices of `a` with every top
/// coefficient negated: the same bases and boundary rows, opposite signs.
pub open spec fn reversed_orientation(a: ComplexCore, b: ComplexCore) -> bool {
    let ma = a.spec_boundaries()[2].spec_storage();
    let mb = b.spec_boundaries()[2].spec_storage();
    &&& a.spec_dimension() == 2
    &&& b.spec_dimension() == 2
    &&& a.spec_bases() == b.spec_bases()
    &&& a.spec_vertex_count() == b.spec_vertex_count()
    &&& ma.spec_indptr() == mb.spec_indptr()
    &&& ma.spec_values().len() == mb.spec_values().len()
    &&& forall|p: int| 0 <= p < ma.spec_values().len() ==> #[trigger] mb.spec_values()[p] == -ma.spec_values()[p]
}

proof fn lemma_reversed_arcs(a: ComplexCore, b: ComplexCore, k: int)
    requires
        reversed_orientation(a, b),
        0 <= k <= edge_count(a),
        unit_boundary_signs(a, k),
        row_pointers_of(a.spec_boundaries()[2].spec_storage().spec_indptr(), edge_count(a)),
        a.spec_boundaries()[2].spec_storage().spec_indptr()[edge_count(a)] == a.spec_boundaries()[2].spec_storage().spec_values().len(),
    ensures
        boundary_arcs(b, k) == reversed_arcs(boundary_arcs(a, k)),
    decreases k,
{
    if k > 0 {
        lemma_reversed_arcs(a, b, k - 1);
        let e = k - 1;
        assert(coface_count(a, e) == coface_count(b, e));
        assert(on_boundary(a, 1, e) == on_boundary(b, 1, e));
        if on_boundary(a, 1, e) {
            let ma = a.spec_boundaries()[2].spec_storage();
            let lo = ma.spec_indptr()[e] as int;
            let hi = ma.spec_indptr()[e + 1] as int;
            assert(lo <= hi <= ma.spec_values().len());
            let sa = coface_signs(a, e);
            let sb = coface_signs(b, e);
            let ra = sa.map_values(|c: i8| edge_arc(a, e, c));
            let rb = sb.map_values(|c: i8| edge_arc(b, e, c));
            assert(rb =~= ra.map_values(|arc: (int, int)| (arc.1, arc.0))) by {
                assert forall|q: int| 0 <= q < rb.len() implies rb[q] == (ra[q].1, ra[q].0) by {
                    assert(sa[q] == ma.spec_values()[lo + q]);
                    assert(sb[q] == -sa[q]);
                    assert(sa[q] == 1 || sa[q] == -1);
                }
            }
            assert(boundary_arcs(b, k) =~= reversed_arcs(boundary_arcs(a, k)));
        } else {
            assert(boundary_arcs(b, k) =~= reversed_arcs(boundary_arcs(a, k)));
        }
    }
}

/// Reversing every top-dimensional orientation of a disk keeps the start of
/// its boundary cycle and reverses the order of the remaining vertices.
pub proof fn law_reversed_orientation_reverses_boundary(
    a: ComplexCore,
    b: ComplexCore,
    cycle: Seq<usize>,
)
    requires
        a.core_inv(),
        reversed_orientation(a, b),
        unit_boundary_signs(a, edge_count(a)),
        arc_cycle(boundary_arcs(a, edge_count(a)), cycle),
    ensures
        unit_boundary_signs(b, edge_count(b)),
        arc_cycle(boundary_arcs(b, edge_count(b)), reversed_cycle(cycle)),
        reversed_cycle(cycle)[0] == cycle[0],
{
    let ma = a.spec_boundaries()[2].spec_storage();
    let upper = a.spec_bases()[2];
    let lower = a.spec_bases()[1];
    assert(boundary_built(
        a.spec_boundaries()[2],
        a.spec_immediate_faces()[2],
        upper.rows(),
        lower.rows(),
        a.spec_orientations()[2],
        2,
    ));
    lower.lemma_shape_bounds();
    assert(row_pointers_of(ma.spec_indptr(), edge_count(a)));
    lemma_reversed_arcs(a, b, edge_count(a));
    let arcs_a = boundary_arcs(a, edge_count(a));
    let arcs_b = boundary_arcs(b, edge_count(b));
    assert(edge_count(a) == edge_count(b));
    assert(arcs_b == reversed_arcs(arcs_a));
    assert forall|e: int, p: int|
        0 <= e < edge_count(b) && on_boundary(b, 1, e) && 0 <= p < coface_signs(b, e).len() implies #[trigger] coface_signs(
        b,
        e,
    )[p] == 1 || coface_signs(b, e)[p] == -1 by {
        assert(coface_count(a, e) == coface_count(b, e));
        let lo = ma.spec_indptr()[e] as int;
        assert(lo <= ma.spec_indptr()[e + 1] <= ma.spec_values().len());
        assert(coface_signs(b, e)[p] == -coface_signs(a, e)[p]);
        assert(coface_signs(a, e)[p] == 1 || coface_signs(a, e)[p] == -1);
    }
    lemma_reversed_walk(arcs_a, cycle);
}

/// Position `i` of the reversed cycle reads position `(n - i) % n`.
proof fn lemma_reversed_positions(cycle: Seq<usize>)
    requires
        cycle.len() > 0,
    ensures
        reversed_cycle(cycle).len() == cycle.len(),
        reversed_cycle(cycle)[0] == cycle[0],
        forall|i: int|
            0 <= i < cycle.len() ==> #[trigger] reversed_cycle(cycle)[i] == cycle[(cycle.len() - i) % (cycle.len() as int)]
                && 0 <= (cycle.len() - i) % (cycle.len() as int) < cycle.len(),
{
    let n = cycle.len() as int;
    assert((n - 0) % n == 0) by (nonlinear_arith)
        requires
            n > 0,
    ;
    assert forall|i: int| 0 <= i < n implies #[trigger] reversed_cycle(cycle)[i] == cycle[(n - i) % n] && 0 <= (n - i) % n < n by {
        assert(0 <= (n - i) % n < n) by (nonlinear_arith)
            requires
                n > 0,
        ;
    }
}

/// The reversed cycle steps along reversed arcs and repeats no vertex.
#[verifier::spinoff_prover]
#[verifier::rlimit(80)]
proof fn lemma_reversed_steps(arcs_a: Seq<(int, int)>, cycle: Seq<usize>)
    requires
        arc_cycle(arcs_a, cycle),
    ensures
        forall|i: int|
            0 <= i < cycle.len() ==> has_arc(
                reversed_arcs(arcs_a),
                #[trigger] reversed_cycle(cycle)[i] as int,
                reversed_cycle(cycle)[(i + 1) % (cycle.len() as int)] as int,
            ),
        forall|i: int, j: int|
            0 <= i < j < cycle.len() ==> #[trigger] reversed_cycle(cycle)[i] != #[trigger] reversed_cycle(cycle)[j],
{
    let arcs_b = reversed_arcs(arcs_a);
    let n = cycle.len() as int;
    let rev = reversed_cycle(cycle);
    lemma_reversed_positions(cycle);
    assert forall|i: int| 0 <= i < n implies has_arc(arcs_b, #[trigger] rev[i] as int, rev[(i + 1) % n] as int) by {
        let j = (n - i - 1) % n;
        assert(0 <= j < n && (j + 1) % n == (n - i) % n && (n - (i + 1) % n) % n == j && 0 <= (i + 1) % n < n)
            by (nonlinear_arith)
            requires
                n > 0,
                0 <= i < n,
                j == (n - i - 1) % n,
        ;
        assert(has_arc(arcs_a, cycle[j] as int, cycle[(j + 1) % n] as int));
        let w = choose|w: int| 0 <= w < arcs_a.len() && #[trigger] arcs_a[w] == (cycle[j] as int, cycle[(j + 1) % n] as int);
        assert(arcs_b[w] == (cycle[(j + 1) % n] as int, cycle[j] as int));
        assert(rev[(i + 1) % n] == cycle[j]);
    }
    assert forall|i: int, j: int| 0 <= i < j < n implies #[trigger] rev[i] != #[trigger] rev[j] by {
        let x = (n - i) % n;
        let y = (n - j) % n;
        assert(x != y && 0 <= x < n && 0 <= y < n) by (nonlinear_arith)
            requires
                n > 0,
                0 <= i < j < n,
                x == (n - i) % n,
                y == (n - j) % n,
        ;
        if x < y {
            assert(cycle[x] != cycle[y]);
        } else {
            assert(cycle[y] != cycle[x]);
        }
    }
}

/// The reversed arcs leave distinct vertices, and the least vertex they
/// leave is the start of the cycle.
#[verifier::rlimit(40)]
proof fn lemma_reversed_sources(arcs_a: Seq<(int, int)>, cycle: Seq<usize>)
    requires
        arc_cycle(arcs_a, cycle),
    ensures
        distinct_sources(reversed_arcs(arcs_a)),
        leaves(reversed_arcs(arcs_a), cycle[0] as int),
        forall|x: int| 0 <= x < cycle[0] ==> !#[trigger] leaves(reversed_arcs(arcs_a), x),
{
    let arcs_b = reversed_arcs(arcs_a);
    let n = cycle.len() as int;
    lemma_cycle_steps(arcs_a, cycle);
    assert forall|i: int, j: int| 0 <= i < j < arcs_b.len() implies #[trigger] arcs_b[i].0 != #[trigger] arcs_b[j].0 by {
        assert(on_cycle(arcs_a[i], cycle) && on_cycle(arcs_a[j], cycle));
        let si = choose|s: int| 0 <= s < n && #[trigger] cycle_step(arcs_a[i], cycle, s);
        let sj = choose|s: int| 0 <= s < n && #[trigger] cycle_step(arcs_a[j], cycle, s);
        assert(arcs_a[i].0 != arcs_a[j].0);
        assert(si != sj);
        assert((si + 1) % n != (sj + 1) % n && 0 <= (si + 1) % n < n && 0 <= (sj + 1) % n < n) by (nonlinear_arith)
            requires
                n > 0,
                0 <= si < n,
                0 <= sj < n,
                si != sj,
        ;
        if (si + 1) % n < (sj + 1) % n {
            assert(cycle[(si + 1) % n] != cycle[(sj + 1) % n]);
        } else {
            assert(cycle[(sj + 1) % n] != cycle[(si + 1) % n]);
        }
    }
    let last = n - 1;
    assert((last + 1) % n == 0) by (nonlinear_arith)
        requires
            n > 0,
            last == n - 1,
    ;
    assert(has_arc(arcs_a, cycle[last] as int, cycle[(last + 1) % n] as int));
    let w0 = choose|w: int| 0 <= w < arcs_a.len() && #[trigger] arcs_a[w] == (cycle[last] as int, cycle[(last + 1) % n] as int);
    assert(arcs_b[w0].0 == cycle[0]);
    assert forall|x: int| 0 <= x < cycle[0] implies !#[trigger] leaves(arcs_b, x) by {
        if leaves(arcs_b, x) {
            let w = choose|w: int| 0 <= w < arcs_b.len() && #[trigger] arcs_b[w].0 == x;
            assert(on_cycle(arcs_a[w], cycle));
            let s = choose|s: int| 0 <= s < n && #[trigger] cycle_step(arcs_a[w], cycle, s);
            let t = (s + 1) % n;
            assert(0 <= t < n) by (nonlinear_arith)
                requires
                    n > 0,
                    t == (s + 1) % n,
            ;
            assert(x == cycle[t] as int);
            assert(has_arc(arcs_a, cycle[t] as int, cycle[(t + 1) % n] as int));
            let v = choose|v: int| 0 <= v < arcs_a.len() && #[trigger] arcs_a[v] == (cycle[t] as int, cycle[(t + 1) % n] as int);
            assert(arcs_a[v].0 == x);
            assert(leaves(arcs_a, x));
        }
    }
}

/// Reading a cycle walk backwards walks the reversed arcs.
proof fn lemma_reversed_walk(arcs_a: Seq<(int, int)>, cycle: Seq<usize>)
    requires
        arc_cycle(arcs_a, cycle),
    ensures
        arc_cycle(reversed_arcs(arcs_a), reversed_cycle(cycle)),
        reversed_cycle(cycle)[0] == cycle[0],
{
    lemma_reversed_positions(cycle);
    lemma_reversed_steps(arcs_a, cycle);
    lemma_reversed_sources(arcs_a, cycle);
}

/// Whether `arc` is step `s` of `cycle`.
pub open spec fn cycle_step(arc: (int, int), cycle: Seq<usize>, s: int) -> bool {
    arc == (cycle[s] as int, cycle[(s + 1) % (cycle.len() as int)] as int)
}

/// Whether `arc` is some step of `cycle`.
pub open spec fn on_cycle(arc: (int, int), cycle: Seq<usize>) -> bool {
    exists|s: int| 0 <= s < cycle.len() && #[trigger] cycle_step(arc, cycle, s)
}

/// Every arc of a cycle walk is one of its steps.
#[verifier::spinoff_prover]
#[verifier::rlimit(60)]
proof fn lemma_cycle_steps(arcs: Seq<(int, int)>, cycle: Seq<usize>)
    requires
        arc_cycle(arcs, cycle),
    ensures
        forall|w: int| 0 <= w < arcs.len() ==> #[trigger] on_cycle(arcs[w], cycle),
{
    let n = cycle.len() as int;
    let sources = arcs.map_values(|arc: (int, int)| arc.0);
    let vertices = cycle.map_values(|v: usize| v as int);
    assert(sources.no_duplicates()) by {
        assert forall|i: int, j: int| 0 <= i < sources.len() && 0 <= j < sources.len() && i != j implies sources[i] != sources[j] by {
            if i < j {
                assert(arcs[i].0 != arcs[j].0);
            } else {
                assert(arcs[j].0 != arcs[i].0);
            }
        }
    }
    assert(vertices.no_duplicates()) by {
        assert forall|i: int, j: int| 0 <= i < vertices.len() && 0 <= j < vertices.len() && i != j implies vertices[i] != vertices[j] by {
            if i < j {
                assert(cycle[i] != cycle[j]);
            } else {
                assert(cycle[j] != cycle[i]);
            }
        }
    }
    sources.unique_seq_to_set();
    vertices.unique_seq_to_set();
    assert(vertices.to_set().subset_of(sources.to_set())) by {
        assert forall|x: int| vertices.to_set().contains(x) implies sources.to_set().contains(x) by {
            let s = choose|s: int| 0 <= s < vertices.len() && vertices[s] == x;
            assert(has_arc(arcs, cycle[s] as int, cycle[(s + 1) % n] as int));
            let w = choose|w: int| 0 <= w < arcs.len() && #[trigger] arcs[w] == (cycle[s] as int, cycle[(s + 1) % n] as int);
            assert(sources[w] == x);
        }
    }
    vstd::set_lib::lemma_subset_equality(vertices.to_set(), sources.to_set());
    assert forall|w: int| 0 <= w < arcs.len() implies #[trigger] on_cycle(arcs[w], cycle) by {
        lemma_cycle_step_of(arcs, cycle, w, sources, vertices);
    }
}

proof fn lemma_cycle_step_of(arcs: Seq<(int, int)>, cycle: Seq<usize>, w: int, sources: Seq<int>, vertices: Seq<int>)
    requires
        arc_cycle(arcs, cycle),
        0 <= w < arcs.len(),
        sources == arcs.map_values(|arc: (int, int)| arc.0),
        vertices == cycle.map_values(|v: usize| v as int),
        vertices.to_set() == sources.to_set(),
    ensures
        on_cycle(arcs[w], cycle),
{
    let n = cycle.len() as int;
    {
        assert(sources.to_set().contains(sources[w]));
        assert(vertices.to_set().contains(sources[w]));
        let s = choose|s: int| 0 <= s < vertices.len() && vertices[s] == sources[w];
        assert(has_arc(arcs, cycle[s] as int, cycle[(s + 1) % n] as int));
        let v = choose|v: int| 0 <= v < arcs.len() && #[trigger] arcs[v] == (cycle[s] as int, cycle[(s + 1) % n] as int);
        if v != w {
            if v < w {
                assert(arcs[v].0 != arcs[w].0);
            } else {
                assert(arcs[w].0 != arcs[v].0);
            }
        }
        assert(cycle_step(arcs[w], cycle, s));
    }
}

/// The topological boundary is closed under taking faces: every immediate
/// face of a boundary simplex of degree `d + 1` is a boundary simplex of
/// degree `d`, so by repetition every face of any lower degree is too.
pub proof fn law_boundary_closed_under_faces(core: ComplexCore, d: int, q: int)
    requires
        0 <= d,
        d + 2 <= core.spec_dimension(),
        0 <= q < core.spec_immediate_faces()[d + 1].len(),
        on_boundary(core, d + 1, q / (d + 2)),
    ensures
        on_boundary(core, d, core.spec_immediate_faces()[d + 1][q] as int),
{
    let faces = core.spec_immediate_faces()[d + 1];
    assert(faces[q] == faces[q]);
}

/// A vertex link of a triangle manifold is connected: any vertex set that
/// contains the start of the first link edge and, with one end of a link
/// edge, its other end, contains both ends of every link edge.
pub proof fn law_manifold_links_connected(core: ComplexCore, v: int, reached: Set<int>, i: int)
    requires
        triangle_manifold(core),
        0 <= v < core.spec_vertex_count(),
        link_closed(link(core, v), reached),
        reached.contains(link(core, v)[0].0 as int),
        0 <= i < link(core, v).len(),
    ensures
        reached.contains(link(core, v)[i].0 as int),
        reached.contains(link(core, v)[i].1 as int),
{
    let edges = link(core, v);
    assert(link_valid(edges));
    let arcs = directed(edges);
    let order = touch_order(arcs);
    lemma_touch_order(arcs);
    lemma_directed_index(edges, i);
    assert(arcs[2 * i].0 == edges[i].0);
    assert(arcs[2 * i + 1].0 == edges[i].1);
    assert(order.contains(edges[i].0));
    assert(order.contains(edges[i].1));
    let a = choose|a: int| 0 <= a < order.len() && order[a] == edges[i].0;
    let b = choose|b: int| 0 <= b < order.len() && order[b] == edges[i].1;
    assert(link_connected(edges));
    assert(reached.contains(order[a] as int));
    assert(reached.contains(order[b] as int));
}

/// A vertex link of a triangle manifold is one simple path or cycle: it has
/// an edge, every link vertex has at most two distinct neighbors, and either
/// no link vertex or exactly two have a single neighbor.
pub proof fn law_manifold_links_are_paths_or_cycles(core: ComplexCore, v: int, x: int)
    requires
        triangle_manifold(core),
        0 <= v < core.spec_vertex_count(),
    ensures
        link(core, v).len() > 0,
        neighbors(directed(link(core, v)), x).len() <= 2,
        neighbors(directed(link(core, v)), x).len() == 2 ==> neighbors(directed(link(core, v)), x)[0]
            != neighbors(directed(link(core, v)), x)[1],
        ({
            let arcs = directed(link(core, v));
            let order = touch_order(arcs);
            endpoint_count(arcs, order, order.len() as int) == 0 || endpoint_count(arcs, order, order.len() as int) == 2
        }),
{
    assert(link_valid(link(core, v)));
    assert(neighbors_ok(neighbors(directed(link(core, v)), x)));
}

/// A codimension-one simplex lies on the topological boundary exactly when
/// it has a single top-dimensional coface.
pub proof fn law_boundary_codimension_one(core: ComplexCore, x: int)
    requires
        core.spec_dimension() >= 1,
    ensures
        on_boundary(core, core.spec_dimension() - 1, x) <==> coface_count(core, x) == 1,
{
}

/// Below codimension one, a simplex lies on the topological boundary only
/// as an immediate face of a boundary simplex one degree up.
pub proof fn law_boundary_simplex_under_boundary_coface(core: ComplexCore, d: int, t: int)
    requires
        0 <= d,
        d + 2 <= core.spec_dimension(),
        on_boundary(core, d, t),
    ensures
        exists|q: int|
            0 <= q < core.spec_immediate_faces()[d + 1].len() && #[trigger] core.spec_immediate_faces()[d + 1][q] == t
                && on_boundary(core, d + 1, q / (d + 2)),
{
    let faces = core.spec_immediate_faces()[d + 1];
    let q = choose|q: int| 0 <= q < faces.len() && #[trigger] faces[q] == t && on_boundary(core, d + 1, q / (d + 2));
    assert(core.spec_immediate_faces()[d + 1][q] == t);
}

} // verus!
