use vstd::prelude::*;

use crate::binomial::{binomial, lemma_binomial_step};
use crate::combination::{collect_combinations, combos, lemma_combo_entries};
use crate::complex::ComplexCore;
use crate::error::TopologyError;
use crate::incidence::{signs_only, strictly_sorted};
use crate::lex::lemma_lex_eq;
use crate::sort::key_views;

verus! {

/// The two faces of a target simplex that one product term pairs, with the
/// sign the term carries.
#[derive(Clone, Copy, Debug)]
pub struct OrientedFacePair {
    pub left: usize,
    pub right: usize,
    pub sign: i8,
}

/// In strictly sorted rows a row occurs at exactly one position.
pub proof fn lemma_sorted_index(rows: Seq<Seq<usize>>, i: int, v: Seq<usize>)
    requires
        strictly_sorted(rows),
        0 <= i < rows.len(),
        rows[i] == v,
    ensures
        rows.index_of(v) == i,
{
    assert(rows.contains(v));
    let j = rows.index_of(v);
    assert(0 <= j < rows.len() && rows[j] == v);
    if j != i {
        lemma_lex_eq(rows[i], rows[j]);
        if j < i {
            assert(crate::lex::lex_lt(rows[j], rows[i]));
        } else {
            assert(crate::lex::lex_lt(rows[i], rows[j]));
        }
    }
}

/// Product of two unit signs.
fn unit_product(a: i8, b: i8) -> (r: i8)
    requires
        a == 1 || a == -1,
        b == 1 || b == -1,
    ensures
        r == a * b,
        r == 1 || r == -1,
{
    if a == 1 {
        b
    } else {
        -b
    }
}

/// The rows of degree `d` of an owner.
pub open spec fn rows_of(owner: ComplexCore, d: int) -> Seq<Seq<usize>> {
    owner.spec_bases()[d].rows()
}

/// Whether the front-and-back split of a target row cannot be taken: the
/// front would reach past the end of the row.
pub open spec fn cup_split_past_end(owner: ComplexCore, left_degree: int, target_degree: int, target_index: int) -> bool {
    &&& target_degree <= owner.spec_dimension()
    &&& target_index < owner.spec_bases()[target_degree].spec_row_count()
    &&& left_degree <= owner.spec_dimension()
    &&& left_degree > target_degree
}

/// The front face (first `left_degree + 1` vertices) and back face (last
/// `target_degree - left_degree + 1` vertices) of one target simplex.
pub open spec fn cup_front(owner: ComplexCore, left_degree: int, target_degree: int, target_index: int) -> Seq<usize> {
    rows_of(owner, target_degree)[target_index].subrange(0, left_degree + 1)
}

pub open spec fn cup_back(owner: ComplexCore, left_degree: int, target_degree: int, target_index: int) -> Seq<usize> {
    rows_of(owner, target_degree)[target_index].subrange(left_degree, target_degree + 1)
}

/// The front and back faces of target simplex `target_index` with their
/// basis indexes, and the product of the three orientations: `DegreeOutside`
/// for a degree beyond the owner, `InternalInvariant` for a simplex index
/// outside the basis or a face missing from its basis.
pub fn cup_face_pair(owner: &ComplexCore, left_degree: usize, target_degree: usize, target_index: usize) -> (r:
    Result<OrientedFacePair, TopologyError>)
    requires
        !cup_split_past_end(*owner, left_degree as int, target_degree as int, target_index as int),
    ensures
        target_degree > owner.spec_dimension() ==> r == Err::<OrientedFacePair, TopologyError>(
            TopologyError::DegreeOutside(target_degree),
        ),
        target_degree <= owner.spec_dimension() && target_index >= owner.spec_bases()[target_degree as int].spec_row_count()
            ==> r == Err::<OrientedFacePair, TopologyError>(TopologyError::InternalInvariant),
        target_degree <= owner.spec_dimension() && target_index < owner.spec_bases()[target_degree as int].spec_row_count()
            && left_degree > owner.spec_dimension() ==> r == Err::<OrientedFacePair, TopologyError>(
            TopologyError::DegreeOutside(left_degree),
        ),
        target_degree <= owner.spec_dimension() && target_index < owner.spec_bases()[target_degree as int].spec_row_count()
            && left_degree <= target_degree ==> ({
            let front = cup_front(*owner, left_degree as int, target_degree as int, target_index as int);
            let back = cup_back(*owner, left_degree as int, target_degree as int, target_index as int);
            let right_degree = target_degree - left_degree;
            let lower = rows_of(*owner, left_degree as int);
            let upper = rows_of(*owner, right_degree);
            if lower.contains(front) && upper.contains(back) {
                r matches Ok(p) && p.left == lower.index_of(front) && p.right == upper.index_of(back)
                    && p.sign == owner.spec_orientations()[target_degree as int][target_index as int]
                    * owner.spec_orientations()[left_degree as int][p.left as int]
                    * owner.spec_orientations()[right_degree][p.right as int]
            } else {
                r == Err::<OrientedFacePair, TopologyError>(TopologyError::InternalInvariant)
            }
        }),
{
    proof {
        use_type_invariant(owner);
    }
    let target_basis = match owner.basis(target_degree) {
        Ok(b) => b,
        Err(e) => return Err(e),
    };
    let simplex = match target_basis.row(target_index) {
        Some(row) => row,
        None => return Err(TopologyError::InternalInvariant),
    };
    let left_basis = match owner.basis(left_degree) {
        Ok(b) => b,
        Err(e) => return Err(e),
    };
    proof {
        assert(owner.spec_bases()[target_degree as int].spec_row_width() == target_degree + 1);
        assert(owner.spec_bases()[target_degree as int].shape_inv());
        crate::incidence::lemma_row_window(
            target_index as int,
            target_degree + 1,
            target_basis.spec_row_count(),
        );
        assert(simplex@.len() == target_degree + 1);
        assert(strictly_sorted(left_basis.rows()));
    }
    let length = simplex.len();
    let left = match left_basis.binary_search(&simplex[0..left_degree + 1]) {
        Ok(i) => i,
        Err(e) => return Err(e),
    };
    let right_degree = target_degree - left_degree;
    let right_basis = match owner.basis(right_degree) {
        Ok(b) => b,
        Err(e) => return Err(e),
    };
    proof {
        assert(strictly_sorted(right_basis.rows()));
    }
    let right = match right_basis.binary_search(&simplex[left_degree..length]) {
        Ok(i) => i,
        Err(e) => return Err(e),
    };
    let target_signs = match owner.orientation(target_degree) {
        Ok(o) => o,
        Err(e) => return Err(e),
    };
    let left_signs = match owner.orientation(left_degree) {
        Ok(o) => o,
        Err(e) => return Err(e),
    };
    let right_signs = match owner.orientation(right_degree) {
        Ok(o) => o,
        Err(e) => return Err(e),
    };
    proof {
        assert(signs_only(target_signs@));
        assert(signs_only(left_signs@));
        assert(signs_only(right_signs@));
        lemma_sorted_index(left_basis.rows(), left as int, left_basis.rows()[left as int]);
        lemma_sorted_index(right_basis.rows(), right as int, right_basis.rows()[right as int]);
    }
    let sign = unit_product(unit_product(target_signs[target_index], left_signs[left]), right_signs[right]);
    Ok(OrientedFacePair { left, right, sign })
}

/// Whether the running product `C(n, j) * (n - j)` leaves `u128` at some
/// step `j < steps`.
pub open spec fn wide_product_overflows(n: nat, steps: nat) -> bool {
    exists|j: nat| j < steps && #[trigger] binomial(n, j) * (n - j) > u128::MAX
}

/// The number of shuffle terms of a wedge of degrees `l` and `r`:
/// `(l + r + 1) * C(l + r, min(l, r))`.
pub open spec fn wedge_term_count(l: nat, r: nat) -> int {
    let n = l + r;
    let m = if l <= r {
        l
    } else {
        r
    };
    ((n + 1) * binomial(n, m)) as int
}

/// The averaging factor of a wedge of degrees `left_degree` and
/// `right_degree`; `CountOverflow` when the target degree leaves `usize`, the
/// binomial's running product leaves `u128`, or the factor leaves `i64`.
pub fn wedge_normalization(left_degree: usize, right_degree: usize) -> (r: Result<i64, TopologyError>)
    ensures
        r is Err ==> r == Err::<i64, TopologyError>(TopologyError::CountOverflow),
        r is Ok <==> ({
            let n = left_degree + right_degree;
            let m = if left_degree <= right_degree {
                left_degree
            } else {
                right_degree
            };
            &&& n <= usize::MAX
            &&& !wide_product_overflows(n as nat, m as nat)
            &&& wedge_term_count(left_degree as nat, right_degree as nat) <= i64::MAX
        }),
        r matches Ok(v) ==> v == wedge_term_count(left_degree as nat, right_degree as nat),
{
    let target_degree = match left_degree.checked_add(right_degree) {
        Some(t) => t,
        None => return Err(TopologyError::CountOverflow),
    };
    let choose = if left_degree <= right_degree {
        left_degree
    } else {
        right_degree
    };
    let ghost n = target_degree as nat;
    let mut coefficient: u128 = 1;
    let mut step: usize = 0;
    while step < choose
        invariant
            target_degree == left_degree + right_degree,
            choose == (if left_degree <= right_degree {
                left_degree
            } else {
                right_degree
            }),
            choose <= target_degree,
            step <= choose,
            n == target_degree,
            coefficient == binomial(n, step as nat),
            forall|j: nat| j < step ==> #[trigger] binomial(n, j) * (n - j) <= u128::MAX,
        decreases choose - step,
    {
        proof {
            lemma_binomial_step(n, step as nat);
        }
        let factor = (target_degree - step) as u128;
        let product = match coefficient.checked_mul(factor) {
            Some(p) => p,
            None => {
                assert(binomial(n, step as nat) * (n - step) > u128::MAX);
                return Err(TopologyError::CountOverflow);
            },
        };
        let next = product / ((step + 1) as u128);
        proof {
            let b = binomial(n, (step + 1) as nat);
            assert(product == b * (step + 1));
            assert((b * (step + 1)) / (step + 1) == b) by (nonlinear_arith)
                requires
                    step + 1 > 0,
            ;
        }
        coefficient = next;
        step = step + 1;
    }
    proof {
        if wide_product_overflows(n, choose as nat) {
            let j = choose|j: nat| j < choose && #[trigger] binomial(n, j) * (n - j) > u128::MAX;
            assert(binomial(n, j) * (n - j) <= u128::MAX);
        }
    }
    let width = (target_degree as u128) + 1;
    let count = match width.checked_mul(coefficient) {
        Some(c) => c,
        None => {
            proof {
                assert((n + 1) * binomial(n, choose as nat) > u128::MAX);
            }
            return Err(TopologyError::CountOverflow);
        },
    };
    proof {
        assert(step == choose);
        assert(coefficient == binomial(n, choose as nat));
        assert(width == n + 1);
        assert(count == (n + 1) * binomial(n, choose as nat));
        assert(wedge_term_count(left_degree as nat, right_degree as nat) == (n + 1) * binomial(n, choose as nat));
    }
    if count > 0x7fff_ffff_ffff_ffffu128 {
        return Err(TopologyError::CountOverflow);
    }
    Ok(count as i64)
}

/// The positions `0..=t` of a target simplex without the shared position `s`,
/// in increasing order.
pub open spec fn other_positions(t: int, s: int) -> Seq<usize> {
    Seq::new(
        t as nat,
        |k: int|
            if k < s {
                k as usize
            } else {
                (k + 1) as usize
            },
    )
}

/// Whether position `p` of the target simplex lies on the left face
/// (`left`) or on the right face: the shared position lies on both, a chosen
/// position on the left only, every other position on the right only.
pub open spec fn on_side(p: int, s: int, chosen: Seq<usize>, left: bool) -> bool {
    p == s || chosen.contains(p as usize) == left
}

/// The vertices of `simplex` at the positions of one side, in position order.
pub open spec fn side_vertices(simplex: Seq<usize>, s: int, chosen: Seq<usize>, left: bool) -> Seq<usize>
    decreases simplex.len(),
{
    if simplex.len() == 0 {
        Seq::empty()
    } else {
        let rest = side_vertices(simplex.drop_last(), s, chosen, left);
        if on_side(simplex.len() - 1, s, chosen, left) {
            rest.push(simplex.last())
        } else {
            rest
        }
    }
}

/// The positions of `remaining` that lie on the right face only and below `a`.
pub open spec fn below_right(a: usize, remaining: Seq<usize>, s: int, chosen: Seq<usize>) -> nat
    decreases remaining.len(),
{
    if remaining.len() == 0 {
        0
    } else {
        let b = remaining.last();
        below_right(a, remaining.drop_last(), s, chosen) + if !on_side(b as int, s, chosen, true) && a > b {
            1nat
        } else {
            0nat
        }
    }
}

/// The pairs of a left position and a lower right position: the inversions
/// of the shuffle that puts the left positions first.
pub open spec fn shuffle_inversions(left: Seq<usize>, remaining: Seq<usize>, s: int, chosen: Seq<usize>) -> nat
    decreases left.len(),
{
    if left.len() == 0 {
        0
    } else {
        shuffle_inversions(left.drop_last(), remaining, s, chosen) + below_right(left.last(), remaining, s, chosen)
    }
}

/// The sign of the shuffle of one choice of left positions.
pub open spec fn shuffle_sign(t: int, s: int, chosen: Seq<usize>) -> int {
    if shuffle_inversions(chosen, other_positions(t, s), s, chosen) % 2 == 0 {
        1
    } else {
        -1
    }
}

/// The left and right faces of target simplex `ti` sharing position `s`
/// with left positions `chosen`.
pub open spec fn left_face(owner: ComplexCore, t: int, ti: int, s: int, chosen: Seq<usize>) -> Seq<usize> {
    side_vertices(rows_of(owner, t)[ti], s, chosen, true)
}

pub open spec fn right_face(owner: ComplexCore, t: int, ti: int, s: int, chosen: Seq<usize>) -> Seq<usize> {
    side_vertices(rows_of(owner, t)[ti], s, chosen, false)
}

/// Whether both faces of one term occur in their bases.
pub open spec fn wedge_term_found(owner: ComplexCore, l: int, r: int, ti: int, s: int, chosen: Seq<usize>) -> bool {
    &&& rows_of(owner, l).contains(left_face(owner, l + r, ti, s, chosen))
    &&& rows_of(owner, r).contains(right_face(owner, l + r, ti, s, chosen))
}

/// One term of a wedge: the target simplex, the basis indexes of its two
/// faces, and the product of the three orientations and the shuffle sign.
pub open spec fn wedge_term(owner: ComplexCore, l: int, r: int, ti: int, s: int, chosen: Seq<usize>) -> (
    usize,
    OrientedFacePair,
) {
    let t = l + r;
    let li = rows_of(owner, l).index_of(left_face(owner, t, ti, s, chosen));
    let ri = rows_of(owner, r).index_of(right_face(owner, t, ti, s, chosen));
    let o = owner.spec_orientations();
    (
        ti as usize,
        OrientedFacePair {
            left: li as usize,
            right: ri as usize,
            sign: (o[t][ti] * o[l][li] * o[r][ri] * shuffle_sign(t, s, chosen)) as i8,
        },
    )
}

/// The terms of target simplex `ti` with shared position `s`, one per choice
/// of `l` left positions among the others, in lexicographic order.
pub open spec fn shared_terms(owner: ComplexCore, l: int, r: int, ti: int, s: int) -> Seq<(usize, OrientedFacePair)> {
    combos(other_positions(l + r, s), 0, l as nat).map_values(|c: Seq<usize>| wedge_term(owner, l, r, ti, s, c))
}

/// The terms of target simplex `ti` over the shared positions `0..m`.
pub open spec fn simplex_terms(owner: ComplexCore, l: int, r: int, ti: int, m: int) -> Seq<(usize, OrientedFacePair)>
    decreases m,
{
    if m <= 0 {
        Seq::empty()
    } else {
        simplex_terms(owner, l, r, ti, m - 1) + shared_terms(owner, l, r, ti, m - 1)
    }
}

/// The terms of the first `n` target simplices.
pub open spec fn wedge_terms(owner: ComplexCore, l: int, r: int, n: int) -> Seq<(usize, OrientedFacePair)>
    decreases n,
{
    if n <= 0 {
        Seq::empty()
    } else {
        wedge_terms(owner, l, r, n - 1) + simplex_terms(owner, l, r, n - 1, l + r + 1)
    }
}

/// Whether every face that the wedge terms name occurs in its basis.
pub open spec fn wedge_faces_found(owner: ComplexCore, l: int, r: int) -> bool {
    forall|ti: int, s: int, c: Seq<usize>|
        0 <= ti < owner.spec_bases()[l + r].spec_row_count() && 0 <= s <= l + r && combos(
            other_positions(l + r, s),
            0,
            l as nat,
        ).contains(c) ==> #[trigger] wedge_term_found(owner, l, r, ti, s, c)
}

/// The positions `0..=t` without `s`.
fn other_positions_vec(t: usize, s: usize) -> (v: Vec<usize>)
    requires
        s <= t < usize::MAX,
    ensures
        v@ == other_positions(t as int, s as int),
{
    let mut v: Vec<usize> = Vec::new();
    let mut position: usize = 0;
    while position <= t
        invariant
            s <= t < usize::MAX,
            position <= t + 1,
            v@.len() == if position <= s {
                position as int
            } else {
                position - 1
            },
            forall|k: int|
                0 <= k < v@.len() ==> #[trigger] v@[k] == if k < s {
                    k as usize
                } else {
                    (k + 1) as usize
                },
        decreases t + 1 - position,
    {
        if position != s {
            v.push(position);
        }
        position = position + 1;
    }
    proof {
        assert(v@ =~= other_positions(t as int, s as int));
    }
    v
}

/// Marks the positions of the left face: the shared one and the chosen ones.
fn left_mask(t: usize, s: usize, chosen: &[usize]) -> (m: Vec<bool>)
    requires
        s <= t < usize::MAX,
        forall|j: int| 0 <= j < chosen@.len() ==> #[trigger] chosen@[j] <= t,
    ensures
        m@.len() == t + 1,
        forall|p: int| 0 <= p <= t ==> #[trigger] m@[p] == on_side(p, s as int, chosen@, true),
{
    let mut m: Vec<bool> = Vec::new();
    let mut p: usize = 0;
    while p <= t
        invariant
            t < usize::MAX,
            p <= t + 1,
            m@.len() == p,
            forall|q: int| 0 <= q < p ==> !#[trigger] m@[q],
        decreases t + 1 - p,
    {
        m.push(false);
        p = p + 1;
    }
    m.set(s, true);
    let mut j: usize = 0;
    while j < chosen.len()
        invariant
            s <= t < usize::MAX,
            j <= chosen@.len(),
            m@.len() == t + 1,
            forall|i: int| 0 <= i < chosen@.len() ==> #[trigger] chosen@[i] <= t,
            forall|q: int| 0 <= q <= t ==> #[trigger] m@[q] == (q == s || chosen@.take(j as int).contains(q as usize)),
        decreases chosen@.len() - j,
    {
        let position = chosen[j];
        m.set(position, true);
        proof {
            let before = chosen@.take(j as int);
            let after = chosen@.take(j + 1);
            assert(after == before.push(position));
            assert forall|q: int| 0 <= q <= t implies #[trigger] m@[q] == (q == s || after.contains(q as usize)) by {
                if before.contains(q as usize) {
                    let w = choose|w: int| 0 <= w < before.len() && before[w] == q as usize;
                    assert(after[w] == q as usize);
                }
                if after.contains(q as usize) && q != position {
                    let w = choose|w: int| 0 <= w < after.len() && after[w] == q as usize;
                    assert(w < before.len());
                    assert(before[w] == q as usize);
                }
                if q == position {
                    assert(after[j as int] == q as usize);
                }
            }
        }
        j = j + 1;
    }
    proof {
        assert(chosen@.take(chosen@.len() as int) == chosen@);
    }
    m
}

/// The vertices of `simplex` on one side, given the left-face mask.
fn side_of(simplex: &[usize], mask: &[bool], s: usize, Ghost(chosen): Ghost<Seq<usize>>, left: bool) -> (v: Vec<
    usize,
>)
    requires
        mask@.len() == simplex@.len(),
        forall|p: int| 0 <= p < simplex@.len() ==> #[trigger] mask@[p] == on_side(p, s as int, chosen, true),
    ensures
        v@ == side_vertices(simplex@, s as int, chosen, left),
{
    let mut v: Vec<usize> = Vec::new();
    let mut p: usize = 0;
    proof {
        assert(simplex@.take(0) =~= Seq::<usize>::empty());
    }
    while p < simplex.len()
        invariant
            p <= simplex@.len(),
            mask@.len() == simplex@.len(),
            forall|q: int| 0 <= q < simplex@.len() ==> #[trigger] mask@[q] == on_side(q, s as int, chosen, true),
            v@ == side_vertices(simplex@.take(p as int), s as int, chosen, left),
        decreases simplex@.len() - p,
    {
        let keep = if left {
            mask[p]
        } else {
            p == s || !mask[p]
        };
        proof {
            let prefix = simplex@.take(p + 1);
            assert(prefix.drop_last() =~= simplex@.take(p as int));
            assert(prefix.last() == simplex@[p as int]);
            assert(keep == on_side(p as int, s as int, chosen, left));
        }
        if keep {
            v.push(simplex[p]);
        }
        p = p + 1;
    }
    proof {
        assert(simplex@.take(simplex@.len() as int) =~= simplex@);
    }
    v
}

/// Whether the shuffle of the chosen left positions is odd.
fn shuffle_odd(chosen: &[usize], remaining: &[usize], mask: &[bool], Ghost(s): Ghost<int>) -> (odd: bool)
    requires
        forall|j: int| 0 <= j < remaining@.len() ==> #[trigger] remaining@[j] < mask@.len(),
        forall|p: int| 0 <= p < mask@.len() ==> #[trigger] mask@[p] == on_side(p, s, chosen@, true),
    ensures
        odd == (shuffle_inversions(chosen@, remaining@, s, chosen@) % 2 == 1),
{
    let mut odd = false;
    let mut i: usize = 0;
    proof {
        assert(chosen@.take(0) =~= Seq::<usize>::empty());
    }
    while i < chosen.len()
        invariant
            i <= chosen@.len(),
            forall|j: int| 0 <= j < remaining@.len() ==> #[trigger] remaining@[j] < mask@.len(),
            forall|p: int| 0 <= p < mask@.len() ==> #[trigger] mask@[p] == on_side(p, s, chosen@, true),
            odd == (shuffle_inversions(chosen@.take(i as int), remaining@, s, chosen@) % 2 == 1),
        decreases chosen@.len() - i,
    {
        let a = chosen[i];
        let ghost base = shuffle_inversions(chosen@.take(i as int), remaining@, s, chosen@);
        let mut j: usize = 0;
        proof {
            assert(remaining@.take(0) =~= Seq::<usize>::empty());
        }
        while j < remaining.len()
            invariant
                j <= remaining@.len(),
                forall|k: int| 0 <= k < remaining@.len() ==> #[trigger] remaining@[k] < mask@.len(),
                forall|p: int| 0 <= p < mask@.len() ==> #[trigger] mask@[p] == on_side(p, s, chosen@, true),
                odd == ((base + below_right(a, remaining@.take(j as int), s, chosen@)) % 2 == 1),
            decreases remaining@.len() - j,
        {
            let b = remaining[j];
            let crossing = !mask[b] && a > b;
            proof {
                let prefix = remaining@.take(j + 1);
                assert(prefix.drop_last() =~= remaining@.take(j as int));
                assert(prefix.last() == b);
            }
            if crossing {
                odd = !odd;
            }
            j = j + 1;
        }
        proof {
            let prefix = chosen@.take(i + 1);
            assert(prefix.drop_last() =~= chosen@.take(i as int));
            assert(prefix.last() == a);
            assert(remaining@.take(remaining@.len() as int) =~= remaining@);
        }
        i = i + 1;
    }
    proof {
        assert(chosen@.take(chosen@.len() as int) =~= chosen@);
    }
    odd
}

/// One wedge term of target simplex `ti`, shared position `s` and left
/// positions `chosen`; `InternalInvariant` when a face is missing from its
/// basis.
fn wedge_term_at(
    owner: &ComplexCore,
    l: usize,
    r: usize,
    ti: usize,
    s: usize,
    simplex: &[usize],
    remaining: &[usize],
    chosen: &[usize],
) -> (res: Result<(usize, OrientedFacePair), TopologyError>)
    requires
        l + r <= owner.spec_dimension(),
        l + r <= usize::MAX,
        ti < owner.spec_bases()[l + r].spec_row_count(),
        simplex@ == rows_of(*owner, l + r)[ti as int],
        s <= l + r,
        remaining@ == other_positions(l + r, s as int),
        combos(remaining@, 0, l as nat).contains(chosen@),
    ensures
        wedge_term_found(*owner, l as int, r as int, ti as int, s as int, chosen@) ==> res == Ok::<
            (usize, OrientedFacePair),
            TopologyError,
        >(wedge_term(*owner, l as int, r as int, ti as int, s as int, chosen@)),
        !wedge_term_found(*owner, l as int, r as int, ti as int, s as int, chosen@) ==> res == Err::<
            (usize, OrientedFacePair),
            TopologyError,
        >(TopologyError::InternalInvariant),
{
    proof {
        use_type_invariant(owner);
    }
    let t = l + r;
    let ghost basis_t = owner.spec_bases()[t as int];
    proof {
        assert(basis_t.shape_inv());
        assert(basis_t.spec_row_width() == t + 1);
        crate::incidence::lemma_row_window(ti as int, t + 1, basis_t.spec_row_count());
        assert(simplex@.len() == t + 1);
        assert forall|j: int| 0 <= j < chosen@.len() implies #[trigger] chosen@[j] <= t by {
            lemma_combo_entries(remaining@, 0, l as nat, chosen@, j);
            let w = choose|w: int| 0 <= w < remaining@.len() && remaining@[w] == chosen@[j];
        }
        assert forall|j: int| 0 <= j < remaining@.len() implies #[trigger] remaining@[j] < t + 1 by {
        }
    }
    let length = simplex.len();
    let mask = left_mask(t, s, chosen);
    let left_vertices = side_of(simplex, mask.as_slice(), s, Ghost(chosen@), true);
    let right_vertices = side_of(simplex, mask.as_slice(), s, Ghost(chosen@), false);
    let left_basis = match owner.basis(l) {
        Ok(b) => b,
        Err(e) => return Err(e),
    };
    let right_basis = match owner.basis(r) {
        Ok(b) => b,
        Err(e) => return Err(e),
    };
    proof {
        assert(strictly_sorted(left_basis.rows()));
        assert(strictly_sorted(right_basis.rows()));
    }
    let left = match left_basis.binary_search(left_vertices.as_slice()) {
        Ok(i) => i,
        Err(e) => return Err(e),
    };
    let right = match right_basis.binary_search(right_vertices.as_slice()) {
        Ok(i) => i,
        Err(e) => return Err(e),
    };
    let target_signs = match owner.orientation(t) {
        Ok(o) => o,
        Err(e) => return Err(e),
    };
    let left_signs = match owner.orientation(l) {
        Ok(o) => o,
        Err(e) => return Err(e),
    };
    let right_signs = match owner.orientation(r) {
        Ok(o) => o,
        Err(e) => return Err(e),
    };
    let odd = shuffle_odd(chosen, remaining, mask.as_slice(), Ghost(s as int));
    let shuffle: i8 = if odd {
        -1
    } else {
        1
    };
    proof {
        assert(signs_only(target_signs@));
        assert(signs_only(left_signs@));
        assert(signs_only(right_signs@));
        lemma_sorted_index(left_basis.rows(), left as int, left_basis.rows()[left as int]);
        lemma_sorted_index(right_basis.rows(), right as int, right_basis.rows()[right as int]);
        assert(shuffle == shuffle_sign(t as int, s as int, chosen@));
    }
    let sign = unit_product(
        unit_product(unit_product(target_signs[ti], left_signs[left]), right_signs[right]),
        shuffle,
    );
    Ok((ti, OrientedFacePair { left, right, sign }))
}

/// Every term of the wedge of degrees `left_degree` and `right_degree` over
/// the owner, target simplex by target simplex, shared position by shared
/// position, choice of left positions by choice in lexicographic order:
/// `CountOverflow` when the target degree leaves `usize`, `DegreeOutside`
/// when it exceeds the owner's dimension, `InternalInvariant` when a face is
/// missing from its basis.
pub fn wedge_face_pairs(owner: &ComplexCore, left_degree: usize, right_degree: usize) -> (res: Result<
    Vec<(usize, OrientedFacePair)>,
    TopologyError,
>)
    ensures
        left_degree + right_degree > usize::MAX ==> res == Err::<Vec<(usize, OrientedFacePair)>, TopologyError>(
            TopologyError::CountOverflow,
        ),
        left_degree + right_degree <= usize::MAX && left_degree + right_degree > owner.spec_dimension() ==> res
            == Err::<Vec<(usize, OrientedFacePair)>, TopologyError>(TopologyError::DegreeOutside((left_degree + right_degree) as usize)),
        left_degree + right_degree <= owner.spec_dimension() ==> if wedge_faces_found(
            *owner,
            left_degree as int,
            right_degree as int,
        ) {
            res matches Ok(v) && v@ == wedge_terms(
                *owner,
                left_degree as int,
                right_degree as int,
                owner.spec_bases()[left_degree + right_degree].spec_row_count(),
            )
        } else {
            res == Err::<Vec<(usize, OrientedFacePair)>, TopologyError>(TopologyError::InternalInvariant)
        },
{
    let dimension = owner.dimension();
    let t = match left_degree.checked_add(right_degree) {
        Some(v) => v,
        None => return Err(TopologyError::CountOverflow),
    };
    let target_basis = match owner.basis(t) {
        Ok(b) => b,
        Err(e) => return Err(e),
    };
    proof {
        use_type_invariant(owner);
        assert(target_basis.shape_inv());
    }
    let count = target_basis.row_count();
    let ghost l = left_degree as int;
    let ghost r = right_degree as int;
    let ghost core = *owner;
    let mut out: Vec<(usize, OrientedFacePair)> = Vec::new();
    let mut ti: usize = 0;
    while ti < count
        invariant
            t == l + r,
            l == left_degree,
            r == right_degree,
            core == *owner,
            t <= owner.spec_dimension(),
            *target_basis == owner.spec_bases()[t as int],
            count == target_basis.spec_row_count(),
            ti <= count,
            out@ == wedge_terms(core, l, r, ti as int),
            forall|ti2: int, s2: int, c: Seq<usize>|
                0 <= ti2 < ti && 0 <= s2 <= t && combos(other_positions(t as int, s2), 0, l as nat).contains(c)
                    ==> #[trigger] wedge_term_found(core, l, r, ti2, s2, c),
        decreases count - ti,
    {
        let simplex = match target_basis.row(ti) {
            Some(row) => row,
            None => return Err(TopologyError::InternalInvariant),
        };
        proof {
            use_type_invariant(owner);
            target_basis.lemma_shape_bounds();
            assert(target_basis.spec_row_width() == t + 1);
            crate::incidence::lemma_row_window(ti as int, t + 1, count as int);
            assert(simplex@.len() == t + 1);
        }
        let length = simplex.len();
        let mut s: usize = 0;
        while s <= t
            invariant
                t == l + r,
                l == left_degree,
                r == right_degree,
                core == *owner,
                t <= owner.spec_dimension(),
                *target_basis == owner.spec_bases()[t as int],
                count == target_basis.spec_row_count(),
                ti < count,
                simplex@ == rows_of(core, t as int)[ti as int],
                length == t + 1,
                s <= t + 1,
                out@ == wedge_terms(core, l, r, ti as int) + simplex_terms(core, l, r, ti as int, s as int),
                forall|ti2: int, s2: int, c: Seq<usize>|
                    0 <= ti2 < ti && 0 <= s2 <= t && combos(other_positions(t as int, s2), 0, l as nat).contains(c)
                        ==> #[trigger] wedge_term_found(core, l, r, ti2, s2, c),
                forall|s2: int, c: Seq<usize>|
                    0 <= s2 < s && combos(other_positions(t as int, s2), 0, l as nat).contains(c)
                        ==> #[trigger] wedge_term_found(core, l, r, ti as int, s2, c),
            decreases t + 1 - s,
        {
            let remaining = other_positions_vec(t, s);
            let mut current: Vec<usize> = Vec::new();
            let mut choices: Vec<Vec<usize>> = Vec::new();
            match collect_combinations(remaining.as_slice(), left_degree, 0, &mut current, &mut choices) {
                Ok(()) => {},
                Err(e) => return Err(e),
            }
            let ghost options = combos(remaining@, 0, l as nat);
            proof {
                assert(key_views(choices@) =~= options);
            }
            let mut k: usize = 0;
            while k < choices.len()
                invariant
                    t == l + r,
                    l == left_degree,
                    r == right_degree,
                    core == *owner,
                    t <= owner.spec_dimension(),
                    count == owner.spec_bases()[t as int].spec_row_count(),
                    ti < count,
                    simplex@ == rows_of(core, t as int)[ti as int],
                    s <= t,
                    remaining@ == other_positions(t as int, s as int),
                    options == combos(remaining@, 0, l as nat),
                    key_views(choices@) == options,
                    k <= choices@.len(),
                    out@ == wedge_terms(core, l, r, ti as int) + simplex_terms(core, l, r, ti as int, s as int)
                        + shared_terms(core, l, r, ti as int, s as int).take(k as int),
                    forall|k2: int| 0 <= k2 < k ==> #[trigger] wedge_term_found(core, l, r, ti as int, s as int, options[k2]),
                decreases choices@.len() - k,
            {
                let chosen = choices[k].as_slice();
                proof {
                    assert(options[k as int] == chosen@);
                    assert(options.contains(chosen@));
                }
                let term = match wedge_term_at(owner, left_degree, right_degree, ti, s, simplex, remaining.as_slice(), chosen) {
                    Ok(term) => term,
                    Err(e) => {
                        proof {
                            assert(!wedge_term_found(core, l, r, ti as int, s as int, chosen@));
                            assert(!wedge_faces_found(core, l, r));
                        }
                        return Err(e);
                    },
                };
                let ghost before = out@;
                out.push(term);
                proof {
                    let terms = shared_terms(core, l, r, ti as int, s as int);
                    assert(terms[k as int] == wedge_term(core, l, r, ti as int, s as int, options[k as int]));
                    assert(terms.take(k + 1) =~= terms.take(k as int).push(terms[k as int]));
                    assert(out@ =~= wedge_terms(core, l, r, ti as int) + simplex_terms(core, l, r, ti as int, s as int)
                        + terms.take(k + 1));
                }
                k = k + 1;
            }
            proof {
                let terms = shared_terms(core, l, r, ti as int, s as int);
                assert(terms.take(k as int) =~= terms);
                assert(simplex_terms(core, l, r, ti as int, s + 1) == simplex_terms(core, l, r, ti as int, s as int)
                    + terms);
                assert(out@ =~= wedge_terms(core, l, r, ti as int) + simplex_terms(core, l, r, ti as int, s + 1));
                assert forall|s2: int, c: Seq<usize>|
                    0 <= s2 < s + 1 && combos(other_positions(t as int, s2), 0, l as nat).contains(c)
                        implies #[trigger] wedge_term_found(core, l, r, ti as int, s2, c) by {
                    if s2 == s {
                        let k2 = choose|k2: int| 0 <= k2 < options.len() && options[k2] == c;
                        assert(wedge_term_found(core, l, r, ti as int, s as int, options[k2]));
                    }
                }
            }
            s = s + 1;
        }
        proof {
            assert(wedge_terms(core, l, r, ti + 1) == wedge_terms(core, l, r, ti as int) + simplex_terms(
                core,
                l,
                r,
                ti as int,
                t + 1,
            ));
            assert forall|ti2: int, s2: int, c: Seq<usize>|
                0 <= ti2 < ti + 1 && 0 <= s2 <= t && combos(other_positions(t as int, s2), 0, l as nat).contains(c)
                    implies #[trigger] wedge_term_found(core, l, r, ti2, s2, c) by {
            }
        }
        ti = ti + 1;
    }
    Ok(out)
}

/// Whether `b` is the complex `a` with the orientation of target simplex
/// `ti` of degree `t` reversed, and with every basis and every other
/// orientation unchanged.
pub open spec fn target_orientation_reversed(a: ComplexCore, b: ComplexCore, t: int, ti: int) -> bool {
    let oa = a.spec_orientations();
    let ob = b.spec_orientations();
    &&& a.spec_bases() == b.spec_bases()
    &&& oa.len() == ob.len()
    &&& 0 <= t < oa.len()
    &&& forall|d: int| 0 <= d < oa.len() && d != t ==> #[trigger] ob[d] == oa[d]
    &&& ob[t].len() == oa[t].len()
    &&& 0 <= ti < oa[t].len()
    &&& forall|x: int| 0 <= x < oa[t].len() && x != ti ==> #[trigger] ob[t][x] == oa[t][x]
    &&& ob[t][ti] == -oa[t][ti]
}

/// Whether `y` lists the terms of `x` with the same simplices and faces,
/// and with the sign negated exactly on the terms of target simplex `ti`.
pub open spec fn signs_reversed_on(x: Seq<(usize, OrientedFacePair)>, y: Seq<(usize, OrientedFacePair)>, ti: int) -> bool {
    &&& y.len() == x.len()
    &&& forall|k: int|
        0 <= k < x.len() ==> {
            &&& (#[trigger] y[k]).0 == x[k].0
            &&& y[k].1.left == x[k].1.left
            &&& y[k].1.right == x[k].1.right
            &&& y[k].1.sign == if x[k].0 == ti {
                -x[k].1.sign
            } else {
                x[k].1.sign as int
            }
        }
}

proof fn lemma_signs_reversed_concat(
    x1: Seq<(usize, OrientedFacePair)>,
    y1: Seq<(usize, OrientedFacePair)>,
    x2: Seq<(usize, OrientedFacePair)>,
    y2: Seq<(usize, OrientedFacePair)>,
    ti: int,
)
    requires
        signs_reversed_on(x1, y1, ti),
        signs_reversed_on(x2, y2, ti),
    ensures
        signs_reversed_on(x1 + x2, y1 + y2, ti),
{
    let x = x1 + x2;
    let y = y1 + y2;
    assert forall|k: int| 0 <= k < x.len() implies {
        &&& (#[trigger] y[k]).0 == x[k].0
        &&& y[k].1.left == x[k].1.left
        &&& y[k].1.right == x[k].1.right
        &&& y[k].1.sign == if x[k].0 == ti {
            -x[k].1.sign
        } else {
            x[k].1.sign as int
        }
    } by {
        if k < x1.len() {
            assert(x[k] == x1[k] && y[k] == y1[k]);
        } else {
            assert(x[k] == x2[k - x1.len()] && y[k] == y2[k - x1.len()]);
        }
    }
}

/// The conditions under which reversing a target orientation is compared:
/// both face degrees positive, unit orientations of the three degrees, and
/// every named face present.
pub open spec fn flip_frame(a: ComplexCore, b: ComplexCore, l: int, r: int, ti: int) -> bool {
    let oa = a.spec_orientations();
    let t = l + r;
    &&& 1 <= l
    &&& 1 <= r
    &&& target_orientation_reversed(a, b, t, ti)
    &&& signs_only(oa[l])
    &&& signs_only(oa[r])
    &&& signs_only(oa[t])
    &&& oa[l].len() == rows_of(a, l).len()
    &&& oa[r].len() == rows_of(a, r).len()
    &&& oa[t].len() == a.spec_bases()[t].spec_row_count()
    &&& a.spec_bases()[t].spec_row_count() <= usize::MAX
    &&& wedge_faces_found(a, l, r)
}

proof fn lemma_term_reversed(a: ComplexCore, b: ComplexCore, l: int, r: int, ti: int, u: int, s: int, c: Seq<usize>)
    requires
        flip_frame(a, b, l, r, ti),
        0 <= u < a.spec_bases()[l + r].spec_row_count(),
        0 <= s <= l + r,
        combos(other_positions(l + r, s), 0, l as nat).contains(c),
    ensures
        signs_reversed_on(seq![wedge_term(a, l, r, u, s, c)], seq![wedge_term(b, l, r, u, s, c)], ti),
{
    let t = l + r;
    let oa = a.spec_orientations();
    let ob = b.spec_orientations();
    assert(wedge_term_found(a, l, r, u, s, c));
    let li = rows_of(a, l).index_of(left_face(a, t, u, s, c));
    let ri = rows_of(a, r).index_of(right_face(a, t, u, s, c));
    assert(rows_of(b, l) == rows_of(a, l) && rows_of(b, r) == rows_of(a, r) && rows_of(b, t) == rows_of(a, t));
    assert(0 <= li < oa[l].len() && 0 <= ri < oa[r].len());
    assert(ob[l] == oa[l] && ob[r] == oa[r]);
    let lv = oa[l][li] as int;
    let rv = oa[r][ri] as int;
    let sv = shuffle_sign(t, s, c);
    let av = oa[t][u] as int;
    let bv = ob[t][u] as int;
    assert(ob[l][li] == lv && ob[r][ri] == rv);
    assert(lv == 1 || lv == -1);
    assert(rv == 1 || rv == -1);
    assert(av == 1 || av == -1);
    assert(sv == 1 || sv == -1);
    assert(bv == if u == ti { -av } else { av });
    assert(av * lv * rv * sv == 1 || av * lv * rv * sv == -1) by (nonlinear_arith)
        requires
            lv == 1 || lv == -1,
            rv == 1 || rv == -1,
            av == 1 || av == -1,
            sv == 1 || sv == -1,
    ;
    assert(bv * lv * rv * sv == if u == ti { -(av * lv * rv * sv) } else { av * lv * rv * sv }) by (nonlinear_arith)
        requires
            bv == if u == ti { -av } else { av },
    ;
    assert(wedge_term(a, l, r, u, s, c).1.sign == av * lv * rv * sv);
    assert(wedge_term(b, l, r, u, s, c).1.sign == bv * lv * rv * sv);
    let x = seq![wedge_term(a, l, r, u, s, c)];
    let y = seq![wedge_term(b, l, r, u, s, c)];
    assert(x[0] == wedge_term(a, l, r, u, s, c));
    assert(y[0] == wedge_term(b, l, r, u, s, c));
    assert(x[0].0 == u);
    assert(y[0].1.sign == if x[0].0 == ti {
        -x[0].1.sign
    } else {
        x[0].1.sign as int
    });
}

proof fn lemma_shared_reversed(a: ComplexCore, b: ComplexCore, l: int, r: int, ti: int, u: int, s: int)
    requires
        flip_frame(a, b, l, r, ti),
        0 <= u < a.spec_bases()[l + r].spec_row_count(),
        0 <= s <= l + r,
    ensures
        signs_reversed_on(shared_terms(a, l, r, u, s), shared_terms(b, l, r, u, s), ti),
{
    let cs = combos(other_positions(l + r, s), 0, l as nat);
    let x = shared_terms(a, l, r, u, s);
    let y = shared_terms(b, l, r, u, s);
    assert forall|k: int| 0 <= k < x.len() implies {
        &&& (#[trigger] y[k]).0 == x[k].0
        &&& y[k].1.left == x[k].1.left
        &&& y[k].1.right == x[k].1.right
        &&& y[k].1.sign == if x[k].0 == ti {
            -x[k].1.sign
        } else {
            x[k].1.sign as int
        }
    } by {
        assert(cs.contains(cs[k]));
        lemma_term_reversed(a, b, l, r, ti, u, s, cs[k]);
        assert(x[k] == wedge_term(a, l, r, u, s, cs[k]));
        assert(y[k] == wedge_term(b, l, r, u, s, cs[k]));
        assert(seq![wedge_term(a, l, r, u, s, cs[k])][0] == x[k]);
        assert(seq![wedge_term(b, l, r, u, s, cs[k])][0] == y[k]);
    }
}

proof fn lemma_simplex_reversed(a: ComplexCore, b: ComplexCore, l: int, r: int, ti: int, u: int, m: int)
    requires
        flip_frame(a, b, l, r, ti),
        0 <= u < a.spec_bases()[l + r].spec_row_count(),
        m <= l + r + 1,
    ensures
        signs_reversed_on(simplex_terms(a, l, r, u, m), simplex_terms(b, l, r, u, m), ti),
    decreases m,
{
    if m > 0 {
        lemma_simplex_reversed(a, b, l, r, ti, u, m - 1);
        lemma_shared_reversed(a, b, l, r, ti, u, m - 1);
        lemma_signs_reversed_concat(
            simplex_terms(a, l, r, u, m - 1),
            simplex_terms(b, l, r, u, m - 1),
            shared_terms(a, l, r, u, m - 1),
            shared_terms(b, l, r, u, m - 1),
            ti,
        );
    }
}

proof fn lemma_wedge_reversed(a: ComplexCore, b: ComplexCore, l: int, r: int, ti: int, n: int)
    requires
        flip_frame(a, b, l, r, ti),
        n <= a.spec_bases()[l + r].spec_row_count(),
    ensures
        signs_reversed_on(wedge_terms(a, l, r, n), wedge_terms(b, l, r, n), ti),
    decreases n,
{
    if n > 0 {
        lemma_wedge_reversed(a, b, l, r, ti, n - 1);
        lemma_simplex_reversed(a, b, l, r, ti, n - 1, l + r + 1);
        lemma_signs_reversed_concat(
            wedge_terms(a, l, r, n - 1),
            wedge_terms(b, l, r, n - 1),
            simplex_terms(a, l, r, n - 1, l + r + 1),
            simplex_terms(b, l, r, n - 1, l + r + 1),
            ti,
        );
    }
}

/// Each wedge term's sign carries the orientation of its target simplex:
/// reversing the orientation of one target simplex, with positive face
/// degrees, keeps every term's simplex and faces, negates the sign of each
/// term of that simplex, and leaves every other sign unchanged.
pub proof fn law_wedge_sign_follows_target_orientation(a: ComplexCore, b: ComplexCore, l: int, r: int, ti: int)
    requires
        flip_frame(a, b, l, r, ti),
    ensures
        signs_reversed_on(
            wedge_terms(a, l, r, a.spec_bases()[l + r].spec_row_count() as int),
            wedge_terms(b, l, r, b.spec_bases()[l + r].spec_row_count() as int),
            ti,
        ),
{
    lemma_wedge_reversed(a, b, l, r, ti, a.spec_bases()[l + r].spec_row_count() as int);
}

/// Whether `b` is the complex `a` with the orientation of simplex `x` of
/// degree `d` reversed, and with every basis and every other orientation
/// unchanged.
pub open spec fn orientation_reversed(a: ComplexCore, b: ComplexCore, d: int, x: int) -> bool {
    let oa = a.spec_orientations();
    let ob = b.spec_orientations();
    &&& a.spec_bases() == b.spec_bases()
    &&& oa.len() == ob.len()
    &&& 0 <= d < oa.len()
    &&& forall|e: int| 0 <= e < oa.len() && e != d ==> #[trigger] ob[e] == oa[e]
    &&& ob[d].len() == oa[d].len()
    &&& 0 <= x < oa[d].len()
    &&& forall|y: int| 0 <= y < oa[d].len() && y != x ==> #[trigger] ob[d][y] == oa[d][y]
    &&& ob[d][x] == -oa[d][x]
}

/// How many of the three simplices of a term (the target `u` of degree
/// `l + r`, the left face `li` of degree `l`, the right face `ri` of degree
/// `r`) are the simplex `x` of degree `d`.
pub open spec fn reversed_factors(l: int, r: int, d: int, x: int, u: int, li: int, ri: int) -> int {
    (if d == l + r && u == x { 1int } else { 0int }) + (if d == l && li == x { 1int } else { 0int }) + (if d == r
        && ri == x { 1int } else { 0int })
}

/// Whether `y` lists the terms of `x` with the same simplices and faces, and
/// with the sign negated exactly on the terms in which simplex `pos` of
/// degree `d` occurs an odd number of times.
pub open spec fn signs_follow_orientation(
    xs: Seq<(usize, OrientedFacePair)>,
    ys: Seq<(usize, OrientedFacePair)>,
    l: int,
    r: int,
    d: int,
    pos: int,
) -> bool {
    &&& ys.len() == xs.len()
    &&& forall|k: int|
        0 <= k < xs.len() ==> {
            &&& (#[trigger] ys[k]).0 == xs[k].0
            &&& ys[k].1.left == xs[k].1.left
            &&& ys[k].1.right == xs[k].1.right
            &&& ys[k].1.sign == if reversed_factors(
                l,
                r,
                d,
                pos,
                xs[k].0 as int,
                xs[k].1.left as int,
                xs[k].1.right as int,
            ) % 2 == 1 {
                -xs[k].1.sign
            } else {
                xs[k].1.sign as int
            }
        }
}

proof fn lemma_follow_concat(
    x1: Seq<(usize, OrientedFacePair)>,
    y1: Seq<(usize, OrientedFacePair)>,
    x2: Seq<(usize, OrientedFacePair)>,
    y2: Seq<(usize, OrientedFacePair)>,
    l: int,
    r: int,
    d: int,
    pos: int,
)
    requires
        signs_follow_orientation(x1, y1, l, r, d, pos),
        signs_follow_orientation(x2, y2, l, r, d, pos),
    ensures
        signs_follow_orientation(x1 + x2, y1 + y2, l, r, d, pos),
{
    let x = x1 + x2;
    let y = y1 + y2;
    assert forall|k: int| 0 <= k < x.len() implies {
        &&& (#[trigger] y[k]).0 == x[k].0
        &&& y[k].1.left == x[k].1.left
        &&& y[k].1.right == x[k].1.right
        &&& y[k].1.sign == if reversed_factors(l, r, d, pos, x[k].0 as int, x[k].1.left as int, x[k].1.right as int)
            % 2 == 1 {
            -x[k].1.sign
        } else {
            x[k].1.sign as int
        }
    } by {
        if k < x1.len() {
            assert(x[k] == x1[k] && y[k] == y1[k]);
        } else {
            assert(x[k] == x2[k - x1.len()] && y[k] == y2[k - x1.len()]);
        }
    }
}

/// The conditions under which reversing one orientation is compared: unit
/// orientations of the three degrees, every named face present, and
/// orientation lists as long as their bases.
pub open spec fn reversal_frame(a: ComplexCore, b: ComplexCore, l: int, r: int, d: int, x: int) -> bool {
    let oa = a.spec_orientations();
    let t = l + r;
    &&& 0 <= l
    &&& 0 <= r
    &&& orientation_reversed(a, b, d, x)
    &&& t < oa.len()
    &&& signs_only(oa[l])
    &&& signs_only(oa[r])
    &&& signs_only(oa[t])
    &&& oa[l].len() == rows_of(a, l).len()
    &&& oa[r].len() == rows_of(a, r).len()
    &&& rows_of(a, l).len() <= usize::MAX
    &&& rows_of(a, r).len() <= usize::MAX
    &&& oa[t].len() == a.spec_bases()[t].spec_row_count()
    &&& a.spec_bases()[t].spec_row_count() <= usize::MAX
    &&& wedge_faces_found(a, l, r)
}

proof fn lemma_term_follows(a: ComplexCore, b: ComplexCore, l: int, r: int, d: int, pos: int, u: int, s: int, c: Seq<usize>)
    requires
        reversal_frame(a, b, l, r, d, pos),
        0 <= u < a.spec_bases()[l + r].spec_row_count(),
        0 <= s <= l + r,
        combos(other_positions(l + r, s), 0, l as nat).contains(c),
    ensures
        signs_follow_orientation(seq![wedge_term(a, l, r, u, s, c)], seq![wedge_term(b, l, r, u, s, c)], l, r, d, pos),
{
    let t = l + r;
    let oa = a.spec_orientations();
    let ob = b.spec_orientations();
    assert(wedge_term_found(a, l, r, u, s, c));
    let li = rows_of(a, l).index_of(left_face(a, t, u, s, c));
    let ri = rows_of(a, r).index_of(right_face(a, t, u, s, c));
    assert(rows_of(b, l) == rows_of(a, l) && rows_of(b, r) == rows_of(a, r) && rows_of(b, t) == rows_of(a, t));
    assert(0 <= li < oa[l].len() && 0 <= ri < oa[r].len());
    let lv = oa[l][li] as int;
    let rv = oa[r][ri] as int;
    let sv = shuffle_sign(t, s, c);
    let av = oa[t][u] as int;
    let lb = ob[l][li] as int;
    let rb = ob[r][ri] as int;
    let ab = ob[t][u] as int;
    let fa: int = if d == t && u == pos { 1int } else { 0int };
    let fl: int = if d == l && li == pos { 1int } else { 0int };
    let fr: int = if d == r && ri == pos { 1int } else { 0int };
    assert(ab == if fa == 1 { -av } else { av });
    assert(lb == if fl == 1 { -lv } else { lv });
    assert(rb == if fr == 1 { -rv } else { rv });
    assert(lv == 1 || lv == -1);
    assert(rv == 1 || rv == -1);
    assert(av == 1 || av == -1);
    assert(sv == 1 || sv == -1);
    assert(av * lv * rv * sv == 1 || av * lv * rv * sv == -1) by (nonlinear_arith)
        requires
            lv == 1 || lv == -1,
            rv == 1 || rv == -1,
            av == 1 || av == -1,
            sv == 1 || sv == -1,
    ;
    assert(ab * lb * rb * sv == if (fa + fl + fr) % 2 == 1 { -(av * lv * rv * sv) } else { av * lv * rv * sv })
        by (nonlinear_arith)
        requires
            ab == if fa == 1 { -av } else { av },
            lb == if fl == 1 { -lv } else { lv },
            rb == if fr == 1 { -rv } else { rv },
            fa == 0 || fa == 1,
            fl == 0 || fl == 1,
            fr == 0 || fr == 1,
    ;
    assert(wedge_term(a, l, r, u, s, c).1.sign == av * lv * rv * sv);
    assert(wedge_term(b, l, r, u, s, c).1.sign == ab * lb * rb * sv);
    let xs = seq![wedge_term(a, l, r, u, s, c)];
    let ys = seq![wedge_term(b, l, r, u, s, c)];
    assert(xs[0] == wedge_term(a, l, r, u, s, c));
    assert(ys[0] == wedge_term(b, l, r, u, s, c));
    assert(xs[0].0 == u);
    assert(xs[0].1.left == li && xs[0].1.right == ri);
    assert(reversed_factors(l, r, d, pos, u, li, ri) == fa + fl + fr);
}

proof fn lemma_shared_follows(a: ComplexCore, b: ComplexCore, l: int, r: int, d: int, pos: int, u: int, s: int)
    requires
        reversal_frame(a, b, l, r, d, pos),
        0 <= u < a.spec_bases()[l + r].spec_row_count(),
        0 <= s <= l + r,
    ensures
        signs_follow_orientation(shared_terms(a, l, r, u, s), shared_terms(b, l, r, u, s), l, r, d, pos),
{
    let cs = combos(other_positions(l + r, s), 0, l as nat);
    let x = shared_terms(a, l, r, u, s);
    let y = shared_terms(b, l, r, u, s);
    assert forall|k: int| 0 <= k < x.len() implies {
        &&& (#[trigger] y[k]).0 == x[k].0
        &&& y[k].1.left == x[k].1.left
        &&& y[k].1.right == x[k].1.right
        &&& y[k].1.sign == if reversed_factors(l, r, d, pos, x[k].0 as int, x[k].1.left as int, x[k].1.right as int)
            % 2 == 1 {
            -x[k].1.sign
        } else {
            x[k].1.sign as int
        }
    } by {
        assert(cs.contains(cs[k]));
        lemma_term_follows(a, b, l, r, d, pos, u, s, cs[k]);
        assert(x[k] == wedge_term(a, l, r, u, s, cs[k]));
        assert(y[k] == wedge_term(b, l, r, u, s, cs[k]));
        assert(seq![wedge_term(a, l, r, u, s, cs[k])][0] == x[k]);
        assert(seq![wedge_term(b, l, r, u, s, cs[k])][0] == y[k]);
    }
}

proof fn lemma_simplex_follows(a: ComplexCore, b: ComplexCore, l: int, r: int, d: int, pos: int, u: int, m: int)
    requires
        reversal_frame(a, b, l, r, d, pos),
        0 <= u < a.spec_bases()[l + r].spec_row_count(),
        m <= l + r + 1,
    ensures
        signs_follow_orientation(simplex_terms(a, l, r, u, m), simplex_terms(b, l, r, u, m), l, r, d, pos),
    decreases m,
{
    if m > 0 {
        lemma_simplex_follows(a, b, l, r, d, pos, u, m - 1);
        lemma_shared_follows(a, b, l, r, d, pos, u, m - 1);
        lemma_follow_concat(
            simplex_terms(a, l, r, u, m - 1),
            simplex_terms(b, l, r, u, m - 1),
            shared_terms(a, l, r, u, m - 1),
            shared_terms(b, l, r, u, m - 1),
            l,
            r,
            d,
            pos,
        );
    }
}

proof fn lemma_wedge_follows(a: ComplexCore, b: ComplexCore, l: int, r: int, d: int, pos: int, n: int)
    requires
        reversal_frame(a, b, l, r, d, pos),
        n <= a.spec_bases()[l + r].spec_row_count(),
    ensures
        signs_follow_orientation(wedge_terms(a, l, r, n), wedge_terms(b, l, r, n), l, r, d, pos),
    decreases n,
{
    if n > 0 {
        lemma_wedge_follows(a, b, l, r, d, pos, n - 1);
        lemma_simplex_follows(a, b, l, r, d, pos, n - 1, l + r + 1);
        lemma_follow_concat(
            wedge_terms(a, l, r, n - 1),
            wedge_terms(b, l, r, n - 1),
            simplex_terms(a, l, r, n - 1, l + r + 1),
            simplex_terms(b, l, r, n - 1, l + r + 1),
            l,
            r,
            d,
            pos,
        );
    }
}

/// Each wedge term's sign is the product of the orientations of its target
/// simplex and its two faces with the shuffle sign: reversing the
/// orientation of one simplex keeps every term's simplex and faces, negates
/// the sign of each term in which that simplex occurs an odd number of
/// times (as target, left face or right face), and leaves every other sign
/// unchanged.
pub proof fn law_wedge_sign_follows_orientations(a: ComplexCore, b: ComplexCore, l: int, r: int, d: int, x: int)
    requires
        reversal_frame(a, b, l, r, d, x),
    ensures
        signs_follow_orientation(
            wedge_terms(a, l, r, a.spec_bases()[l + r].spec_row_count() as int),
            wedge_terms(b, l, r, b.spec_bases()[l + r].spec_row_count() as int),
            l,
            r,
            d,
            x,
        ),
{
    lemma_wedge_follows(a, b, l, r, d, x, a.spec_bases()[l + r].spec_row_count() as int);
}

} // verus!
