use vstd::prelude::*;

use crate::lex::{lex_order, lemma_lex_eq, lemma_lex_trans, compare_rows};

verus! {

/// The views of a table of key rows.
pub open spec fn key_views(keys: Seq<Vec<usize>>) -> Seq<Seq<usize>> {
    keys.map_values(|k: Vec<usize>| k@)
}

/// Strict total order on row indices: by key, then by index.
pub open spec fn before(keys: Seq<Seq<usize>>, a: usize, b: usize) -> bool {
    lex_order(keys[a as int], keys[b as int]) == -1 || (lex_order(keys[a as int], keys[b as int]) == 0
        && a < b)
}

/// Whether `s` is strictly increasing under [`before`].
pub open spec fn sorted_by_key(keys: Seq<Seq<usize>>, s: Seq<usize>) -> bool {
    forall|i: int, j: int| 0 <= i < j < s.len() ==> before(keys, #[trigger] s[i], #[trigger] s[j])
}

pub proof fn lemma_before_trans(keys: Seq<Seq<usize>>, a: usize, b: usize, c: usize)
    requires
        before(keys, a, b),
        before(keys, b, c),
    ensures
        before(keys, a, c),
{
    lemma_lex_eq(keys[a as int], keys[b as int]);
    lemma_lex_eq(keys[b as int], keys[c as int]);
    lemma_lex_trans(keys[a as int], keys[b as int], keys[c as int]);
}

pub proof fn lemma_before_total(keys: Seq<Seq<usize>>, a: usize, b: usize)
    ensures
        a != b ==> before(keys, a, b) || before(keys, b, a),
        !(before(keys, a, b) && before(keys, b, a)),
        !before(keys, a, a),
{
    lemma_lex_eq(keys[a as int], keys[b as int]);
    lemma_lex_eq(keys[a as int], keys[a as int]);
}

pub proof fn lemma_push_contains(s: Seq<usize>, z: usize, x: usize)
    ensures
        s.push(z).contains(x) <==> s.contains(x) || x == z,
{
    if s.push(z).contains(x) {
        let a = choose|a: int| 0 <= a < s.len() + 1 && s.push(z)[a] == x;
        if a < s.len() {
            assert(s[a] == x);
        }
    }
    if s.contains(x) {
        let a = choose|a: int| 0 <= a < s.len() && s[a] == x;
        assert(s.push(z)[a] == x);
    }
    if x == z {
        assert(s.push(z)[s.len() as int] == x);
    }
}

fn key_before(keys: &Vec<Vec<usize>>, a: usize, b: usize) -> (r: bool)
    requires
        a < keys@.len(),
        b < keys@.len(),
    ensures
        r == before(key_views(keys@), a, b),
{
    let order = compare_rows(keys[a].as_slice(), keys[b].as_slice());
    proof {
        lemma_lex_eq(keys@[a as int]@, keys@[b as int]@);
    }
    order < 0 || (order == 0 && a < b)
}

fn merge(keys: &Vec<Vec<usize>>, left: Vec<usize>, right: Vec<usize>) -> (r: Vec<usize>)
    requires
        forall|i: int| 0 <= i < left@.len() ==> #[trigger] left@[i] < keys@.len(),
        forall|i: int| 0 <= i < right@.len() ==> #[trigger] right@[i] < keys@.len(),
        sorted_by_key(key_views(keys@), left@),
        sorted_by_key(key_views(keys@), right@),
        forall|i: int, j: int| 0 <= i < left@.len() && 0 <= j < right@.len() ==> #[trigger] left@[i] != #[trigger] right@[j],
    ensures
        r@.len() == left@.len() + right@.len(),
        sorted_by_key(key_views(keys@), r@),
        forall|x: usize| #[trigger] r@.contains(x) <==> left@.contains(x) || right@.contains(x),
{
    let ghost k = key_views(keys@);
    let mut out: Vec<usize> = Vec::new();
    let mut i: usize = 0;
    let mut j: usize = 0;
    while i < left.len() || j < right.len()
        invariant
            k == key_views(keys@),
            i <= left@.len(),
            j <= right@.len(),
            out@.len() == i + j,
            forall|a: int| 0 <= a < left@.len() ==> #[trigger] left@[a] < keys@.len(),
            forall|a: int| 0 <= a < right@.len() ==> #[trigger] right@[a] < keys@.len(),
            sorted_by_key(k, left@),
            sorted_by_key(k, right@),
            forall|a: int, b: int| 0 <= a < left@.len() && 0 <= b < right@.len() ==> #[trigger] left@[a] != #[trigger] right@[b],
            sorted_by_key(k, out@),
            forall|a: int, b: int| 0 <= a < out@.len() && i <= b < left@.len() ==> before(k, #[trigger] out@[a], #[trigger] left@[b]),
            forall|a: int, b: int| 0 <= a < out@.len() && j <= b < right@.len() ==> before(k, #[trigger] out@[a], #[trigger] right@[b]),
            forall|x: usize| #[trigger] out@.contains(x) <==> left@.take(i as int).contains(x) || right@.take(j as int).contains(x),
        decreases left@.len() + right@.len() - i - j,
    {
        let take_left = if i == left.len() {
            false
        } else if j == right.len() {
            true
        } else {
            key_before(keys, left[i], right[j])
        };
        let ghost old_out = out@;
        if take_left {
            let x = left[i];
            proof {
                if j < right@.len() {
                    lemma_before_total(k, x, right@[j as int]);
                }
                assert forall|b: int| j <= b < right@.len() implies before(k, x, #[trigger] right@[b]) by {
                    if b > j {
                        lemma_before_trans(k, x, right@[j as int], right@[b]);
                    }
                }
                assert forall|b: int| i + 1 <= b < left@.len() implies before(k, x, #[trigger] left@[b]) by {
                    assert(before(k, left@[i as int], left@[b]));
                }
                assert(left@.take(i + 1) == left@.take(i as int).push(x));
            }
            out.push(x);
            i = i + 1;
        } else {
            let y = right[j];
            proof {
                if i < left@.len() {
                    lemma_before_total(k, left@[i as int], y);
                }
                assert forall|b: int| i <= b < left@.len() implies before(k, y, #[trigger] left@[b]) by {
                    if b > i {
                        lemma_before_trans(k, y, left@[i as int], left@[b]);
                    }
                }
                assert forall|b: int| j + 1 <= b < right@.len() implies before(k, y, #[trigger] right@[b]) by {
                    assert(before(k, right@[j as int], right@[b]));
                }
                assert(right@.take(j + 1) == right@.take(j as int).push(y));
            }
            out.push(y);
            j = j + 1;
        }
        proof {
            let z = out@[out@.len() - 1];
            assert(out@ == old_out.push(z));
            assert forall|x: usize| #[trigger] out@.contains(x) <==> left@.take(i as int).contains(x)
                || right@.take(j as int).contains(x) by {
                lemma_push_contains(old_out, z, x);
                if take_left {
                    lemma_push_contains(left@.take(i - 1), z, x);
                } else {
                    lemma_push_contains(right@.take(j - 1), z, x);
                }
            }
        }
    }
    proof {
        assert(left@.take(left@.len() as int) == left@);
        assert(right@.take(right@.len() as int) == right@);
    }
    out
}

fn sort_slice(keys: &Vec<Vec<usize>>, items: &[usize]) -> (r: Vec<usize>)
    requires
        forall|i: int| 0 <= i < items@.len() ==> #[trigger] items@[i] < keys@.len(),
        forall|i: int, j: int| 0 <= i < j < items@.len() ==> items@[i] != items@[j],
    ensures
        r@.len() == items@.len(),
        sorted_by_key(key_views(keys@), r@),
        forall|x: usize| #[trigger] r@.contains(x) <==> items@.contains(x),
    decreases items@.len(),
{
    if items.len() <= 1 {
        let mut out: Vec<usize> = Vec::new();
        if items.len() == 1 {
            out.push(items[0]);
            proof {
                assert(out@ == items@);
            }
        } else {
            proof {
                assert(out@ == items@);
            }
        }
        return out;
    }
    let mid = items.len() / 2;
    let left_items = &items[0..mid];
    let right_items = &items[mid..items.len()];
    let left = sort_slice(keys, left_items);
    let right = sort_slice(keys, right_items);
    proof {
        assert forall|a: int, b: int| 0 <= a < left@.len() && 0 <= b < right@.len() implies #[trigger] left@[a]
            != #[trigger] right@[b] by {
            assert(left@.contains(left@[a]));
            assert(right@.contains(right@[b]));
            let p = choose|p: int| 0 <= p < left_items@.len() && left_items@[p] == left@[a];
            let q = choose|q: int| 0 <= q < right_items@.len() && right_items@[q] == right@[b];
            assert(left_items@[p] == items@[p]);
            assert(right_items@[q] == items@[mid + q]);
        }
        assert forall|a: int| 0 <= a < left@.len() implies #[trigger] left@[a] < keys@.len() by {
            assert(left@.contains(left@[a]));
        }
        assert forall|a: int| 0 <= a < right@.len() implies #[trigger] right@[a] < keys@.len() by {
            assert(right@.contains(right@[a]));
        }
    }
    let merged = merge(keys, left, right);
    proof {
        assert forall|x: usize| #[trigger] merged@.contains(x) <==> items@.contains(x) by {
            if items@.contains(x) {
                let p = choose|p: int| 0 <= p < items@.len() && items@[p] == x;
                if p < mid {
                    assert(left_items@[p] == x);
                    assert(left_items@.contains(x));
                } else {
                    assert(right_items@[p - mid] == x);
                    assert(right_items@.contains(x));
                }
            }
            if left_items@.contains(x) {
                let p = choose|p: int| 0 <= p < left_items@.len() && left_items@[p] == x;
                assert(items@[p] == x);
            }
            if right_items@.contains(x) {
                let p = choose|p: int| 0 <= p < right_items@.len() && right_items@[p] == x;
                assert(items@[mid + p] == x);
            }
        }
    }
    merged
}

/// The order that sorts rows by key, then by position: a permutation of
/// `0..keys.len()` along which keys never decrease.
pub fn sorted_order(keys: &Vec<Vec<usize>>) -> (order: Vec<usize>)
    ensures
        order@.len() == keys@.len(),
        forall|i: int| 0 <= i < order@.len() ==> #[trigger] order@[i] < keys@.len(),
        forall|i: int, j: int| 0 <= i < j < order@.len() ==> order@[i] != order@[j],
        forall|x: usize| x < keys@.len() ==> #[trigger] order@.contains(x),
        sorted_by_key(key_views(keys@), order@),
{
    let mut items: Vec<usize> = Vec::new();
    let mut p: usize = 0;
    while p < keys.len()
        invariant
            p <= keys@.len(),
            items@.len() == p,
            forall|i: int| 0 <= i < p ==> #[trigger] items@[i] == i,
        decreases keys@.len() - p,
    {
        items.push(p);
        p = p + 1;
    }
    let order = sort_slice(keys, items.as_slice());
    proof {
        assert forall|i: int| 0 <= i < order@.len() implies #[trigger] order@[i] < keys@.len() by {
            assert(order@.contains(order@[i]));
            let q = choose|q: int| 0 <= q < items@.len() && items@[q] == order@[i];
        }
        assert forall|i: int, j: int| 0 <= i < j < order@.len() implies order@[i] != order@[j] by {
            lemma_before_total(key_views(keys@), order@[i], order@[j]);
        }
        assert forall|x: usize| x < keys@.len() implies #[trigger] order@.contains(x) by {
            assert(items@[x as int] == x);
            assert(items@.contains(x));
        }
    }
    order
}

} // verus!
