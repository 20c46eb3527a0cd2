use vstd::prelude::*;

verus! {

/// Lexicographic comparison of index sequences, as slices of `usize` order:
/// `-1` for less, `0` for equal, `1` for greater; a proper prefix is less.
pub open spec fn lex_order(a: Seq<usize>, b: Seq<usize>) -> int
    decreases a.len(),
{
    if a.len() == 0 && b.len() == 0 {
        0
    } else if a.len() == 0 {
        -1
    } else if b.len() == 0 {
        1
    } else if a[0] < b[0] {
        -1
    } else if a[0] > b[0] {
        1
    } else {
        lex_order(a.drop_first(), b.drop_first())
    }
}

pub open spec fn lex_lt(a: Seq<usize>, b: Seq<usize>) -> bool {
    lex_order(a, b) == -1
}

pub proof fn lemma_lex_eq(a: Seq<usize>, b: Seq<usize>)
    ensures
        lex_order(a, b) == 0 <==> a == b,
        lex_order(a, b) == -lex_order(b, a),
        -1 <= lex_order(a, b) <= 1,
    decreases a.len(),
{
    if a.len() > 0 && b.len() > 0 && a[0] == b[0] {
        lemma_lex_eq(a.drop_first(), b.drop_first());
        if a.drop_first() == b.drop_first() {
            assert(a == seq![a[0]] + a.drop_first());
            assert(b == seq![b[0]] + b.drop_first());
        }
    }
    if a.len() == 0 && b.len() == 0 {
        assert(a =~= b);
    }
}

pub proof fn lemma_lex_trans(a: Seq<usize>, b: Seq<usize>, c: Seq<usize>)
    requires
        lex_order(a, b) <= 0,
        lex_order(b, c) <= 0,
    ensures
        lex_order(a, c) <= 0,
        lex_order(a, b) == -1 || lex_order(b, c) == -1 ==> lex_order(a, c) == -1,
    decreases a.len(),
{
    lemma_lex_eq(a, b);
    lemma_lex_eq(b, c);
    lemma_lex_eq(a, c);
    if a.len() > 0 && b.len() > 0 && c.len() > 0 && a[0] == b[0] && b[0] == c[0] {
        lemma_lex_trans(a.drop_first(), b.drop_first(), c.drop_first());
    }
}

/// Lexicographic comparison of two equal-width slices.
pub fn compare_rows(a: &[usize], b: &[usize]) -> (r: i8)
    ensures
        r as int == lex_order(a@, b@),
{
    let mut k: usize = 0;
    proof {
        assert(a@.skip(0) == a@);
        assert(b@.skip(0) == b@);
    }
    while k < a.len() && k < b.len()
        invariant
            k <= a@.len(),
            k <= b@.len(),
            lex_order(a@, b@) == lex_order(a@.skip(k as int), b@.skip(k as int)),
        decreases a.len() - k,
    {
        if a[k] < b[k] {
            return -1;
        }
        if a[k] > b[k] {
            return 1;
        }
        proof {
            assert(a@.skip(k as int).drop_first() == a@.skip(k + 1));
            assert(b@.skip(k as int).drop_first() == b@.skip(k + 1));
        }
        k = k + 1;
    }
    if a.len() == b.len() {
        0
    } else if k == a.len() {
        -1
    } else {
        1
    }
}

} // verus!
