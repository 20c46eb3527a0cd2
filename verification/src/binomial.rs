use vstd::prelude::*;

verus! {

/// Binomial coefficient by Pascal's rule.
pub open spec fn binomial(n: nat, k: nat) -> nat
    decreases n,
{
    if k == 0 {
        1
    } else if n == 0 {
        0
    } else {
        binomial((n - 1) as nat, (k - 1) as nat) + binomial((n - 1) as nat, k)
    }
}

pub proof fn lemma_binomial_above(n: nat, k: nat)
    requires
        k > n,
    ensures
        binomial(n, k) == 0,
    decreases n,
{
    if n > 0 {
        lemma_binomial_above((n - 1) as nat, (k - 1) as nat);
        lemma_binomial_above((n - 1) as nat, k);
    }
}

pub proof fn lemma_binomial_diagonal(n: nat)
    ensures
        binomial(n, n) == 1,
    decreases n,
{
    if n > 0 {
        lemma_binomial_diagonal((n - 1) as nat);
        lemma_binomial_above((n - 1) as nat, n);
    }
}

pub proof fn lemma_binomial_one(n: nat)
    ensures
        binomial(n, 1) == n,
    decreases n,
{
    if n > 0 {
        lemma_binomial_one((n - 1) as nat);
        assert(binomial((n - 1) as nat, 0) == 1);
    }
}

/// `C(n, k) * (n - k) == C(n, k + 1) * (k + 1)`.
pub proof fn lemma_binomial_step(n: nat, k: nat)
    requires
        k <= n,
    ensures
        binomial(n, k) * (n - k) == binomial(n, k + 1) * (k + 1),
    decreases n,
{
    if n == k {
        lemma_binomial_above(n, k + 1);
        assert(binomial(n, k) * (n - k) == 0) by (nonlinear_arith)
            requires
                n - k == 0,
        ;
        assert(binomial(n, k + 1) * (k + 1) == 0) by (nonlinear_arith)
            requires
                binomial(n, k + 1) == 0,
        ;
    } else if k == 0 {
        lemma_binomial_one(n);
        assert(binomial(n, 0) == 1);
        assert(binomial(n, k) * (n - k) == n);
        assert(binomial(n, k + 1) * (k + 1) == n);
    } else {
        let m = (n - 1) as nat;
        // C(n, k+1)(k+1) = C(m, k)(k+1) + C(m, k+1)(k+1) = C(m, k)(k+1) + C(m, k)(m-k) = C(m, k) n
        lemma_binomial_step(m, k);
        // C(n, k)(n-k) = C(m, k-1)(n-k) + C(m, k)(n-k) = C(m, k) k + C(m, k)(n-k) = C(m, k) n
        lemma_binomial_step(m, (k - 1) as nat);
        let a = binomial(m, (k - 1) as nat);
        let b = binomial(m, k);
        let c = binomial(m, k + 1);
        assert(binomial(n, k) == a + b);
        assert(binomial(n, k + 1) == b + c);
        assert((a + b) * (n - k) == (b + c) * (k + 1)) by (nonlinear_arith)
            requires
                b * (m - k) == c * (k + 1),
                a * (m - (k - 1)) == b * k,
                m == n - 1,
                1 <= k < n,
        ;
    }
}

/// `C(n, k) == C(n, n - k)`.
pub proof fn lemma_binomial_symmetric(n: nat, k: nat)
    requires
        k <= n,
    ensures
        binomial(n, k) == binomial(n, (n - k) as nat),
    decreases n,
{
    if k == 0 {
        lemma_binomial_diagonal(n);
    } else if k == n {
        lemma_binomial_diagonal(n);
    } else {
        let m = (n - 1) as nat;
        lemma_binomial_symmetric(m, (k - 1) as nat);
        lemma_binomial_symmetric(m, k);
        assert(binomial(n, (n - k) as nat) == binomial(m, (n - k - 1) as nat) + binomial(m, (n - k) as nat));
    }
}

/// Whether the running product `C(n, j) * (n - j)` leaves `usize` at some step `j < steps`.
pub open spec fn binomial_product_overflows(n: nat, steps: nat) -> bool {
    exists|j: nat| j < steps && #[trigger] binomial(n, j) * (n - j) > usize::MAX
}

pub open spec fn binomial_steps(n: nat, k: nat) -> nat {
    if k <= n - k {
        k
    } else {
        (n - k) as nat
    }
}

/// The binomial coefficient `C(total, selected)`, computed by the multiplicative
/// formula over the smaller of `selected` and `total - selected` steps; `None`
/// when an intermediate product leaves `usize`.
pub fn checked_binomial(total: usize, selected: usize) -> (r: Option<usize>)
    ensures
        selected > total ==> r == Some(0usize),
        selected <= total ==> (r is None <==> binomial_product_overflows(
            total as nat,
            binomial_steps(total as nat, selected as nat),
        )),
        r matches Some(v) ==> v == binomial(total as nat, selected as nat),
{
    if selected > total {
        proof {
            lemma_binomial_above(total as nat, selected as nat);
        }
        return Some(0);
    }
    let steps = if selected <= total - selected {
        selected
    } else {
        total - selected
    };
    proof {
        lemma_binomial_symmetric(total as nat, selected as nat);
    }
    let ghost n = total as nat;
    let mut result: usize = 1;
    let mut step: usize = 0;
    while step < steps
        invariant
            steps <= total,
            selected <= total,
            step <= steps,
            n == total,
            steps == binomial_steps(n, selected as nat),
            result == binomial(n, step as nat),
            forall|j: nat| j < step ==> #[trigger] binomial(n, j) * (n - j) <= usize::MAX,
        decreases steps - step,
    {
        proof {
            lemma_binomial_step(n, step as nat);
        }
        let product = match result.checked_mul(total - step) {
            Some(p) => p,
            None => {
                assert(binomial(n, step as nat) * (n - step) > usize::MAX);
                return None;
            },
        };
        let next = product / (step + 1);
        proof {
            let b = binomial(n, (step + 1) as nat);
            assert(product == b * (step + 1));
            assert((b * (step + 1)) / (step + 1) == b) by (nonlinear_arith)
                requires
                    step + 1 > 0,
            ;
        }
        result = next;
        step = step + 1;
    }
    proof {
        if binomial_product_overflows(n, steps as nat) {
            let j = choose|j: nat| j < steps && #[trigger] binomial(n, j) * (n - j) > usize::MAX;
            assert(binomial(n, j) * (n - j) <= usize::MAX);
        }
    }
    Some(result)
}

} // verus!
