//! Finite sums of reals.
use vstd::prelude::*;

verus! {

/// The sum of `f(1)` to `f(n)`.
pub open spec fn sum(f: spec_fn(int) -> real, n: nat) -> real
    decreases n,
{
    if n == 0 {
        0 as real
    } else {
        sum(f, (n - 1) as nat) + f(n as int)
    }
}

/// A sum depends on its terms alone.
pub proof fn lemma_same(f: spec_fn(int) -> real, g: spec_fn(int) -> real, n: nat)
    requires
        forall|j: int| 1 <= j <= n ==> #[trigger] f(j) == g(j),
    ensures
        sum(f, n) == sum(g, n),
    decreases n,
{
    if n > 0 {
        lemma_same(f, g, (n - 1) as nat);
        assert(f(n as int) == g(n as int));
    }
}

/// The first term of a sum, and the rest.
pub proof fn lemma_front(f: spec_fn(int) -> real, n: nat)
    requires
        n > 0,
    ensures
        sum(f, n) == f(1) + sum(|j: int| f(j + 1), (n - 1) as nat),
    decreases n,
{
    if n == 1 {
        reveal_with_fuel(sum, 2);
    } else {
        lemma_front(f, (n - 1) as nat);
    }
}

/// A sum taken from its end.
pub proof fn lemma_reverse(f: spec_fn(int) -> real, n: nat)
    ensures
        sum(|j: int| f(n + 1 - j), n) == sum(f, n),
    decreases n,
{
    if n > 0 {
        let m = (n - 1) as nat;
        let later = |j: int| f(j + 1);
        lemma_front(f, n);
        lemma_reverse(later, m);
        lemma_same(|j: int| f(n + 1 - j), |j: int| later(m + 1 - j), m);
    }
}

/// A sum of terms of which each is one and a multiple of another.
pub proof fn lemma_linear(f: spec_fn(int) -> real, g: spec_fn(int) -> real, c: real, n: nat)
    ensures
        sum(|j: int| f(j) + c * g(j), n) == sum(f, n) + c * sum(g, n),
    decreases n,
{
    if n > 0 {
        lemma_linear(f, g, c, (n - 1) as nat);
        let s = sum(g, (n - 1) as nat);
        let x = g(n as int);
        assert(c * (s + x) == c * s + c * x) by (nonlinear_arith);
    } else {
        assert(c * (0 as real) == 0 as real) by (nonlinear_arith);
    }
}

/// A sum is bounded by the sum of what bounds its terms.
pub proof fn lemma_bound(f: spec_fn(int) -> real, g: spec_fn(int) -> real, n: nat)
    requires
        forall|j: int| 1 <= j <= n ==> -g(j) <= #[trigger] f(j) <= g(j),
    ensures
        -sum(g, n) <= sum(f, n) <= sum(g, n),
    decreases n,
{
    if n > 0 {
        lemma_bound(f, g, (n - 1) as nat);
        assert(-g(n as int) <= f(n as int) <= g(n as int));
    }
}

/// A sum of terms that are not negative grows with their number.
pub proof fn lemma_grows(g: spec_fn(int) -> real, m: nat, n: nat)
    requires
        m <= n,
        forall|j: int| 1 <= j <= n ==> #[trigger] g(j) >= 0 as real,
    ensures
        0 as real <= sum(g, m) <= sum(g, n),
    decreases n,
{
    if n > 0 {
        lemma_grows(g, 0, (n - 1) as nat);
        assert(g(n as int) >= 0 as real);
        if m < n {
            lemma_grows(g, m, (n - 1) as nat);
        }
    }
}

/// A sum of equal terms.
pub proof fn lemma_constant(c: real, n: nat)
    ensures
        sum(|j: int| c, n) == n as real * c,
    decreases n,
{
    if n > 0 {
        lemma_constant(c, (n - 1) as nat);
        let m = (n - 1) as real;
        assert(n as real * c == m * c + c) by (nonlinear_arith)
            requires
                n as real == m + 1 as real,
        ;
    } else {
        assert(0 as real * c == 0 as real) by (nonlinear_arith);
    }
}

} // verus!
