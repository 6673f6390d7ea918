//! Sums over ranges of numbers.

use vstd::prelude::*;

verus! {

/// The sum of `f` over the first `n` numbers.
pub open spec fn tally(f: spec_fn(int) -> nat, n: nat) -> nat
    decreases n,
{
    if n == 0 {
        0
    } else {
        tally(f, (n - 1) as nat) + f(n - 1)
    }
}

/// Two functions that differ in one place only.
pub proof fn lemma_tally(f: spec_fn(int) -> nat, g: spec_fn(int) -> nat, k: int, n: nat)
    requires
        0 <= k,
        forall|i: int| #![trigger g(i)] 0 <= i < n && i != k ==> g(i) == f(i),
    ensures
        k < n ==> tally(g, n) + f(k) == tally(f, n) + g(k),
        k >= n ==> tally(g, n) == tally(f, n),
    decreases n,
{
    if n > 0 {
        lemma_tally(f, g, k, (n - 1) as nat);
        if n - 1 != k {
            assert(g(n - 1) == f(n - 1));
        }
    }
}

} // verus!
