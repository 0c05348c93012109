//! Counting predicates over a prefix of node identifiers.

use vstd::prelude::*;

verus! {

/// Number of identifiers `v < k` for which `f(v)` holds.
pub open spec fn count_below(k: nat, f: spec_fn(u32) -> bool) -> nat
    decreases k,
{
    if k == 0 {
        0
    } else {
        count_below((k - 1) as nat, f) + if f((k - 1) as u32) { 1nat } else { 0nat }
    }
}

/// A count never exceeds the prefix length.
pub proof fn lemma_count_bound(k: nat, f: spec_fn(u32) -> bool)
    ensures
        count_below(k, f) <= k,
    decreases k,
{
    if k > 0 {
        lemma_count_bound((k - 1) as nat, f);
    }
}

/// Predicates that agree on the prefix have equal counts.
pub proof fn lemma_count_ext(k: nat, f: spec_fn(u32) -> bool, g: spec_fn(u32) -> bool)
    requires
        k <= u32::MAX + 1,
        forall|v: u32| v < k ==> #[trigger] f(v) == g(v),
    ensures
        count_below(k, f) == count_below(k, g),
    decreases k,
{
    if k > 0 {
        lemma_count_ext((k - 1) as nat, f, g);
    }
}

/// Turning one identifier from false to true adds exactly one.
pub proof fn lemma_count_flip(k: nat, f: spec_fn(u32) -> bool, g: spec_fn(u32) -> bool, x: u32)
    requires
        k <= u32::MAX + 1,
        x < k,
        !f(x),
        g(x),
        forall|v: u32| v < k && v != x ==> #[trigger] f(v) == g(v),
    ensures
        count_below(k, g) == count_below(k, f) + 1,
    decreases k,
{
    if k - 1 == x {
        lemma_count_ext((k - 1) as nat, f, g);
    } else {
        lemma_count_flip((k - 1) as nat, f, g, x);
    }
}

/// A predicate implied by another counts at least as much.
pub proof fn lemma_count_mono(k: nat, f: spec_fn(u32) -> bool, g: spec_fn(u32) -> bool)
    requires
        k <= u32::MAX + 1,
        forall|v: u32| v < k && #[trigger] f(v) ==> g(v),
    ensures
        count_below(k, f) <= count_below(k, g),
    decreases k,
{
    if k > 0 {
        lemma_count_mono((k - 1) as nat, f, g);
    }
}

/// The never-true predicate counts zero.
pub proof fn lemma_count_zero(k: nat)
    ensures
        count_below(k, |v: u32| false) == 0,
    decreases k,
{
    if k > 0 {
        lemma_count_zero((k - 1) as nat);
    }
}

} // verus!
