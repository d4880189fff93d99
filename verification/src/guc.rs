//! Session-level settings.

use vstd::prelude::*;

verus! {

/// Search budget of an untuned session: the pool size a graph is built with by
/// default.
pub const DEFAULT_EF_SEARCH: i32 = 64;

/// The smallest budget that means anything.
pub const MIN_EF_SEARCH: i32 = 1;

/// Keeps a single scan's transient memory bounded while still allowing a
/// near-exhaustive walk of a large index.
pub const MAX_EF_SEARCH: i32 = 10_000;

/// The search budget a scan uses, from the session's setting. A setting below
/// the minimum, which only a read before registration can see, counts as the
/// minimum.
pub fn ef_search(setting: i32) -> (r: usize)
    ensures
        r == (if setting < MIN_EF_SEARCH {
            MIN_EF_SEARCH as int
        } else {
            setting as int
        }),
{
    if setting < MIN_EF_SEARCH {
        MIN_EF_SEARCH as usize
    } else {
        setting as usize
    }
}

/// Whether the session may set the budget to `value`.
pub fn ef_search_in_range(value: i32) -> (r: bool)
    ensures
        r == (MIN_EF_SEARCH <= value <= MAX_EF_SEARCH),
{
    MIN_EF_SEARCH <= value && value <= MAX_EF_SEARCH
}

/// A session's budget runs from 1 to 10000 and is 64 unless it is set.
pub proof fn budget_limits()
    ensures
        MIN_EF_SEARCH == 1,
        MAX_EF_SEARCH == 10_000,
        DEFAULT_EF_SEARCH == 64,
{
}

/// A scan's budget is the session's setting, whatever it is, and at least 1. A
/// session may set any budget from 1 to 10000, and no other.
pub proof fn budgets_are_the_settings(setting: i32, budget: usize, allowed: bool)
    requires
        call_ensures(ef_search, (setting,), budget),
        call_ensures(ef_search_in_range, (setting,), allowed),
    ensures
        setting >= 1 ==> budget == setting,
        setting < 1 ==> budget == 1,
        allowed <==> 1 <= setting <= 10_000,
{
}

} // verus!
