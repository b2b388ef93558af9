//! The log mask of `setlogmask`: entries are dropped, only the mask is kept.

use vstd::prelude::*;

verus! {

/// The mask before any call: every priority from `LOG_EMERG` to `LOG_DEBUG`.
pub const LOG_DEFAULT_MASK: i32 = 0xff;

/// The mask after `setlogmask(mask)` from `current`, and the call's answer:
/// a zero `mask` only asks, any other replaces the mask; the answer is the
/// mask as it was.
pub open spec fn spec_log_mask(current: i32, mask: i32) -> (i32, i32) {
    (if mask == 0 { current } else { mask }, current)
}

/// One `setlogmask(mask)` call on the mask `current`: the new mask and the
/// answer.
pub fn log_mask_step(current: i32, mask: i32) -> (r: (i32, i32))
    ensures
        r == spec_log_mask(current, mask),
{
    if mask == 0 {
        (current, current)
    } else {
        (mask, current)
    }
}

/// The mask round-trips: after a call sets a mask, a query answers it and
/// leaves it in place.
pub proof fn law_mask_round_trip(current: i32, mask: i32)
    requires
        mask != 0,
    ensures
        ({
            let (after_set, _) = spec_log_mask(current, mask);
            let (after_query, answer) = spec_log_mask(after_set, 0);
            answer == mask && after_query == mask
        }),
{
}

} // verus!
