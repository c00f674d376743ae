//! Laws of the statistics.
use vstd::math::max;
use vstd::prelude::*;

use crate::model::{slot, Statistics, SLOTS};

verus! {

/// At first every bit value counts as seen once, whatever came before it.
pub proof fn counts_begin_with_one_each(context: u8, prefix: u8)
    ensures
        Statistics::initial().counts(context, prefix) == (1u32, 1u32),
{
    assert(0 <= slot(context, prefix) < SLOTS);
}

/// Counting a bit adds one to its own count, after both were halved, but not
/// below 1, if they had reached 65535 together.
pub proof fn counting_adds_one(statistics: Statistics, context: u8, prefix: u8, bit: bool)
    requires
        statistics.valid(),
    ensures
        ({
            let (zeros, ones) = statistics.counts(context, prefix);
            let (zeros_now, ones_now) = statistics.updated(context, prefix, bit).counts(
                context,
                prefix,
            );
            let (clear, set) = if bit {
                (0int, 1int)
            } else {
                (1int, 0int)
            };
            &&& 1 <= zeros && 1 <= ones && zeros + ones <= 65535
            &&& zeros + ones < 65535 ==> zeros_now == zeros + clear && ones_now == ones + set
            &&& zeros + ones == 65535 ==> zeros_now == max(zeros as int / 2, 1) + clear && ones_now
                == max(ones as int / 2, 1) + set
        }),
{
    assert(0 <= slot(context, prefix) < SLOTS);
    assert(statistics.zeros[slot(context, prefix)] >= 1);
}

/// Counting a bit leaves the counts of every other context and prefix alone.
pub proof fn counting_leaves_others_alone(
    statistics: Statistics,
    context: u8,
    prefix: u8,
    bit: bool,
    other_context: u8,
    other_prefix: u8,
)
    requires
        statistics.valid(),
        other_context != context || other_prefix != prefix,
    ensures
        statistics.updated(context, prefix, bit).counts(other_context, other_prefix)
            == statistics.counts(other_context, other_prefix),
{
    assert(0 <= slot(context, prefix) < SLOTS);
    assert(0 <= slot(other_context, other_prefix) < SLOTS);
    assert(slot(context, prefix) != slot(other_context, other_prefix));
}

} // verus!
