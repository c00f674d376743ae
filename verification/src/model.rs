//! The adaptive statistics that steer the arithmetic coder.
//!
//! How likely a bit is depends on the byte before the current one (the
//! context) and on the bits of the current byte already seen (the prefix).
use vstd::prelude::*;

verus! {

/// The total at which the two counts of a slot are halved.
pub const COUNT_LIMIT: u16 = 0xFFFF;

/// The number of contexts times the number of prefixes.
pub const SLOTS: usize = 0x1_0000;

/// How often each bit value was seen, for each context and prefix.
pub struct Statistics {
    pub zeros: Seq<u16>,
    pub ones: Seq<u16>,
}

/// Where the counts for a context and a prefix are kept.
pub open spec fn slot(context: u8, prefix: u8) -> int {
    256 * context + prefix
}

/// Half of a count, but never less than one.
pub open spec fn halved(count: u16) -> u16 {
    if count < 2 {
        1
    } else {
        count / 2
    }
}

impl Statistics {
    /// Every bit value counts as seen once.
    pub open spec fn initial() -> Statistics {
        Statistics {
            zeros: Seq::new(SLOTS as nat, |i: int| 1u16),
            ones: Seq::new(SLOTS as nat, |i: int| 1u16),
        }
    }

    /// Both counts of every slot are positive and their total is limited.
    pub open spec fn valid(self) -> bool {
        &&& self.zeros.len() == SLOTS
        &&& self.ones.len() == SLOTS
        &&& forall|i: int|
            #![trigger self.zeros[i]]
            #![trigger self.ones[i]]
            0 <= i < SLOTS ==> self.zeros[i] >= 1 && self.ones[i] >= 1 && self.zeros[i]
                + self.ones[i] <= COUNT_LIMIT
    }

    /// The counts of clear and of set bits in a slot.
    pub open spec fn counts(self, context: u8, prefix: u8) -> (u32, u32) {
        (
            self.zeros[slot(context, prefix)] as u32,
            self.ones[slot(context, prefix)] as u32,
        )
    }

    /// The statistics after one more bit: where the slot's total has reached
    /// the limit both counts are halved, and then the bit is counted.
    pub open spec fn updated(self, context: u8, prefix: u8, bit: bool) -> Statistics {
        let at = slot(context, prefix);
        let full = self.zeros[at] + self.ones[at] >= COUNT_LIMIT;
        let zeros = if full {
            halved(self.zeros[at])
        } else {
            self.zeros[at]
        };
        let ones = if full {
            halved(self.ones[at])
        } else {
            self.ones[at]
        };
        Statistics {
            zeros: self.zeros.update(
                at,
                if bit {
                    zeros
                } else {
                    (zeros + 1) as u16
                },
            ),
            ones: self.ones.update(
                at,
                if bit {
                    (ones + 1) as u16
                } else {
                    ones
                },
            ),
        }
    }
}

/// Counting a bit keeps every count positive and every total limited.
pub proof fn update_keeps_statistics_valid(
    statistics: Statistics,
    context: u8,
    prefix: u8,
    bit: bool,
)
    requires
        statistics.valid(),
    ensures
        statistics.updated(context, prefix, bit).valid(),
{
    let at = slot(context, prefix);
    let after = statistics.updated(context, prefix, bit);
    assert(0 <= at < SLOTS);
    assert forall|i: int|
        #![trigger after.zeros[i]]
        #![trigger after.ones[i]]
        0 <= i < SLOTS implies after.zeros[i] >= 1 && after.ones[i] >= 1 && after.zeros[i]
        + after.ones[i] <= COUNT_LIMIT by {
        assert(statistics.zeros[i] >= 1 && statistics.ones[i] >= 1);
    }
}

/// Counts bits by context and prefix.
pub struct BitContextModel {
    zeros: Vec<u16>,
    ones: Vec<u16>,
}

impl View for BitContextModel {
    type V = Statistics;

    closed spec fn view(&self) -> Statistics {
        Statistics { zeros: self.zeros@, ones: self.ones@ }
    }
}

impl BitContextModel {
    /// The counts are valid statistics.
    pub open spec fn wf(self) -> bool {
        self@.valid()
    }

    /// Creates a model in which every bit value counts as seen once.
    pub fn new() -> (model: Self)
        ensures
            model.wf(),
            model@ == Statistics::initial(),
    {
        let model = BitContextModel { zeros: vec![1; SLOTS], ones: vec![1; SLOTS] };
        assert(model@.zeros =~= Statistics::initial().zeros);
        assert(model@.ones =~= Statistics::initial().ones);
        model
    }

    /// Returns the counts of clear and of set bits for a context and a prefix.
    pub fn counts(&self, context: u8, prefix: u8) -> (counts: (u32, u32))
        requires
            self.wf(),
        ensures
            counts == self@.counts(context, prefix),
            counts.0 >= 1,
            counts.1 >= 1,
            counts.0 + counts.1 <= COUNT_LIMIT,
    {
        let index: usize = context as usize * 256 + prefix as usize;
        assert(index == slot(context, prefix));
        assert(self@.zeros[index as int] >= 1);
        (self.zeros[index] as u32, self.ones[index] as u32)
    }

    /// Counts one bit.
    pub fn update(&mut self, context: u8, prefix: u8, bit: bool)
        requires
            old(self).wf(),
        ensures
            final(self).wf(),
            final(self)@ == old(self)@.updated(context, prefix, bit),
    {
        let index: usize = context as usize * 256 + prefix as usize;
        proof {
            update_keeps_statistics_valid(self@, context, prefix, bit);
            assert(index == slot(context, prefix));
            assert(self@.zeros[index as int] >= 1);
        }
        let mut zeros: u16 = self.zeros[index];
        let mut ones: u16 = self.ones[index];
        if zeros as u32 + ones as u32 >= COUNT_LIMIT as u32 {
            zeros = halve(zeros);
            ones = halve(ones);
        }
        if bit {
            ones = ones + 1;
        } else {
            zeros = zeros + 1;
        }
        self.zeros[index] = zeros;
        self.ones[index] = ones;
        assert(self@.zeros =~= old(self)@.updated(context, prefix, bit).zeros);
        assert(self@.ones =~= old(self)@.updated(context, prefix, bit).ones);
    }
}

/// Halves a count, but never to less than one.
fn halve(count: u16) -> (half: u16)
    ensures
        half == halved(count),
{
    if count < 2 {
        1
    } else {
        count / 2
    }
}

} // verus!
