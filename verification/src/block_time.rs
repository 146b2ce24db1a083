//! Block timestamps as the relational index stores them.

use vstd::prelude::*;
use chrono::NaiveDateTime;

verus! {

#[verifier::external_type_specification]
#[verifier::external_body]
pub struct ExNaiveDateTime(chrono::NaiveDateTime);

/// The last second that a calendar date-time can hold:
/// 23:59:59 on the last day of the year 262142.
pub const MAX_BLOCK_TIMESTAMP: u64 = 8_210_266_876_799;

/// A block's time: whole seconds since the Unix epoch, never zero, with the
/// calendar value built from them.
#[derive(Clone, Copy, Debug)]
pub struct BlockTimestamp {
    seconds: u64,
    date_time: NaiveDateTime,
}

impl BlockTimestamp {
    /// Seconds since the Unix epoch.
    pub closed spec fn spec_seconds(&self) -> u64 {
        self.seconds
    }

    #[verifier::when_used_as_spec(spec_seconds)]
    pub fn seconds(&self) -> (s: u64)
        ensures
            s == self.spec_seconds(),
    {
        self.seconds
    }

    /// The calendar value that was built from the seconds.
    pub closed spec fn spec_date_time(&self) -> NaiveDateTime {
        self.date_time
    }

    #[verifier::when_used_as_spec(spec_date_time)]
    pub fn date_time(&self) -> (t: NaiveDateTime)
        ensures
            t == self.spec_date_time(),
    {
        self.date_time
    }
}

/// The calendar value that `chrono::NaiveDateTime::from_timestamp` builds
/// from a number of seconds since the Unix epoch and no nanoseconds. It
/// depends on the seconds alone: no clock, time zone or locale enters it.
pub uninterp spec fn calendar_of_seconds(seconds: i64) -> NaiveDateTime;

/// Calls `chrono::NaiveDateTime::from_timestamp` with no nanoseconds. That
/// function panics when the seconds lie beyond the last calendar year; the
/// precondition keeps them within it. Of the value built only its name is
/// claimed: it is the calendar value of those seconds.
#[verifier::external_body]
#[allow(deprecated)]
fn naive_date_time(seconds: i64) -> (t: NaiveDateTime)
    requires
        0 <= seconds <= MAX_BLOCK_TIMESTAMP,
    ensures
        t == calendar_of_seconds(seconds),
{
    NaiveDateTime::from_timestamp(seconds, 0)
}

/// The seconds that a header's timestamp stands for: a zero timestamp, which
/// only the genesis block carries, counts as one second.
pub open spec fn block_seconds(timestamp: u64) -> u64 {
    if timestamp == 0 {
        1
    } else {
        timestamp
    }
}

/// The stored time of a block whose header has the given timestamp: its
/// seconds, and the calendar value of those seconds.
pub closed spec fn block_time_of(timestamp: u64) -> BlockTimestamp {
    BlockTimestamp {
        seconds: block_seconds(timestamp),
        date_time: calendar_of_seconds(block_seconds(timestamp) as i64),
    }
}

/// What the stored time of a block holds.
pub proof fn lemma_block_time_of(timestamp: u64)
    ensures
        block_time_of(timestamp).seconds() == block_seconds(timestamp),
        block_time_of(timestamp).date_time() == calendar_of_seconds(block_seconds(timestamp) as i64),
{
}

/// Builds the stored time of a block from its header's timestamp.
pub fn build_block_timestamp(timestamp: u64) -> (t: BlockTimestamp)
    requires
        timestamp <= MAX_BLOCK_TIMESTAMP,
    ensures
        t == block_time_of(timestamp),
        t.seconds() == block_seconds(timestamp),
        t.date_time() == calendar_of_seconds(block_seconds(timestamp) as i64),
{
    let seconds: u64 = if timestamp == 0 {
        1
    } else {
        timestamp
    };
    BlockTimestamp { seconds, date_time: naive_date_time(seconds as i64) }
}

} // verus!
