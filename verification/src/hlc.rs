//! Hybrid logical timestamps: UNIX milliseconds whose lowest seven bits are
//! taken over by a monotonically increasing sequencer.
use crate::be::{be_u64_bytes, be_u64_read};
use crate::bytes::{be_seq, be_value};
use vstd::prelude::*;

verus! {

/// Clears the lowest seven bits of a wall-clock reading, which the sequencer takes.
pub const MASK: u64 = 0xffff_ffff_ffff_ff80;

/// `millis` with its lowest seven bits cleared.
pub open spec fn masked(millis: u64) -> u64 {
    (millis - millis % 128) as u64
}

/// The timestamp a clock hands out next, after `latest`, at wall time `wall`.
pub open spec fn tick(latest: u64, wall: u64) -> int {
    if masked(wall) >= latest {
        masked(wall) + 1
    } else {
        latest + 1
    }
}

/// The RFC 3339 text that `chrono` renders for a number of UNIX milliseconds
/// taken as an `i64`, or nothing where that number lies outside chrono's
/// range of dates: a function of the number alone.
pub uninterp spec fn rfc3339_text(millis: u64) -> Option<Seq<char>>;

/// Calls `chrono::DateTime::from_timestamp_millis` on `millis` converted by
/// `as i64`, and renders the date with `format("%+")`. Claims: the text, or
/// its absence, is `rfc3339_text(millis)`.
#[verifier::external_body]
fn rfc3339_of(millis: u64) -> (r: Option<String>)
    ensures
        match r {
            Some(t) => rfc3339_text(millis) == Some(t@),
            None => rfc3339_text(millis) is None,
        },
{
    match chrono::DateTime::from_timestamp_millis(millis as i64) {
        Some(date) => Some(date.format("%+").to_string()),
        None => None,
    }
}

/// A hybrid logical timestamp.
#[derive(Debug, Clone, Copy, PartialEq, Eq, Structural, PartialOrd, Ord, Hash)]
pub struct Timestamp {
    millis: u64,
}

impl View for Timestamp {
    type V = u64;

    closed spec fn view(&self) -> u64 {
        self.millis
    }
}

impl Timestamp {
    #[inline]
    pub fn new(unix_millis: u64) -> (r: Timestamp)
        ensures
            r@ == unix_millis,
    {
        Timestamp { millis: unix_millis }
    }

    /// The number this timestamp stands for.
    pub fn get(&self) -> (r: u64)
        ensures
            r == self@,
    {
        self.millis
    }

    /// The timestamp of a wall-clock reading: its lowest seven bits are cleared.
    pub fn from_unix_millis(millis: u64) -> (r: Timestamp)
        ensures
            r@ == masked(millis),
    {
        let m = millis & MASK;
        assert(millis & 0xffff_ffff_ffff_ff80u64 == (millis - millis % 128) as u64) by (bit_vector);
        Timestamp { millis: m }
    }

    /// The timestamp as an RFC 3339 date in UTC, or nothing where its
    /// number of milliseconds lies outside the range of dates `chrono` knows.
    pub fn to_rfc3339(&self) -> (r: Option<String>)
        ensures
            match r {
                Some(t) => rfc3339_text(self@) == Some(t@),
                None => rfc3339_text(self@) is None,
            },
    {
        rfc3339_of(self.millis)
    }

    /// The eight big-endian bytes of this timestamp.
    pub fn to_bytes(&self) -> (r: Vec<u8>)
        ensures
            r@ == be_seq(self@ as nat, 8),
    {
        be_u64_bytes(self.millis)
    }

    /// Reads a timestamp from exactly eight big-endian bytes.
    pub fn from_bytes(bytes: &[u8]) -> (r: Option<Timestamp>)
        ensures
            r is Some <==> bytes@.len() == 8,
            r matches Some(t) ==> t@ as nat == be_value(bytes@),
    {
        match be_u64_read(bytes) {
            Some(v) => Some(Timestamp { millis: v }),
            None => None,
        }
    }
}

/// The state of a hybrid logical clock: the latest timestamp handed out or
/// heard of.
pub struct HybridClock {
    latest: u64,
}

impl HybridClock {
    pub fn new() -> (r: HybridClock)
        ensures
            r.latest() == 0,
    {
        HybridClock { latest: 0 }
    }

    pub closed spec fn latest(&self) -> u64 {
        self.latest
    }

    /// The latest timestamp handed out or heard of.
    pub fn latest_millis(&self) -> (r: u64)
        ensures
            r == self.latest(),
    {
        self.latest
    }
}

impl Timestamp {
    /// A fresh timestamp from `clock` at wall time `wall_millis`: above the latest one and
    /// not below the masked wall time.
    pub fn now(clock: &mut HybridClock, wall_millis: u64) -> (r: Timestamp)
        requires
            old(clock).latest() < u64::MAX,
        ensures
            r@ == tick(old(clock).latest(), wall_millis),
            final(clock).latest() == r@,
    {
        let masked = Timestamp::from_unix_millis(wall_millis).get();
        let next = if masked >= clock.latest {
            masked + 1
        } else {
            clock.latest + 1
        };
        proof {
            assert(masked <= 0xffff_ffff_ffff_ff80u64);
        }
        clock.latest = next;
        Timestamp { millis: next }
    }

    /// Makes `clock` take note of a timestamp heard from elsewhere; returns the latest
    /// timestamp as it was before.
    pub fn sync(clock: &mut HybridClock, timestamp: Timestamp) -> (r: Timestamp)
        ensures
            r@ == old(clock).latest(),
            final(clock).latest() == if timestamp@ > old(clock).latest() {
                timestamp@
            } else {
                old(clock).latest()
            },
    {
        let prev = clock.latest;
        if timestamp.millis > clock.latest {
            clock.latest = timestamp.millis;
        }
        Timestamp { millis: prev }
    }
}

/// A timestamp taken from a wall-clock reading is never after it and lies
/// under 250 ms (indeed under 128 ms) before it.
pub proof fn lemma_timestamp_precision(millis: u64)
    ensures
        masked(millis) <= millis,
        millis - masked(millis) == millis % 128,
        millis - masked(millis) < 128,
        millis - masked(millis) < 250,
{
}

/// Timestamps handed out one after another strictly increase, and a
/// timestamp handed out after a sync lies above the synced one.
pub proof fn lemma_clock_monotonic(latest: u64, wall: u64, remote: u64)
    ensures
        tick(latest, wall) > latest,
        tick(latest, wall) >= masked(wall),
        tick(if remote > latest { remote } else { latest }, wall) > remote,
{
}

} // verus!
