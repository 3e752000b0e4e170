//! Limiting the rate of readings sent to the display.
use vstd::prelude::*;

verus! {

/// The least time between two readings sent to the display, in milliseconds.
pub const EMIT_INTERVAL_MS: u64 = 100;

/// The time of the last reading that was sent, in milliseconds since the capture
/// began; capture itself counts as one.
pub struct EmitThrottle {
    pub last_ms: u64,
}

impl EmitThrottle {
    /// A throttle for a capture that begins now.
    pub fn new() -> (r: EmitThrottle)
        ensures
            r.last_ms == 0,
    {
        EmitThrottle { last_ms: 0 }
    }

    /// Whether a reading that comes at `now_ms` is due.
    pub open spec fn is_due(self, now_ms: u64) -> bool {
        now_ms - self.last_ms >= EMIT_INTERVAL_MS
    }

    /// The throttle after a reading at `now_ms`: it notes the time if one is sent.
    pub open spec fn after(self, muted: bool, now_ms: u64) -> EmitThrottle {
        if !muted && self.is_due(now_ms) {
            EmitThrottle { last_ms: now_ms }
        } else {
            self
        }
    }

    /// Whether to send a reading that comes at `now_ms`. While muted none is sent;
    /// else one is sent if it is due.
    pub fn should_emit(&mut self, muted: bool, now_ms: u64) -> (sent: bool)
        ensures
            sent == (!muted && old(self).is_due(now_ms)),
            *final(self) == old(self).after(muted, now_ms),
    {
        if muted {
            return false;
        }
        if now_ms.saturating_sub(self.last_ms) >= EMIT_INTERVAL_MS {
            self.last_ms = now_ms;
            true
        } else {
            false
        }
    }
}

/// The times of the readings sent out of a series of readings, each given by
/// whether it comes muted and by its time.
pub open spec fn sent_times(readings: Seq<(bool, u64)>) -> Seq<u64>
    decreases readings.len(),
{
    if readings.len() == 0 {
        Seq::empty()
    } else {
        let before = sent_times(readings.drop_last());
        let (muted, now_ms) = readings.last();
        if !muted && throttle_after(readings.drop_last()).is_due(now_ms) {
            before.push(now_ms)
        } else {
            before
        }
    }
}

/// The throttle after a series of readings.
pub open spec fn throttle_after(readings: Seq<(bool, u64)>) -> EmitThrottle
    decreases readings.len(),
{
    if readings.len() == 0 {
        EmitThrottle { last_ms: 0 }
    } else {
        throttle_after(readings.drop_last()).after(readings.last().0, readings.last().1)
    }
}

/// The display gets at most ten readings a second: whatever readings come, those
/// sent are at least 100 ms apart, the first of them no earlier than 100 ms after
/// the capture began; so by the time of the last one no more than its hundreds of
/// milliseconds have been sent.
pub proof fn the_display_gets_at_most_ten_readings_a_second(readings: Seq<(bool, u64)>)
    ensures
        ({
            let sent = sent_times(readings);
            &&& forall|i: int|
                0 < i < sent.len() ==> #[trigger] sent[i] - sent[i - 1] >= 100
            &&& sent.len() > 0 ==> sent[0] >= 100
            &&& sent.len() * 100 <= throttle_after(readings).last_ms
            &&& sent.len() > 0 ==> sent.last() == throttle_after(readings).last_ms
        }),
    decreases readings.len(),
{
    if readings.len() > 0 {
        the_display_gets_at_most_ten_readings_a_second(readings.drop_last());
    }
}

/// While muted, nothing is sent.
pub proof fn nothing_is_sent_while_muted(readings: Seq<(bool, u64)>)
    requires
        forall|i: int| 0 <= i < readings.len() ==> (#[trigger] readings[i]).0,
    ensures
        sent_times(readings) == Seq::<u64>::empty(),
    decreases readings.len(),
{
    if readings.len() > 0 {
        assert(readings.last() == readings[readings.len() - 1]);
        let rest = readings.drop_last();
        assert forall|i: int| 0 <= i < rest.len() implies (#[trigger] rest[i]).0 by {
            assert(rest[i] == readings[i]);
        }
        nothing_is_sent_while_muted(rest);
    }
}

/// When the last reading was sent; the beginning of the capture counts as one.
pub open spec fn last_sent(readings: Seq<(bool, u64)>) -> u64 {
    let sent = sent_times(readings);
    if sent.len() == 0 {
        0
    } else {
        sent.last()
    }
}

/// An unmuted reading that comes 100 ms or more after the last one that was sent is
/// sent, at whatever time that was, and no other reading is. What is sent and what is
/// noted are the same.
pub proof fn a_reading_is_sent_exactly_if_it_is_due(
    readings: Seq<(bool, u64)>,
    muted: bool,
    now_ms: u64,
)
    ensures
        sent_times(readings.push((muted, now_ms))) == (if !muted && now_ms >= last_sent(readings)
            + 100 {
            sent_times(readings).push(now_ms)
        } else {
            sent_times(readings)
        }),
        throttle_after(readings).last_ms == last_sent(readings),
        throttle_after(readings).is_due(now_ms) <==> now_ms >= last_sent(readings) + 100,
{
    let more = readings.push((muted, now_ms));
    the_display_gets_at_most_ten_readings_a_second(readings);
    assert(more.drop_last() =~= readings);
    lemma_nothing_sent_yet(readings);
}

proof fn lemma_nothing_sent_yet(readings: Seq<(bool, u64)>)
    ensures
        sent_times(readings).len() == 0 ==> throttle_after(readings).last_ms == 0,
    decreases readings.len(),
{
    if readings.len() > 0 {
        lemma_nothing_sent_yet(readings.drop_last());
    }
}

/// Of any throttle: whether a reading is sent depends on nothing but the mute and the
/// time since the last one, and a reading that is sent puts off the next one by 100 ms
/// from its own time.
pub proof fn only_the_time_since_the_last_reading_counts(
    a: EmitThrottle,
    b: EmitThrottle,
    muted: bool,
    at_a: u64,
    at_b: u64,
    later: u64,
)
    requires
        at_a - a.last_ms == at_b - b.last_ms,
    ensures
        a.is_due(at_a) <==> b.is_due(at_b),
        a.is_due(at_a) <==> at_a - a.last_ms >= 100,
        !muted && a.is_due(at_a) ==> (a.after(muted, at_a).is_due(later) <==> later >= at_a
            + 100),
        muted || !a.is_due(at_a) ==> (a.after(muted, at_a).is_due(later) <==> a.is_due(later)),
        a.after(muted, at_a).last_ms == a.last_ms || a.after(muted, at_a).last_ms == at_a,
{
}

/// Whether readings come unmuted, one after the other, each at most `gap` ms after the
/// one before it, and the first at most `gap` ms after the capture began.
pub open spec fn come_steadily(readings: Seq<(bool, u64)>, gap: u64) -> bool {
    forall|i: int|
        0 <= i < readings.len() ==> {
            let before = if i == 0 {
                0
            } else {
                readings[i - 1].1
            };
            !(#[trigger] readings[i]).0 && before <= readings[i].1 <= before + gap
        }
}

/// The display is kept up to date: while unmuted readings come steadily, two that are sent
/// one after the other are less than 100 ms and the gap between readings apart, the first
/// is sent as soon, and at each reading the last one sent is less than 100 ms old.
pub proof fn the_display_is_kept_up_to_date(readings: Seq<(bool, u64)>, gap: u64)
    requires
        come_steadily(readings, gap),
    ensures
        ({
            let sent = sent_times(readings);
            let now = if readings.len() == 0 {
                0
            } else {
                readings.last().1
            };
            &&& last_sent(readings) <= now < last_sent(readings) + 100
            &&& forall|i: int|
                0 < i < sent.len() ==> #[trigger] sent[i] - sent[i - 1] < 100 + gap
            &&& sent.len() > 0 ==> sent[0] < 100 + gap
        }),
    decreases readings.len(),
{
    if readings.len() > 0 {
        let n = readings.len() - 1;
        let rest = readings.drop_last();
        let (muted, now_ms) = readings[n];
        assert forall|i: int| 0 <= i < rest.len() implies ({
            let before = if i == 0 {
                0
            } else {
                rest[i - 1].1
            };
            !(#[trigger] rest[i]).0 && before <= rest[i].1 <= before + gap
        }) by {
            assert(rest[i] == readings[i]);
            if i > 0 {
                assert(rest[i - 1] == readings[i - 1]);
            }
        }
        the_display_is_kept_up_to_date(rest, gap);
        a_reading_is_sent_exactly_if_it_is_due(rest, muted, now_ms);
        assert(readings =~= rest.push((muted, now_ms)));
        assert(!readings[n].0);
        if n > 0 {
            assert(rest.last() == readings[n - 1]);
        }
    }
}

} // verus!
