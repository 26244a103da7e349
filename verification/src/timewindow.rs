//! Measures how long windows of time last on average.
use vstd::prelude::*;
use std::time::{Duration, Instant};

verus! {

#[verifier::external_type_specification]
#[verifier::external_body]
pub struct ExInstant(Instant);

/// The nanoseconds that `Duration::MAX` holds: `u64::MAX` seconds and 999_999_999 nanoseconds.
pub open spec fn max_duration_nanos() -> int {
    18_446_744_073_709_551_615_999_999_999int
}

/// What `Duration::new` returns for a number of seconds and of nanoseconds below one second.
pub uninterp spec fn new_duration(secs: u64, nanos: u32) -> Duration;

/// Calls `Instant::now`. Nothing is claimed of the instant it gives.
#[verifier::external_body]
fn now() -> Instant {
    Instant::now()
}

/// Calls `Instant::elapsed`. Nothing is claimed of the duration it gives: it depends on the
/// clock.
#[verifier::external_body]
fn elapsed(start: &Instant) -> Duration {
    start.elapsed()
}

/// What `Duration::as_nanos` returns for a duration: its whole length in nanoseconds.
pub uninterp spec fn nanos_of(d: Duration) -> u128;

/// Calls `Duration::as_nanos`; the result is named `nanos_of`. A duration is at most
/// `Duration::MAX`, so its nanoseconds are at most those of `Duration::MAX`.
#[verifier::external_body]
fn as_nanos(d: &Duration) -> (n: u128)
    ensures
        n == nanos_of(*d),
        n <= max_duration_nanos(),
{
    d.as_nanos()
}

/// Calls `Duration::new`, which panics only when the nanoseconds carry over into seconds past
/// `u64::MAX`; below one second they never carry. The result is named `new_duration`; as
/// std documents, it lasts `secs` seconds and `nanos` nanoseconds, which `as_nanos` counts.
#[verifier::external_body]
fn duration_new(secs: u64, nanos: u32) -> (d: Duration)
    requires
        nanos < 1_000_000_000,
    ensures
        d == new_duration(secs, nanos),
        nanos_of(d) == secs * 1_000_000_000 + nanos,
{
    Duration::new(secs, nanos)
}

/// The duration of `n` nanoseconds, for `n` at most `Duration::MAX`.
pub open spec fn duration_of_nanos(n: int) -> Duration {
    new_duration((n / 1_000_000_000) as u64, (n % 1_000_000_000) as u32)
}

/// Sums the durations of closed windows and counts them.
pub struct TimeWindow {
    start_time: Option<Instant>,
    total_nanos: u128,
    count: u32,
}

impl TimeWindow {
    #[verifier::type_invariant]
    spec fn fits(self) -> bool {
        self.total_nanos <= max_duration_nanos()
    }

    /// Whether a window is open.
    pub closed spec fn is_open(self) -> bool {
        self.start_time is Some
    }

    /// The summed length of the closed windows, in nanoseconds.
    pub closed spec fn total(self) -> nat {
        self.total_nanos as nat
    }

    /// The number of closed windows.
    pub closed spec fn closed_count(self) -> nat {
        self.count as nat
    }

    /// A time window with no window open and none closed.
    pub fn new() -> (w: Self)
        ensures
            !w.is_open(),
            w.total() == 0,
            w.closed_count() == 0,
    {
        TimeWindow { start_time: None, total_nanos: 0, count: 0 }
    }

    /// Opens a window, unless one is open already.
    pub fn open_window(&mut self)
        ensures
            final(self).is_open(),
            old(self).is_open() ==> *final(self) == *old(self),
            final(self).total() == old(self).total(),
            final(self).closed_count() == old(self).closed_count(),
    {
        proof {
            use_type_invariant(&*self);
        }
        if self.start_time.is_none() {
            self.start_time = Some(now());
        }
    }

    /// Adds a window of `elapsed` nanoseconds to the sum and the count, and closes the open one.
    pub fn record(&mut self, elapsed: u128)
        requires
            old(self).total() + elapsed <= max_duration_nanos(),
            old(self).closed_count() < u32::MAX,
        ensures
            !final(self).is_open(),
            final(self).total() == old(self).total() + elapsed,
            final(self).closed_count() == old(self).closed_count() + 1,
    {
        proof {
            use_type_invariant(&*self);
        }
        self.total_nanos = self.total_nanos + elapsed;
        self.count = self.count + 1;
        self.start_time = None;
    }

    /// Records a window of `e` nanoseconds when both the sum stays within `Duration::MAX` and
    /// fewer than `u32::MAX` windows were recorded: the open window, if any, closes, the sum
    /// grows by `e` and the count by one. Otherwise nothing changes and the answer is `false`.
    pub fn record_elapsed(&mut self, e: u128) -> (recorded: bool)
        ensures
            recorded == (old(self).closed_count() < u32::MAX && old(self).total() + e <= max_duration_nanos()),
            recorded ==> recording(*old(self), *final(self), e as int),
            !recorded ==> *final(self) == *old(self),
    {
        proof {
            use_type_invariant(&*self);
        }
        if self.count < u32::MAX && e <= 18_446_744_073_709_551_615_999_999_999u128 - self.total_nanos {
            self.record(e);
            true
        } else {
            false
        }
    }

    /// Closes the open window, if any, recording the time that elapsed since it opened (see
    /// `record_elapsed`, which is handed the elapsed nanoseconds as the clock gives them).
    /// With no window open, nothing changes and the answer is `true`.
    pub fn close_window(&mut self) -> (recorded: bool)
        ensures
            !old(self).is_open() ==> recorded && *final(self) == *old(self),
            old(self).is_open() ==> exists|d: Duration| #[trigger] closes_with(*old(self), *final(self), recorded, nanos_of(d) as int),
    {
        proof {
            use_type_invariant(&*self);
        }
        match &self.start_time {
            Some(start_time) => {
                let duration = elapsed(start_time);
                let e = as_nanos(&duration);
                let ghost before = *self;
                let recorded = self.record_elapsed(e);
                assert(closes_with(before, *self, recorded, nanos_of(duration) as int));
                recorded
            },
            None => true,
        }
    }

    /// The average length of the closed windows, or `None` when none was closed.
    pub fn get_average_duration(&self) -> (r: Option<Duration>)
        ensures
            self.closed_count() == 0 ==> r is None,
            self.closed_count() > 0 ==> r == Some(duration_of_nanos((self.total() / self.closed_count()) as int)),
            self.closed_count() > 0 ==> nanos_of(r.unwrap()) == self.total() / self.closed_count(),
    {
        proof {
            use_type_invariant(self);
        }
        if self.count > 0 {
            let average = self.total_nanos / (self.count as u128);
            assert(average <= self.total_nanos) by (nonlinear_arith)
                requires
                    self.count > 0,
                    average == self.total_nanos / (self.count as u128),
            ;
            let secs = (average / 1_000_000_000) as u64;
            let nanos = (average % 1_000_000_000) as u32;
            assert(secs * 1_000_000_000 + nanos == average);
            Some(duration_new(secs, nanos))
        } else {
            None
        }
    }
}


/// `after` is `before` with a window of `e` nanoseconds recorded: no window open, the sum
/// grown by `e` and the count by one.
pub open spec fn recording(before: TimeWindow, after: TimeWindow, e: int) -> bool {
    &&& !after.is_open()
    &&& after.total() == before.total() + e
    &&& after.closed_count() == before.closed_count() + 1
}

/// Closing the open window of `before` with `e` nanoseconds elapsed gives `after` and the
/// answer `recorded`: recorded exactly when the bounds allow it, and then as `recording`
/// says; otherwise nothing changes.
pub open spec fn closes_with(before: TimeWindow, after: TimeWindow, recorded: bool, e: int) -> bool {
    &&& recorded == (before.closed_count() < u32::MAX && before.total() + e <= max_duration_nanos())
    &&& recorded ==> recording(before, after, e)
    &&& !recorded ==> after == before
}

/// The sum of a sequence of lengths.
pub open spec fn sum_of(es: Seq<int>) -> int
    decreases es.len(),
{
    if es.len() == 0 {
        0
    } else {
        sum_of(es.drop_last()) + es.last()
    }
}

/// Windows recorded one after another, from a time window with none recorded: the total is
/// the sum of their lengths and the count is their number, so that `get_average_duration`
/// gives their average. Here `ws[i + 1]` is `ws[i]` with the window `es[i]` recorded.
pub proof fn lemma_windows_accumulate(ws: Seq<TimeWindow>, es: Seq<int>)
    requires
        ws.len() == es.len() + 1,
        ws[0].total() == 0,
        ws[0].closed_count() == 0,
        forall|i: int| 0 <= i < es.len() ==> #[trigger] recording(ws[i], ws[i + 1], es[i]),
    ensures
        ws.last().total() == sum_of(es),
        ws.last().closed_count() == es.len(),
    decreases es.len(),
{
    if es.len() > 0 {
        let k = es.len() - 1;
        let ws0 = ws.drop_last();
        let es0 = es.drop_last();
        assert forall|i: int| 0 <= i < es0.len() implies #[trigger] recording(ws0[i], ws0[i + 1], es0[i]) by {
            assert(recording(ws[i], ws[i + 1], es[i]));
        }
        lemma_windows_accumulate(ws0, es0);
        assert(recording(ws[k], ws[k + 1], es[k]));
    }
}

/// One call on a time window as its contract describes it: `None` is `open_window`; `Some(e)`
/// is `close_window` with `e` nanoseconds elapsed since the window opened.
pub open spec fn window_step(before: TimeWindow, after: TimeWindow, call: Option<int>) -> bool {
    match call {
        None => {
            &&& after.is_open()
            &&& before.is_open() ==> after == before
            &&& after.total() == before.total()
            &&& after.closed_count() == before.closed_count()
        },
        Some(e) => if before.is_open() {
            exists|recorded: bool| closes_with(before, after, recorded, e)
        } else {
            after == before
        },
    }
}

/// The elapsed lengths of the calls in `calls` that closed an open window, in order;
/// `ws[i]` is the time window before call `i`.
pub open spec fn closed_lengths(ws: Seq<TimeWindow>, calls: Seq<Option<int>>) -> Seq<int>
    decreases calls.len(),
{
    if calls.len() == 0 {
        Seq::empty()
    } else {
        let k = calls.len() - 1;
        let p = closed_lengths(ws.drop_last(), calls.drop_last());
        match calls[k] {
            Some(e) => if ws[k].is_open() {
                p.push(e)
            } else {
                p
            },
            None => p,
        }
    }
}

/// Any sequence of `open_window` and `close_window` calls on a time window with none recorded,
/// in which every close that found a window open stayed within the bounds (fewer than
/// `u32::MAX` windows, a total within `Duration::MAX`): the total is the sum of the lengths of
/// those closes and the count their number, so `get_average_duration` gives their average.
/// Closes that found no window open and repeated opens change nothing. `ws[i]` is the time
/// window before call `i`, `ws[i + 1]` the one after.
pub proof fn lemma_window_calls_average(ws: Seq<TimeWindow>, calls: Seq<Option<int>>)
    requires
        ws.len() == calls.len() + 1,
        ws[0].total() == 0,
        ws[0].closed_count() == 0,
        forall|i: int| 0 <= i < calls.len() ==> #[trigger] window_step(ws[i], ws[i + 1], calls[i]),
        forall|i: int|
            0 <= i < calls.len() && ws[i].is_open() && #[trigger] calls[i] is Some ==> ws[i].closed_count() < u32::MAX
                && ws[i].total() + calls[i]->Some_0 <= max_duration_nanos(),
    ensures
        ws.last().total() == sum_of(closed_lengths(ws, calls)),
        ws.last().closed_count() == closed_lengths(ws, calls).len(),
    decreases calls.len(),
{
    if calls.len() > 0 {
        let k = calls.len() - 1;
        let ws0 = ws.drop_last();
        let cs0 = calls.drop_last();
        assert forall|i: int| 0 <= i < cs0.len() implies #[trigger] window_step(ws0[i], ws0[i + 1], cs0[i]) by {
            assert(window_step(ws[i], ws[i + 1], calls[i]));
        }
        assert forall|i: int|
            0 <= i < cs0.len() && ws0[i].is_open() && #[trigger] cs0[i] is Some implies ws0[i].closed_count() < u32::MAX
                && ws0[i].total() + cs0[i]->Some_0 <= max_duration_nanos() by {
            assert(calls[i] == cs0[i]);
        }
        lemma_window_calls_average(ws0, cs0);
        let p = closed_lengths(ws0, cs0);
        assert(window_step(ws[k], ws[k + 1], calls[k]));
        match calls[k] {
            Some(e) => {
                if ws[k].is_open() {
                    assert(calls[k] is Some);
                    let recorded = choose|recorded: bool| #[trigger] closes_with(ws[k], ws[k + 1], recorded, e);
                    assert(closes_with(ws[k], ws[k + 1], recorded, e));
                    assert(p.push(e).drop_last() =~= p);
                }
            },
            None => {},
        }
    }
}

} // verus!
