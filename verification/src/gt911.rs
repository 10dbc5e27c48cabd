//! Touch sampling: rate-limited polling of the touch controller, duplicate
//! suppression, and edge-triggered pointer events.

use crate::geometry::Point;
use vstd::prelude::*;

verus! {

/// The bus address of the touch controller.
pub const GT911_I2C_SLAVE_ADDR: u8 = 0x5D;

/// The least time between two reads of the controller, in milliseconds.
pub const MIN_POLL_INTERVAL_MS: u64 = 10;

/// One raw sample of the touch controller.
#[derive(Copy, Clone, Debug, PartialEq, Eq, Structural)]
pub struct TouchState {
    pub x: i16,
    pub y: i16,
    pub pressed: bool,
}

/// The state before the first read: no touch, at the origin.
pub open spec fn idle_state() -> TouchState {
    TouchState { x: 0, y: 0, pressed: false }
}

impl Default for TouchState {
    fn default() -> (r: Self)
        ensures
            r == idle_state(),
    {
        TouchState { x: 0, y: 0, pressed: false }
    }
}

/// A change of the pointer.
#[derive(Copy, Clone, Debug, PartialEq, Eq, Structural)]
pub enum TouchEvent {
    /// The panel was touched at the point.
    Pressed(Point),
    /// The touch moved to the point while held.
    Moved(Point),
    /// The touch was lifted.
    Released,
}

/// What is remembered between polls: when the controller was last read, and
/// what it said then.
#[derive(Copy, Clone, Debug)]
pub struct TouchSampler {
    /// The time of the last read of the controller, in milliseconds; `None`
    /// before the first.
    pub last_poll: Option<u64>,
    /// The last sample read; the idle state before the first.
    pub last_state: TouchState,
}

/// The point of a sample.
pub open spec fn point_of(s: TouchState) -> Point {
    Point { x: s.x as i32, y: s.y as i32 }
}

/// The pointer event that the step from the sample `prev` to the sample
/// `next` makes: none where nothing changed; a press or, while held, a move
/// where `next` is pressed; a release where only `prev` was.
pub open spec fn edge(prev: TouchState, next: TouchState) -> Option<TouchEvent> {
    if next == prev {
        None
    } else if next.pressed {
        if prev.pressed {
            Some(TouchEvent::Moved(point_of(next)))
        } else {
            Some(TouchEvent::Pressed(point_of(next)))
        }
    } else if prev.pressed {
        Some(TouchEvent::Released)
    } else {
        None
    }
}

impl TouchSampler {
    /// The sampler before the first poll.
    pub open spec fn initial() -> TouchSampler {
        TouchSampler { last_poll: None, last_state: idle_state() }
    }

    /// At `now` the controller is to be read: it never was, or the least
    /// interval has passed since.
    pub open spec fn is_due(self, now: u64) -> bool {
        match self.last_poll {
            None => true,
            Some(t) => now >= t && now - t >= MIN_POLL_INTERVAL_MS,
        }
    }

    /// The sampler after a poll at `now` at which the controller said
    /// `raw`: unchanged where no read was due.
    pub open spec fn after_poll(self, now: u64, raw: TouchState) -> TouchSampler {
        if self.is_due(now) {
            TouchSampler { last_poll: Some(now), last_state: raw }
        } else {
            self
        }
    }

    /// The sample that a poll at `now` reports: `raw` where a read was due
    /// and `raw` differs from the last sample, else nothing.
    pub open spec fn reported(self, now: u64, raw: TouchState) -> Option<TouchState> {
        if self.is_due(now) && raw != self.last_state {
            Some(raw)
        } else {
            None
        }
    }

    /// The event that a poll at `now` emits.
    pub open spec fn emitted(self, now: u64, raw: TouchState) -> Option<TouchEvent> {
        if self.is_due(now) {
            edge(self.last_state, raw)
        } else {
            None
        }
    }

    /// The sampler after the polls `polls`, each a time and what the
    /// controller said, or would have said, then.
    pub open spec fn after_polls(self, polls: Seq<(u64, TouchState)>) -> TouchSampler
        decreases polls.len(),
    {
        if polls.len() == 0 {
            self
        } else {
            self.after_polls(polls.drop_last()).after_poll(polls.last().0, polls.last().1)
        }
    }

    /// The samples that the polls `polls` report, in order.
    pub open spec fn reports(self, polls: Seq<(u64, TouchState)>) -> Seq<TouchState>
        decreases polls.len(),
    {
        if polls.len() == 0 {
            Seq::empty()
        } else {
            let before = self.after_polls(polls.drop_last());
            let earlier = self.reports(polls.drop_last());
            match before.reported(polls.last().0, polls.last().1) {
                Some(s) => earlier.push(s),
                None => earlier,
            }
        }
    }

    /// The events that the polls `polls` emit, in order.
    pub open spec fn events(self, polls: Seq<(u64, TouchState)>) -> Seq<TouchEvent>
        decreases polls.len(),
    {
        if polls.len() == 0 {
            Seq::empty()
        } else {
            let before = self.after_polls(polls.drop_last());
            let earlier = self.events(polls.drop_last());
            match before.emitted(polls.last().0, polls.last().1) {
                Some(e) => earlier.push(e),
                None => earlier,
            }
        }
    }

    /// A sampler that has not polled yet.
    pub fn new() -> (r: Self)
        ensures
            r == Self::initial(),
    {
        TouchSampler { last_poll: None, last_state: TouchState { x: 0, y: 0, pressed: false } }
    }

    /// Whether the controller is to be read at `now_ms`. A caller reads the
    /// controller only where this holds.
    pub fn due(&self, now_ms: u64) -> (r: bool)
        ensures
            r == self.is_due(now_ms),
    {
        match self.last_poll {
            None => true,
            Some(t) => now_ms >= t && now_ms - t >= MIN_POLL_INTERVAL_MS,
        }
    }

    /// One poll at `now_ms`, as a pointer event. Where no read is due,
    /// `raw` is not looked at and nothing changes. Otherwise `raw`, the
    /// sample just read, replaces the remembered one, and the step from
    /// the one to the other gives the event.
    pub fn poll(&mut self, now_ms: u64, raw: TouchState) -> (r: Option<TouchEvent>)
        ensures
            *final(self) == old(self).after_poll(now_ms, raw),
            r == old(self).emitted(now_ms, raw),
    {
        let prev = self.last_state;
        match read_touch(self, now_ms, raw) {
            Some(next) => pointer_event(prev, next),
            None => None,
        }
    }
}

/// One poll at `now_ms`, as a sample. Where no read is due, `raw` is not
/// looked at, nothing changes and nothing is reported. Otherwise `raw`, the
/// sample just read, replaces the remembered one, and is reported where it
/// differs from it.
pub fn read_touch(cache: &mut TouchSampler, now_ms: u64, raw: TouchState) -> (r: Option<TouchState>)
    ensures
        *final(cache) == old(cache).after_poll(now_ms, raw),
        r == old(cache).reported(now_ms, raw),
{
    if !cache.due(now_ms) {
        return None;
    }
    let old_state = cache.last_state;
    cache.last_poll = Some(now_ms);
    cache.last_state = raw;
    if raw == old_state {
        return None;
    }
    Some(raw)
}

/// The pointer event that the step from `prev` to `next` makes.
pub fn pointer_event(prev: TouchState, next: TouchState) -> (r: Option<TouchEvent>)
    ensures
        r == edge(prev, next),
{
    if next == prev {
        None
    } else if next.pressed {
        let point = Point { x: next.x as i32, y: next.y as i32 };
        if prev.pressed {
            Some(TouchEvent::Moved(point))
        } else {
            Some(TouchEvent::Pressed(point))
        }
    } else if prev.pressed {
        Some(TouchEvent::Released)
    } else {
        None
    }
}

/// Polls are rate-limited: after a read at `t`, no read is due before the
/// least interval has passed, so a poll then reports nothing, emits
/// nothing and leaves the sampler as it is, whatever the controller would
/// say.
pub proof fn law_rate_limit(
    s: TouchSampler,
    t: u64,
    first: TouchState,
    now: u64,
    second: TouchState,
)
    requires
        s.is_due(t),
        now < t + MIN_POLL_INTERVAL_MS,
    ensures
        !s.after_poll(t, first).is_due(now),
        s.after_poll(t, first).reported(now, second).is_none(),
        s.after_poll(t, first).emitted(now, second).is_none(),
        s.after_poll(t, first).after_poll(now, second) == s.after_poll(t, first),
{
}

/// What the sampler remembers is what it last reported.
pub proof fn lemma_reports_last(s: TouchSampler, polls: Seq<(u64, TouchState)>)
    ensures
        s.reports(polls).len() == 0 ==> s.after_polls(polls).last_state == s.last_state,
        s.reports(polls).len() > 0 ==> s.after_polls(polls).last_state == s.reports(polls).last(),
    decreases polls.len(),
{
    if polls.len() > 0 {
        lemma_reports_last(s, polls.drop_last());
    }
}

/// Two samples reported one after the other are never the same, and the
/// first differs from what the sampler remembered at the start.
pub proof fn law_no_repeated_report(s: TouchSampler, polls: Seq<(u64, TouchState)>, i: int)
    requires
        0 <= i < s.reports(polls).len(),
    ensures
        i == 0 ==> s.reports(polls)[i] != s.last_state,
        i > 0 ==> s.reports(polls)[i] != s.reports(polls)[i - 1],
    decreases polls.len(),
{
    let before = s.after_polls(polls.drop_last());
    let earlier = s.reports(polls.drop_last());
    lemma_reports_last(s, polls.drop_last());
    if i < earlier.len() {
        law_no_repeated_report(s, polls.drop_last(), i);
    }
}

/// What the sampler remembers agrees with the last event: after a press or
/// a move the touch is held at that point, after a release it is not.
pub open spec fn agrees_with(state: TouchState, event: TouchEvent) -> bool {
    match event {
        TouchEvent::Pressed(p) => state.pressed && point_of(state) == p,
        TouchEvent::Moved(p) => state.pressed && point_of(state) == p,
        TouchEvent::Released => !state.pressed,
    }
}

/// After any polls, what the sampler remembers agrees with the last event.
pub proof fn lemma_events_last(s: TouchSampler, polls: Seq<(u64, TouchState)>)
    ensures
        s.events(polls).len() > 0 ==> agrees_with(
            s.after_polls(polls).last_state,
            s.events(polls).last(),
        ),
    decreases polls.len(),
{
    if polls.len() > 0 {
        lemma_events_last(s, polls.drop_last());
    }
}

/// Two events emitted one after the other are never the same.
pub proof fn law_no_repeated_event(s: TouchSampler, polls: Seq<(u64, TouchState)>, i: int)
    requires
        0 < i < s.events(polls).len(),
    ensures
        s.events(polls)[i] != s.events(polls)[i - 1],
    decreases polls.len(),
{
    let earlier = s.events(polls.drop_last());
    lemma_events_last(s, polls.drop_last());
    if i < earlier.len() {
        law_no_repeated_event(s, polls.drop_last(), i);
    }
}

} // verus!