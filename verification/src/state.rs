use vstd::prelude::*;

use crate::events::{is_random_uuid, EngineEvent, EventKind, EventLevel};
use crate::text::{decimal, decimal_text, lemma_decimal_text_injective};

verus! {

/// How many of the most recent events the engine keeps.
pub const EVENT_WINDOW: usize = 100;

/// `e` with its sequence number set to `seq`.
pub open spec fn with_seq(e: EngineEvent, seq: u64) -> EngineEvent {
    EngineEvent { seq, ..e }
}

/// The events of `events` whose sequence number is greater than `cursor`,
/// in order.
pub open spec fn events_after(events: Seq<EngineEvent>, cursor: u64) -> Seq<EngineEvent> {
    events.filter(|e: EngineEvent| e.seq > cursor)
}

/// The retained window after appending `e` to `events`: the oldest event is
/// dropped once there are more than `EVENT_WINDOW`.
pub open spec fn window_after_push(events: Seq<EngineEvent>, e: EngineEvent) -> Seq<EngineEvent> {
    let pushed = events.push(e);
    if pushed.len() > EVENT_WINDOW {
        pushed.drop_first()
    } else {
        pushed
    }
}

/// Whether `e` is an event created just now with the given level, kind and
/// message text (its id and timestamp are whatever the clock and the random
/// source gave).
pub open spec fn is_new_event(e: EngineEvent, level: EventLevel, kind: EventKind, text: Seq<char>) -> bool {
    &&& is_random_uuid(e.id)
    &&& e.ts_secs >= 0
    &&& e.ts_nanos < 1_000_000_000
    &&& e.level == level
    &&& e.kind == kind
    &&& e.message@ == text
}

/// The message of a scan-loop heartbeat for `enabled_count` watched pools.
pub open spec fn heartbeat_text(enabled_count: nat) -> Seq<char> {
    if enabled_count == 0 {
        "no pools enabled - heartbeating in idle mode"@
    } else {
        "watching "@ + decimal_text(enabled_count) + " pool(s)"@
    }
}

/// The scan loop's heartbeat message for `enabled_count` watched pools.
pub fn heartbeat_message(enabled_count: usize) -> (message: String)
    ensures
        message@ == heartbeat_text(enabled_count as nat),
{
    if enabled_count == 0 {
        String::from_str("no pools enabled - heartbeating in idle mode")
    } else {
        let mut message = String::from_str("watching ");
        let count = decimal(enabled_count as u64);
        message.append(count.as_str());
        message.append(" pool(s)");
        message
    }
}

/// The text of the status report.
pub open spec fn status_text(paused: bool, dry_run: bool, event_counter: u64, last_message: Seq<char>) -> Seq<char> {
    "Engine status: "@ + (if paused { "paused"@ } else { "running"@ }) + "\nDry run: "@ + (if dry_run {
        "on"@
    } else {
        "off"@
    }) + "\nEvents emitted: "@ + decimal_text(event_counter as nat) + "\nLast event: "@ + last_message
}

/// Heartbeats for different numbers of watched pools say different things,
/// and a heartbeat for watched pools names their number in decimal.
pub proof fn lemma_heartbeat_names_pool_count(count: nat, other: nat)
    ensures
        count > 0 ==> heartbeat_text(count) == "watching "@ + decimal_text(count) + " pool(s)"@,
        count > 0 && other > 0 && heartbeat_text(count) == heartbeat_text(other) ==> count == other,
{
    if count > 0 && other > 0 && heartbeat_text(count) == heartbeat_text(other) {
        let head = "watching "@;
        let tail = " pool(s)"@;
        let t = heartbeat_text(count);
        assert(t == head + decimal_text(count) + tail);
        assert(heartbeat_text(other) == head + decimal_text(other) + tail);
        assert(decimal_text(count).len() == decimal_text(other).len());
        assert(decimal_text(count) =~= t.subrange(head.len() as int, (head.len() + decimal_text(count).len()) as int));
        assert(decimal_text(other) =~= heartbeat_text(other).subrange(
            head.len() as int,
            (head.len() + decimal_text(other).len()) as int,
        ));
        lemma_decimal_text_injective(count, other);
    }
}

/// The status report is made of the run mode, the dry-run flag, the decimal
/// text of the number of events ever pushed (`event_counter`, not only those
/// still retained), and the newest message; reports that differ only in the
/// counter are different, for every two counters.
pub proof fn lemma_status_reports_every_event_count(
    paused: bool,
    dry_run: bool,
    event_counter: u64,
    other_counter: u64,
    last: Seq<char>,
)
    ensures
        status_text(paused, dry_run, event_counter, last) == ("Engine status: "@ + (if paused {
            "paused"@
        } else {
            "running"@
        }) + "\nDry run: "@ + (if dry_run { "on"@ } else { "off"@ }) + "\nEvents emitted: "@) + decimal_text(
            event_counter as nat,
        ) + ("\nLast event: "@ + last),
        status_text(paused, dry_run, event_counter, last) == status_text(paused, dry_run, other_counter, last)
            ==> event_counter == other_counter,
{
    let head = "Engine status: "@ + (if paused { "paused"@ } else { "running"@ }) + "\nDry run: "@ + (if dry_run {
        "on"@
    } else {
        "off"@
    }) + "\nEvents emitted: "@;
    let tail = "\nLast event: "@ + last;
    let d1 = decimal_text(event_counter as nat);
    let d2 = decimal_text(other_counter as nat);
    assert(status_text(paused, dry_run, event_counter, last) =~= head + d1 + tail);
    assert(status_text(paused, dry_run, other_counter, last) =~= head + d2 + tail);
    if head + d1 + tail == head + d2 + tail {
        let t1 = head + d1 + tail;
        assert(d1.len() == d2.len());
        assert(d1 =~= t1.subrange(head.len() as int, (head.len() + d1.len()) as int));
        assert(d2 =~= (head + d2 + tail).subrange(head.len() as int, (head.len() + d2.len()) as int));
        lemma_decimal_text_injective(event_counter as nat, other_counter as nat);
    }
}

/// The message of the newest retained event, or `"no events"`.
pub open spec fn last_message(events: Seq<EngineEvent>) -> Seq<char> {
    if events.len() == 0 {
        "no events"@
    } else {
        events.last().message@
    }
}

/// The answer to a poll of the event log.
#[derive(Debug)]
pub struct EventsResponse {
    pub events: Vec<EngineEvent>,
    pub next_cursor: u64,
    pub dry_run: bool,
}

/// The engine's shared state: run flags and the event log.
///
/// `pushed` records, for proofs only, every event handed to `push_event`, in order.
pub struct EngineState {
    pub paused: bool,
    pub dry_run: bool,
    pub recent_events: Vec<EngineEvent>,
    pub event_counter: u64,
    pub pushed: Ghost<Seq<EngineEvent>>,
}

impl Default for EngineState {
    fn default() -> (state: Self)
        ensures
            state.wf(),
            state.numbered_window(),
            state.follows_pushes(),
            state.pushed@ == Seq::<EngineEvent>::empty(),
            !state.paused,
            !state.dry_run,
            state.event_counter == 0,
            state.recent_events@.len() == 0,
    {
        EngineState {
            paused: false,
            dry_run: false,
            recent_events: Vec::new(),
            event_counter: 0,
            pushed: Ghost(Seq::empty()),
        }
    }
}

impl EngineState {
    /// The window is numbered consecutively up to `event_counter - 1` and
    /// holds at most `min(event_counter, EVENT_WINDOW)` events.
    pub open spec fn numbered_window(&self) -> bool {
        &&& self.recent_events@.len() <= EVENT_WINDOW
        &&& self.recent_events@.len() <= self.event_counter
        &&& forall|i: int|
            0 <= i < self.recent_events@.len() ==> #[trigger] self.recent_events@[i].seq
                == self.event_counter - self.recent_events@.len() + i
    }

    /// The retained events are numbered in non-decreasing order (what the
    /// search for the first event after a cursor needs).
    pub open spec fn seqs_ordered(&self) -> bool {
        forall|i: int, j: int|
            0 <= i <= j < self.recent_events@.len() ==> #[trigger] self.recent_events@[i].seq
                <= #[trigger] self.recent_events@[j].seq
    }

    /// Every retained event is numbered below `event_counter`.
    pub open spec fn seqs_below_counter(&self) -> bool {
        forall|i: int|
            0 <= i < self.recent_events@.len() ==> #[trigger] self.recent_events@[i].seq < self.event_counter
    }

    /// The log is exactly what the recorded pushes made of an empty log.
    pub open spec fn follows_pushes(&self) -> bool {
        &&& self.event_counter == self.pushed@.len()
        &&& self.recent_events@ == log_after_pushes(self.pushed@)
    }

    /// The log's invariant: `event_counter` events have been pushed, and the
    /// window holds the last `min(event_counter, EVENT_WINDOW)` of them, in
    /// order, numbered consecutively up to `event_counter - 1`.
    pub open spec fn wf(&self) -> bool {
        &&& self.recent_events@.len() == if self.event_counter < EVENT_WINDOW {
            self.event_counter as int
        } else {
            EVENT_WINDOW as int
        }
        &&& forall|i: int|
            0 <= i < self.recent_events@.len() ==> #[trigger] self.recent_events@[i].seq
                == self.event_counter - self.recent_events@.len() + i
    }

    /// Appends `event` to the log under the next sequence number, dropping the
    /// oldest event once the window is full.
    pub fn push_event(&mut self, event: EngineEvent)
        requires
            old(self).event_counter < u64::MAX,
        ensures
            old(self).wf() ==> final(self).wf(),
            old(self).numbered_window() ==> final(self).numbered_window(),
            old(self).follows_pushes() ==> final(self).follows_pushes(),
            final(self).pushed@ == old(self).pushed@.push(event),
            final(self).event_counter == old(self).event_counter + 1,
            final(self).recent_events@ == window_after_push(
                old(self).recent_events@,
                with_seq(event, old(self).event_counter),
            ),
            final(self).paused == old(self).paused,
            final(self).dry_run == old(self).dry_run,
    {
        let ghost before = self.recent_events@;
        let ghost given = event;
        let ghost history = self.pushed@;
        self.pushed = Ghost(self.pushed@.push(event));
        let event = EngineEvent { seq: self.event_counter, ..event };
        self.event_counter = self.event_counter + 1;
        self.recent_events.push(event);
        if self.recent_events.len() > EVENT_WINDOW {
            self.recent_events.remove(0);
        }
        assert(self.recent_events@ =~= window_after_push(before, event));
        assert(history.push(given).drop_last() =~= history);
    }

    /// The state the engine starts in: running, with the configured dry-run
    /// flag, and a log holding the single event "engine starting".
    pub fn starting(dry_run: bool) -> (state: Self)
        ensures
            state.wf(),
            state.follows_pushes(),
            state.pushed@.len() == 1,
            state.dry_run == dry_run,
            !state.paused,
            state.event_counter == 1,
            state.recent_events@.len() == 1,
            is_new_event(state.recent_events@[0], EventLevel::Info, EventKind::Info, "engine starting"@),
    {
        let mut state = EngineState { dry_run, ..Self::default() };
        state.push_event(EngineEvent::info(String::from_str("engine starting")));
        state
    }

    /// Pauses the engine and logs it.
    pub fn pause(&mut self)
        requires
            old(self).event_counter < u64::MAX,
        ensures
            old(self).wf() ==> final(self).wf(),
            old(self).numbered_window() ==> final(self).numbered_window(),
            old(self).follows_pushes() ==> final(self).follows_pushes(),
            final(self).pushed@.drop_last() == old(self).pushed@,
            final(self).pushed@.len() == old(self).pushed@.len() + 1,
            final(self).paused,
            final(self).dry_run == old(self).dry_run,
            final(self).event_counter == old(self).event_counter + 1,
            final(self).recent_events@ == window_after_push(old(self).recent_events@, final(self).recent_events@.last()),
            final(self).recent_events@.last().seq == old(self).event_counter,
            is_new_event(final(self).recent_events@.last(), EventLevel::Info, EventKind::Info, "engine paused from api"@),
    {
        self.paused = true;
        self.push_event(EngineEvent::info(String::from_str("engine paused from api")));
        assert(self.pushed@.drop_last() =~= old(self).pushed@);
    }

    /// Resumes the engine and logs it.
    pub fn resume(&mut self)
        requires
            old(self).event_counter < u64::MAX,
        ensures
            old(self).wf() ==> final(self).wf(),
            old(self).numbered_window() ==> final(self).numbered_window(),
            old(self).follows_pushes() ==> final(self).follows_pushes(),
            final(self).pushed@.drop_last() == old(self).pushed@,
            final(self).pushed@.len() == old(self).pushed@.len() + 1,
            !final(self).paused,
            final(self).dry_run == old(self).dry_run,
            final(self).event_counter == old(self).event_counter + 1,
            final(self).recent_events@ == window_after_push(old(self).recent_events@, final(self).recent_events@.last()),
            final(self).recent_events@.last().seq == old(self).event_counter,
            is_new_event(final(self).recent_events@.last(), EventLevel::Info, EventKind::Info, "engine resumed from api"@),
    {
        self.paused = false;
        self.push_event(EngineEvent::info(String::from_str("engine resumed from api")));
        assert(self.pushed@.drop_last() =~= old(self).pushed@);
    }

    /// One tick of the scan loop: logs a heartbeat for `enabled_count`
    /// watched pools.
    pub fn record_heartbeat(&mut self, enabled_count: usize)
        requires
            old(self).event_counter < u64::MAX,
        ensures
            old(self).wf() ==> final(self).wf(),
            old(self).numbered_window() ==> final(self).numbered_window(),
            old(self).follows_pushes() ==> final(self).follows_pushes(),
            final(self).pushed@.drop_last() == old(self).pushed@,
            final(self).pushed@.len() == old(self).pushed@.len() + 1,
            final(self).paused == old(self).paused,
            final(self).dry_run == old(self).dry_run,
            final(self).event_counter == old(self).event_counter + 1,
            final(self).recent_events@ == window_after_push(old(self).recent_events@, final(self).recent_events@.last()),
            final(self).recent_events@.last().seq == old(self).event_counter,
            is_new_event(
                final(self).recent_events@.last(),
                EventLevel::Info,
                EventKind::Heartbeat,
                heartbeat_text(enabled_count as nat),
            ),
    {
        let message = heartbeat_message(enabled_count);
        self.push_event(EngineEvent::heartbeat(message));
        assert(self.pushed@.drop_last() =~= old(self).pushed@);
    }

    /// The status report: run mode, dry-run flag, number of events emitted and
    /// the newest event's message.
    pub fn status(&self) -> (report: String)
        ensures
            report@ == status_text(self.paused, self.dry_run, self.event_counter, last_message(self.recent_events@)),
    {
        let mut report = String::from_str("Engine status: ");
        if self.paused {
            report.append("paused");
        } else {
            report.append("running");
        }
        report.append("\nDry run: ");
        if self.dry_run {
            report.append("on");
        } else {
            report.append("off");
        }
        report.append("\nEvents emitted: ");
        let count = decimal(self.event_counter);
        report.append(count.as_str());
        report.append("\nLast event: ");
        let n: usize = self.recent_events.len();
        if n == 0 {
            report.append("no events");
        } else {
            report.append(self.recent_events[n - 1].message.as_str());
        }
        report
    }

    /// The answer to a poll for the events after `since` (0 when absent).
    pub fn events_response(&self, since: Option<u64>) -> (response: EventsResponse)
        requires
            self.seqs_ordered(),
        ensures
            response.events@ == events_since_text(self, match since { Some(c) => c, None => 0 }),
            self.seqs_below_counter() ==> response.events@ == events_after(
                self.recent_events@,
                match since { Some(c) => c, None => 0 },
            ),
            response.next_cursor == self.event_counter,
            response.dry_run == self.dry_run,
    {
        let cursor: u64 = match since { Some(c) => c, None => 0 };
        EventsResponse { events: self.events_since(cursor), next_cursor: self.event_counter, dry_run: self.dry_run }
    }

    /// The retained events whose sequence number is greater than `cursor`;
    /// none once the cursor reaches `event_counter`.
    pub fn events_since(&self, cursor: u64) -> (events: Vec<EngineEvent>)
        requires
            self.seqs_ordered(),
        ensures
            events@ == events_since_text(self, cursor),
            self.seqs_below_counter() ==> events@ == events_after(self.recent_events@, cursor),
    {
        if cursor >= self.event_counter {
            proof {
                if self.seqs_below_counter() {
                    lemma_filter_split(
                        self.recent_events@,
                        |e: EngineEvent| e.seq > cursor,
                        self.recent_events@.len() as int,
                    );
                }
            }
            return Vec::new();
        }
        // First index whose event is numbered after `cursor`.
        let n: usize = self.recent_events.len();
        let mut lo: usize = 0;
        let mut hi: usize = n;
        while lo < hi
            invariant
                self.seqs_ordered(),
                n == self.recent_events@.len(),
                lo <= hi <= n,
                forall|i: int| 0 <= i < lo ==> #[trigger] self.recent_events@[i].seq <= cursor,
                forall|i: int| hi <= i < n ==> #[trigger] self.recent_events@[i].seq > cursor,
            decreases hi - lo,
        {
            let mid: usize = lo + (hi - lo) / 2;
            if self.recent_events[mid].seq <= cursor {
                lo = mid + 1;
            } else {
                hi = mid;
            }
        }
        let mut events: Vec<EngineEvent> = Vec::new();
        let mut i: usize = lo;
        while i < n
            invariant
                n == self.recent_events@.len(),
                lo <= i <= n,
                events@ == self.recent_events@.subrange(lo as int, i as int),
            decreases n - i,
        {
            events.push(self.recent_events[i].clone());
            assert(self.recent_events@.subrange(lo as int, i + 1) =~= self.recent_events@.subrange(lo as int, i as int).push(self.recent_events@[i as int]));
            i = i + 1;
        }
        proof {
            lemma_filter_split(self.recent_events@, |e: EngineEvent| e.seq > cursor, lo as int);
        }
        events
    }
}

/// What a poll of `state` at `cursor` returns: nothing once the cursor
/// reaches `event_counter`, otherwise the retained events numbered after it.
pub open spec fn events_since_text(state: &EngineState, cursor: u64) -> Seq<EngineEvent> {
    if cursor >= state.event_counter {
        Seq::empty()
    } else {
        events_after(state.recent_events@, cursor)
    }
}

impl EngineState {
    /// The full log invariant implies the weaker ones.
    pub proof fn lemma_wf_orders_seqs(&self)
        requires
            self.wf(),
        ensures
            self.numbered_window(),
            self.seqs_ordered(),
            self.seqs_below_counter(),
    {
    }
}

/// Where the first event after `cursor` sits in a well-formed window:
/// the window holds sequence numbers `event_counter - len ..= event_counter - 1`.
pub open spec fn first_after(state: EngineState, cursor: u64) -> int {
    let len: int = state.recent_events@.len() as int;
    let base: int = state.event_counter - len;
    if cursor + 1 - base < 0 {
        0
    } else if cursor + 1 - base > len {
        len
    } else {
        cursor + 1 - base
    }
}

/// A poll returns exactly the retained events numbered after the cursor:
/// the window's suffix from the first one after it. In particular it is
/// empty once the cursor reaches the newest event (`event_counter - 1`), and
/// a cursor older than the window gets the whole window.
pub proof fn lemma_events_after_is_window_suffix(state: EngineState, cursor: u64)
    requires
        state.wf(),
    ensures
        events_after(state.recent_events@, cursor) == state.recent_events@.subrange(
            first_after(state, cursor),
            state.recent_events@.len() as int,
        ),
        cursor + 1 >= state.event_counter ==> events_after(state.recent_events@, cursor).len() == 0,
        cursor + state.recent_events@.len() < state.event_counter ==> events_after(
            state.recent_events@,
            cursor,
        ) == state.recent_events@,
{
    let w = state.recent_events@;
    let k: int = first_after(state, cursor);
    lemma_filter_split(w, |e: EngineEvent| e.seq > cursor, k);
    assert(w.subrange(0, w.len() as int) =~= w);
}

/// What a push makes visible: a poller whose cursor lies before the pushed
/// event, and whose events after the cursor were all still retained, sees
/// what it saw before followed by the pushed event under its new number.
pub proof fn lemma_push_then_poll(state: EngineState, event: EngineEvent, cursor: u64)
    requires
        state.wf(),
        state.event_counter < u64::MAX,
        cursor < state.event_counter,
        state.event_counter < EVENT_WINDOW || cursor + EVENT_WINDOW >= state.event_counter,
    ensures
        events_after(
            window_after_push(state.recent_events@, with_seq(event, state.event_counter)),
            cursor,
        ) == events_after(state.recent_events@, cursor).push(with_seq(event, state.event_counter)),
{
    let w = state.recent_events@;
    let e = with_seq(event, state.event_counter);
    let p = |x: EngineEvent| x.seq > cursor;
    w.lemma_filter_push(e, p);
    let pushed = w.push(e);
    if pushed.len() > EVENT_WINDOW {
        assert(pushed =~= seq![pushed[0]] + pushed.drop_first());
        pushed.drop_first().lemma_filter_prepend(pushed[0], p);
        assert(w[0].seq == state.event_counter - EVENT_WINDOW);
        assert(!p(pushed[0]));
        assert(Seq::<EngineEvent>::empty() + pushed.drop_first().filter(p) =~= pushed.drop_first().filter(p));
    }
}

/// The log after pushing `events`, in order, onto an empty log: each push
/// appends the event under the next number, the oldest falling out past
/// `EVENT_WINDOW`.
pub open spec fn log_after_pushes(events: Seq<EngineEvent>) -> Seq<EngineEvent>
    decreases events.len(),
{
    if events.len() == 0 {
        Seq::empty()
    } else {
        window_after_push(
            log_after_pushes(events.drop_last()),
            with_seq(events.last(), (events.len() - 1) as u64),
        )
    }
}

/// After `n` pushes onto an empty log, the window holds the newest
/// `min(n, EVENT_WINDOW)` events, oldest first, each numbered by its push.
pub proof fn lemma_pushes_keep_newest(events: Seq<EngineEvent>)
    requires
        events.len() <= u64::MAX,
    ensures
        log_after_pushes(events).len() == if events.len() < EVENT_WINDOW {
            events.len() as int
        } else {
            EVENT_WINDOW as int
        },
        forall|k: int|
            0 <= k < log_after_pushes(events).len() ==> #[trigger] log_after_pushes(events)[k] == with_seq(
                events[events.len() - log_after_pushes(events).len() + k],
                (events.len() - log_after_pushes(events).len() + k) as u64,
            ),
    decreases events.len(),
{
    if events.len() > 0 {
        let init = events.drop_last();
        lemma_pushes_keep_newest(init);
        let prev = log_after_pushes(init);
        let n: int = events.len() as int;
        let e = with_seq(events.last(), (n - 1) as u64);
        let pushed = prev.push(e);
        let cur = log_after_pushes(events);
        assert forall|k: int| 0 <= k < cur.len() implies #[trigger] cur[k] == with_seq(
            events[n - cur.len() + k],
            (n - cur.len() + k) as u64,
        ) by {
            if pushed.len() > EVENT_WINDOW {
                assert(cur[k] == pushed[k + 1]);
                if k + 1 < prev.len() {
                    assert(prev[k + 1] == with_seq(init[n - 1 - prev.len() + k + 1], (n - 1 - prev.len() + k + 1) as u64));
                }
            } else {
                if k < prev.len() {
                    assert(prev[k] == with_seq(init[n - 1 - prev.len() + k], (n - 1 - prev.len() + k) as u64));
                }
            }
        }
    }
}

/// The log of a state that only `push_event` (and the operations built on
/// it) have written since `default`: it holds the newest
/// `min(event_counter, EVENT_WINDOW)` of the pushed events, oldest first, each
/// numbered by its push.
pub proof fn lemma_log_holds_newest_pushes(state: EngineState)
    requires
        state.follows_pushes(),
    ensures
        state.recent_events@.len() == if state.event_counter < 100 {
            state.event_counter as int
        } else {
            100
        },
        forall|k: int|
            0 <= k < state.recent_events@.len() ==> #[trigger] state.recent_events@[k] == with_seq(
                state.pushed@[state.event_counter - state.recent_events@.len() + k],
                (state.event_counter - state.recent_events@.len() + k) as u64,
            ),
{
    lemma_pushes_keep_newest(state.pushed@);
}

/// A sequence whose elements fail `p` up to `k` and satisfy it from `k` on
/// filters to its suffix from `k`.
proof fn lemma_filter_split(s: Seq<EngineEvent>, p: spec_fn(EngineEvent) -> bool, k: int)
    requires
        0 <= k <= s.len(),
        forall|i: int| 0 <= i < k ==> !p(#[trigger] s[i]),
        forall|i: int| k <= i < s.len() ==> p(#[trigger] s[i]),
    ensures
        s.filter(p) == s.subrange(k, s.len() as int),
    decreases s.len(),
{
    reveal(Seq::filter);
    if s.len() == 0 {
        assert(s.filter(p) =~= Seq::<EngineEvent>::empty());
        assert(s.subrange(k, s.len() as int) =~= Seq::<EngineEvent>::empty());
    } else if k == s.len() {
        lemma_filter_split(s.drop_last(), p, k - 1);
        assert(s.subrange(k, s.len() as int) =~= Seq::<EngineEvent>::empty());
        assert(s.drop_last().subrange(k - 1, k - 1) =~= Seq::<EngineEvent>::empty());
    } else {
        lemma_filter_split(s.drop_last(), p, k);
        assert(s.subrange(k, s.len() as int) =~= s.drop_last().subrange(k, s.len() - 1).push(s.last()));
    }
}

} // verus!
