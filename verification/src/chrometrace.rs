//! The trace event encoder: per-thread state across samples, the frame
//! differ that turns consecutive stacks into minimal begin/end events, and
//! the sink framing that serializes events as one JSON array.

use vstd::prelude::*;

use crate::events::Event;
use crate::events::Phase;
use crate::events::event_json;
use crate::events::event_json_bytes;
use crate::stack_trace::Frame;
use crate::stack_trace::StackTrace;
use crate::stack_trace::unique_tids;

verus! {

/// Two frames are the same call: equal name and file, and equal line when
/// line numbers matter.
pub open spec fn frames_match(a: Frame, b: Frame, line_sensitive: bool) -> bool {
    a.name@ == b.name@ && a.filename@ == b.filename@ && (line_sensitive ==> a.line == b.line)
}

/// How many frames two leaf-first stacks share, counted from the root end
/// inward: the divergence depth of consecutive samples.
pub open spec fn common_root_len(p: Seq<Frame>, c: Seq<Frame>, ls: bool) -> nat
    decreases p.len(),
{
    if p.len() == 0 || c.len() == 0 {
        0
    } else if frames_match(p.last(), c.last(), ls) {
        1 + common_root_len(p.drop_last(), c.drop_last(), ls)
    } else {
        0
    }
}

/// A root-end scan that stops at the first mismatch computes the common
/// root length.
proof fn lemma_common_root_len(p: Seq<Frame>, c: Seq<Frame>, ls: bool, d: nat)
    requires
        d <= p.len(),
        d <= c.len(),
        forall|k: int|
            0 <= k < d ==> frames_match(#[trigger] p[p.len() - 1 - k], c[c.len() - 1 - k], ls),
        d == p.len() || d == c.len() || !frames_match(p[p.len() - 1 - d], c[c.len() - 1 - d], ls),
    ensures
        common_root_len(p, c, ls) == d,
    decreases p.len(),
{
    if p.len() == 0 || c.len() == 0 {
    } else if frames_match(p.last(), c.last(), ls) {
        assert(d >= 1) by {
            if d == 0 {
                assert(!frames_match(p[p.len() - 1], c[c.len() - 1], ls));
            }
        }
        let tp = p.drop_last();
        let tc = c.drop_last();
        assert forall|k: int|
            0 <= k < d - 1 implies frames_match(
            #[trigger] tp[tp.len() - 1 - k],
            tc[tc.len() - 1 - k],
            ls,
        ) by {
            assert(tp[tp.len() - 1 - k] == p[p.len() - 1 - (k + 1)]);
            assert(tc[tc.len() - 1 - k] == c[c.len() - 1 - (k + 1)]);
            assert(frames_match(p[p.len() - 1 - (k + 1)], c[c.len() - 1 - (k + 1)], ls));
        }
        if d - 1 < tp.len() && d - 1 < tc.len() {
            assert(tp[tp.len() - 1 - (d - 1)] == p[p.len() - 1 - d as int]);
            assert(tc[tc.len() - 1 - (d - 1)] == c[c.len() - 1 - d as int]);
        }
        lemma_common_root_len(tp, tc, ls, (d - 1) as nat);
    } else {
        assert(d == 0) by {
            if d >= 1 {
                assert(frames_match(p[p.len() - 1 - 0], c[c.len() - 1 - 0], ls));
            }
        }
    }
}

/// The event one frame of one thread's sample becomes.
pub open spec fn mk_event(t: StackTrace, f: Frame, ph: Phase, ls: bool, now: u64) -> Event {
    Event {
        name: f.name,
        filename: f.filename,
        line: if ls {
            Option::Some(f.line)
        } else {
            Option::None
        },
        ph,
        pid: t.pid,
        tid: t.thread_id,
        ts: now,
    }
}

/// End events for a run of frames, innermost (leaf) first.
pub open spec fn end_run(t: StackTrace, fs: Seq<Frame>, ls: bool, now: u64) -> Seq<Event> {
    Seq::new(fs.len(), |i: int| mk_event(t, fs[i], Phase::End, ls, now))
}

/// Begin events for a run of frames, root first.
pub open spec fn begin_run(t: StackTrace, fs: Seq<Frame>, ls: bool, now: u64) -> Seq<Event> {
    Seq::new(fs.len(), |i: int| mk_event(t, fs[fs.len() - 1 - i], Phase::Begin, ls, now))
}

/// The minimal event run for one thread's new sample against its previous
/// stack: ends for the frames dropped below the divergence depth, innermost
/// first, then begins for the frames added, root first.
pub open spec fn diff_events(t: StackTrace, prev: Seq<Frame>, ls: bool, now: u64) -> Seq<Event> {
    let d = common_root_len(prev, t.frames@, ls);
    end_run(t, prev.take(prev.len() - d), ls, now) + begin_run(
        t,
        t.frames@.take(t.frames@.len() - d),
        ls,
        now,
    )
}

/// Whether two frames are similar enough to merge into one interval.
fn should_merge_frames(a: &Frame, b: &Frame, line_sensitive: bool) -> (r: bool)
    ensures
        r == frames_match(*a, *b, line_sensitive),
{
    (!line_sensitive || a.line == b.line) && a.name.eq(&b.name) && a.filename.eq(&b.filename)
}

/// Compute the divergence depth of two consecutive stacks.
fn common_root_exec(prev: &Vec<Frame>, cur: &Vec<Frame>, ls: bool) -> (d: usize)
    ensures
        d == common_root_len(prev@, cur@, ls),
        d <= prev@.len(),
        d <= cur@.len(),
{
    let p = prev.len();
    let c = cur.len();
    let mut d: usize = 0;
    while d < p && d < c
        invariant_except_break
            p == prev@.len(),
            c == cur@.len(),
            d <= p,
            d <= c,
            forall|k: int|
                0 <= k < d ==> frames_match(#[trigger] prev@[p - 1 - k], cur@[c - 1 - k], ls),
        ensures
            p == prev@.len(),
            c == cur@.len(),
            d <= p,
            d <= c,
            forall|k: int|
                0 <= k < d ==> frames_match(#[trigger] prev@[p - 1 - k], cur@[c - 1 - k], ls),
            d == p || d == c || !frames_match(prev@[p - 1 - d], cur@[c - 1 - d], ls),
        decreases p - d,
    {
        let fm = should_merge_frames(&prev[p - 1 - d], &cur[c - 1 - d], ls);
        if !fm {
            break ;
        }
        d = d + 1;
    }
    proof {
        lemma_common_root_len(prev@, cur@, ls, d as nat);
    }
    d
}

/// Build the event one frame becomes.
fn mk_event_exec(t: &StackTrace, f: &Frame, begin: bool, ls: bool, now: u64) -> (e: Event)
    ensures
        e == mk_event(
            *t,
            *f,
            if begin {
                Phase::Begin
            } else {
                Phase::End
            },
            ls,
            now,
        ),
{
    Event {
        name: f.name.clone(),
        filename: f.filename.clone(),
        line: if ls {
            Some(f.line)
        } else {
            None
        },
        ph: if begin {
            Phase::Begin
        } else {
            Phase::End
        },
        pid: t.pid,
        tid: t.thread_id,
        ts: now,
    }
}

/// The events one thread's new sample produces against its previous frames.
#[verifier::loop_isolation(false)]
fn record_events_for(trace: &StackTrace, prev_frames: &Vec<Frame>, ls: bool, now: u64) -> (r: Vec<
    Event,
>)
    ensures
        r@ == diff_events(*trace, prev_frames@, ls, now),
{
    let d = common_root_exec(prev_frames, &trace.frames, ls);
    let drops = prev_frames.len() - d;
    let adds = trace.frames.len() - d;
    let mut r: Vec<Event> = Vec::new();
    let mut i: usize = 0;
    while i < drops
        invariant
            i <= drops,
            drops == prev_frames@.len() - d,
            r@ == end_run(*trace, prev_frames@.take(drops as int), ls, now).take(i as int),
        decreases drops - i,
    {
        let e = mk_event_exec(trace, &prev_frames[i], false, ls, now);
        r.push(e);
        proof {
            let ends = end_run(*trace, prev_frames@.take(drops as int), ls, now);
            assert(ends.take(i + 1) =~= ends.take(i as int).push(ends[i as int]));
            assert(ends[i as int] == mk_event(*trace, prev_frames@[i as int], Phase::End, ls, now));
        }
        i = i + 1;
    }
    proof {
        let ends = end_run(*trace, prev_frames@.take(drops as int), ls, now);
        assert(ends.take(drops as int) =~= ends);
    }
    let mut k: usize = 0;
    while k < adds
        invariant
            k <= adds,
            adds == trace.frames@.len() - d,
            r@ == end_run(*trace, prev_frames@.take(drops as int), ls, now) + begin_run(
                *trace,
                trace.frames@.take(adds as int),
                ls,
                now,
            ).take(k as int),
        decreases adds - k,
    {
        let e = mk_event_exec(trace, &trace.frames[adds - 1 - k], true, ls, now);
        r.push(e);
        proof {
            let begins = begin_run(*trace, trace.frames@.take(adds as int), ls, now);
            assert(begins.take(k + 1) =~= begins.take(k as int).push(begins[k as int]));
            assert(begins[k as int] == mk_event(
                *trace,
                trace.frames@[adds - 1 - k as int],
                Phase::Begin,
                ls,
                now,
            ));
        }
        k = k + 1;
    }
    proof {
        let begins = begin_run(*trace, trace.frames@.take(adds as int), ls, now);
        assert(begins.take(adds as int) =~= begins);
    }
    r
}

/// The bytes one event adds to the array: its own encoding, after the
/// opening bracket or a separating comma.
pub open spec fn write_bytes(log: Seq<Event>, e: Event) -> Seq<u8> {
    if log.len() == 0 {
        seq![91u8] + event_json(e)
    } else {
        seq![44u8] + event_json(e)
    }
}

/// All bytes an event log has produced so far: the opening bracket, the
/// encoded events, commas between them.
pub open spec fn joined_events(log: Seq<Event>) -> Seq<u8>
    decreases log.len(),
{
    if log.len() == 0 {
        Seq::empty()
    } else {
        joined_events(log.drop_last()) + write_bytes(log.drop_last(), log.last())
    }
}

/// The completed artifact for an event log: one JSON array and a newline.
pub open spec fn artifact_bytes(log: Seq<Event>) -> Seq<u8> {
    if log.len() == 0 {
        seq![91u8, 93u8, 10u8]
    } else {
        joined_events(log) + seq![93u8, 10u8]
    }
}

/// The append-only event sink: callers hand it one event at a time and get
/// back the bytes to append to the artifact; it manages the JSON array
/// framing. The events written and the bytes handed out are carried as ghost
/// state so that the artifact is pinned down.
pub struct Writer {
    first: bool,
    events: Ghost<Seq<Event>>,
    emitted: Ghost<Seq<u8>>,
}

impl Writer {
    /// The events written so far.
    pub closed spec fn log(&self) -> Seq<Event> {
        self.events@
    }

    /// The bytes handed out so far.
    pub closed spec fn emitted(&self) -> Seq<u8> {
        self.emitted@
    }

    /// The sink's framing state agrees with its log.
    pub closed spec fn wf(&self) -> bool {
        (!self.first <==> self.log().len() > 0) && self.emitted() == joined_events(self.log())
    }

    pub fn new() -> (w: Writer)
        ensures
            w.wf(),
            w.log() == Seq::<Event>::empty(),
            w.emitted() == Seq::<u8>::empty(),
    {
        Writer { first: true, events: Ghost(Seq::empty()), emitted: Ghost(Seq::empty()) }
    }

    /// Write one event; the returned bytes extend the artifact.
    pub fn write(&mut self, e: &Event) -> (r: Vec<u8>)
        requires
            old(self).wf(),
        ensures
            final(self).wf(),
            final(self).log() == old(self).log().push(*e),
            r@ == write_bytes(old(self).log(), *e),
            final(self).emitted() == old(self).emitted() + r@,
    {
        let mut out: Vec<u8> = Vec::new();
        if self.first {
            out.push(91);
            self.first = false;
        } else {
            out.push(44);
        }
        let mut j = event_json_bytes(e);
        out.append(&mut j);
        proof {
            self.events@ = self.events@.push(*e);
            self.emitted@ = self.emitted@ + out@;
            assert(self.events@.drop_last() =~= old(self).log());
            assert(out@ =~= write_bytes(old(self).log(), *e));
        }
        out
    }

    /// Finish the artifact: the returned bytes close the JSON array, and the
    /// bytes handed out over the sink's whole life form the artifact of its
    /// log.
    pub fn close(self) -> (r: Vec<u8>)
        requires
            self.wf(),
        ensures
            self.emitted() + r@ == artifact_bytes(self.log()),
    {
        let mut out: Vec<u8> = Vec::new();
        if self.first {
            out.push(91);
        }
        out.push(93);
        out.push(10);
        proof {
            assert(self.emitted() + out@ =~= artifact_bytes(self.log()));
        }
        out
    }
}

/// The index of the first stored trace of a thread id.
pub open spec fn first_tid_index(prev: Seq<StackTrace>, tid: u64) -> Option<int>
    decreases prev.len(),
{
    if prev.len() == 0 {
        Option::None
    } else if prev[0].thread_id == tid {
        Option::Some(0int)
    } else {
        match first_tid_index(prev.drop_first(), tid) {
            Option::None => Option::None,
            Option::Some(j) => Option::Some(j + 1),
        }
    }
}

/// The previous frames stored for a thread, empty when the thread is new.
pub open spec fn prev_frames_of(prev: Seq<StackTrace>, tid: u64) -> Seq<Frame> {
    match first_tid_index(prev, tid) {
        Option::None => Seq::empty(),
        Option::Some(i) => prev[i].frames@,
    }
}

/// Whether a batch holds a trace of a thread id.
pub open spec fn has_tid(ts: Seq<StackTrace>, tid: u64) -> bool {
    exists|i: int| 0 <= i < ts.len() && (#[trigger] ts[i]).thread_id == tid
}

/// A scan that passed `i` traces without the id pins down the first.
proof fn lemma_first_tid_index(prev: Seq<StackTrace>, tid: u64, i: int)
    requires
        0 <= i <= prev.len(),
        forall|k: int| 0 <= k < i ==> (#[trigger] prev[k]).thread_id != tid,
        i == prev.len() || prev[i].thread_id == tid,
    ensures
        i == prev.len() ==> first_tid_index(prev, tid) is None,
        i < prev.len() ==> first_tid_index(prev, tid) == Option::Some(i),
    decreases prev.len(),
{
    if prev.len() > 0 {
        if prev[0].thread_id == tid {
            assert(i == 0);
        } else {
            assert(i >= 1);
            let t = prev.drop_first();
            assert(forall|k: int| 0 <= k < i - 1 ==> (#[trigger] t[k]).thread_id != tid);
            lemma_first_tid_index(t, tid, i - 1);
        }
    }
}

/// Find the stored trace of a thread id.
#[verifier::loop_isolation(false)]
fn lookup_trace<'a>(prev: &'a Vec<StackTrace>, tid: u64) -> (r: Option<&'a StackTrace>)
    ensures
        match r {
            Option::None => first_tid_index(prev@, tid) is None,
            Option::Some(t) => first_tid_index(prev@, tid) matches Option::Some(i) && *t
                == prev@[i],
        },
{
    let mut i: usize = 0;
    while i < prev.len()
        invariant
            i <= prev@.len(),
            forall|k: int| 0 <= k < i ==> (#[trigger] prev@[k]).thread_id != tid,
        decreases prev@.len() - i,
    {
        if prev[i].thread_id == tid {
            proof {
                lemma_first_tid_index(prev@, tid, i as int);
            }
            return Some(&prev[i]);
        }
        i = i + 1;
    }
    proof {
        lemma_first_tid_index(prev@, tid, prev@.len() as int);
    }
    None
}

/// Whether a batch holds a trace of a thread id.
#[verifier::loop_isolation(false)]
fn contains_tid(ts: &Vec<StackTrace>, tid: u64) -> (r: bool)
    ensures
        r == has_tid(ts@, tid),
{
    let mut i: usize = 0;
    while i < ts.len()
        invariant
            i <= ts@.len(),
            forall|k: int| 0 <= k < i ==> (#[trigger] ts@[k]).thread_id != tid,
        decreases ts@.len() - i,
    {
        if ts[i].thread_id == tid {
            return true;
        }
        i = i + 1;
    }
    false
}

/// The events a whole batch of new samples produces, batch order.
pub open spec fn trace_events(
    prev: Seq<StackTrace>,
    traces: Seq<StackTrace>,
    ls: bool,
    now: u64,
) -> Seq<Event>
    decreases traces.len(),
{
    if traces.len() == 0 {
        Seq::empty()
    } else {
        trace_events(prev, traces.drop_last(), ls, now) + diff_events(
            traces.last(),
            prev_frames_of(prev, traces.last().thread_id),
            ls,
            now,
        )
    }
}

/// End events for every stored thread that the new batch no longer shows,
/// stored order, each thread's frames innermost first.
pub open spec fn leftover_ends(
    prev: Seq<StackTrace>,
    traces: Seq<StackTrace>,
    ls: bool,
    now: u64,
) -> Seq<Event>
    decreases prev.len(),
{
    if prev.len() == 0 {
        Seq::empty()
    } else {
        leftover_ends(prev.drop_last(), traces, ls, now) + (if has_tid(
            traces,
            prev.last().thread_id,
        ) {
            Seq::<Event>::empty()
        } else {
            end_run(prev.last(), prev.last().frames@, ls, now)
        })
    }
}

/// The full event run of one sampling tick.
pub open spec fn increment_events(
    prev: Seq<StackTrace>,
    traces: Seq<StackTrace>,
    ls: bool,
    now: u64,
) -> Seq<Event> {
    trace_events(prev, traces, ls, now) + leftover_ends(prev, traces, ls, now)
}

/// The end events a flush emits: every stored thread's open frames closed.
pub open spec fn flush_events(prev: Seq<StackTrace>, ls: bool, now: u64) -> Seq<Event> {
    leftover_ends(prev, Seq::empty(), ls, now)
}

/// Write a run of events to the sink, collecting the bytes.
#[verifier::loop_isolation(false)]
fn write_all(w: &mut Writer, events: &Vec<Event>) -> (r: Vec<u8>)
    requires
        old(w).wf(),
    ensures
        final(w).wf(),
        final(w).log() == old(w).log() + events@,
        final(w).emitted() == old(w).emitted() + r@,
{
    let mut r: Vec<u8> = Vec::new();
    let mut j: usize = 0;
    while j < events.len()
        invariant
            j <= events@.len(),
            w.wf(),
            w.log() == old(w).log() + events@.take(j as int),
            w.emitted() == old(w).emitted() + r@,
        decreases events@.len() - j,
    {
        let mut b = w.write(&events[j]);
        r.append(&mut b);
        proof {
            assert(events@.take(j + 1) =~= events@.take(j as int).push(events@[j as int]));
            assert((old(w).log() + events@.take(j as int)).push(events@[j as int]) =~= old(w).log()
                + events@.take(j + 1));
        }
        j = j + 1;
    }
    proof {
        assert(events@.take(events@.len() as int) =~= events@);
    }
    r
}

/// End events for every frame of one stored thread, innermost first.
#[verifier::loop_isolation(false)]
fn end_all(t: &StackTrace, ls: bool, now: u64) -> (r: Vec<Event>)
    ensures
        r@ == end_run(*t, t.frames@, ls, now),
{
    let mut r: Vec<Event> = Vec::new();
    let mut i: usize = 0;
    while i < t.frames.len()
        invariant
            i <= t.frames@.len(),
            r@ == end_run(*t, t.frames@, ls, now).take(i as int),
        decreases t.frames@.len() - i,
    {
        let e = mk_event_exec(t, &t.frames[i], false, ls, now);
        r.push(e);
        proof {
            let ends = end_run(*t, t.frames@, ls, now);
            assert(ends.take(i + 1) =~= ends.take(i as int).push(ends[i as int]));
        }
        i = i + 1;
    }
    proof {
        assert(end_run(*t, t.frames@, ls, now).take(t.frames@.len() as int) =~= end_run(
            *t,
            t.frames@,
            ls,
            now,
        ));
    }
    r
}

#[verifier::external_type_specification]
#[verifier::external_body]
pub struct ExInstant(std::time::Instant);

/// Relies on std::time::Instant::now: the start of the encoder's monotonic,
/// process-local clock.
#[verifier::external_body]
fn instant_now() -> std::time::Instant {
    std::time::Instant::now()
}

/// Relies on Instant::elapsed and Duration::as_micros: the microseconds
/// elapsed since `start`, truncated to 64 bits.
#[verifier::external_body]
fn elapsed_micros(start: &std::time::Instant) -> u64 {
    start.elapsed().as_micros() as u64
}

/// The trace event encoder: per-thread previous stacks, the session clock,
/// and the sink. Callers append the returned byte fragments, in order, to
/// the compressed artifact.
pub struct Chrometrace {
    writer: Writer,
    start_ts: std::time::Instant,
    prev_traces: Vec<StackTrace>,
    show_linenumbers: bool,
}

impl Chrometrace {
    /// The stored previous trace of each open thread.
    pub closed spec fn prev(&self) -> Seq<StackTrace> {
        self.prev_traces@
    }

    /// The events written to the sink this session.
    pub closed spec fn log(&self) -> Seq<Event> {
        self.writer.log()
    }

    /// The bytes handed out this session.
    pub closed spec fn emitted(&self) -> Seq<u8> {
        self.writer.emitted()
    }

    /// Whether events carry line numbers.
    pub closed spec fn lines(&self) -> bool {
        self.show_linenumbers
    }

    /// The sink agrees with its log, no thread is stored twice, and the
    /// log is well nested, leaving open exactly the frames of the stored
    /// traces.
    pub closed spec fn wf(&self) -> bool {
        &&& self.writer.wf()
        &&& unique_tids(self.prev_traces@)
        &&& crate::balance::wf_log(self.writer.log())
        &&& crate::balance::opens(self.writer.log()) == crate::balance::open_keys(
            self.prev_traces@,
            self.show_linenumbers,
        )
    }

    pub fn new(show_linenumbers: bool) -> (r: Chrometrace)
        ensures
            r.wf(),
            r.prev() == Seq::<StackTrace>::empty(),
            r.log() == Seq::<Event>::empty(),
            r.emitted() == Seq::<u8>::empty(),
            r.lines() == show_linenumbers,
    {
        let r = Chrometrace {
            writer: Writer::new(),
            start_ts: instant_now(),
            prev_traces: Vec::new(),
            show_linenumbers,
        };
        proof {
            assert(crate::balance::opens(r.writer.log()) =~= crate::balance::open_keys(
                r.prev_traces@,
                show_linenumbers,
            ));
        }
        r
    }

    /// One sampling tick at a given timestamp: diff each thread's new stack
    /// against its stored one, close threads that vanished, store the batch.
    #[verifier::rlimit(100)]
    #[verifier::loop_isolation(false)]
    pub fn increment_at(&mut self, traces: Vec<StackTrace>, now: u64) -> (r: Vec<u8>)
        requires
            old(self).wf(),
            unique_tids(traces@),
        ensures
            final(self).wf(),
            final(self).lines() == old(self).lines(),
            final(self).prev() == traces@,
            final(self).log() == old(self).log() + increment_events(
                old(self).prev(),
                traces@,
                old(self).lines(),
                now,
            ),
            final(self).emitted() == old(self).emitted() + r@,
    {
        let ghost prev0 = self.prev_traces@;
        let ls = self.show_linenumbers;
        let empty_frames: Vec<Frame> = Vec::new();
        let mut out: Vec<u8> = Vec::new();
        let mut i: usize = 0;
        while i < traces.len()
            invariant
                i <= traces@.len(),
                self.writer.wf(),
                self.prev_traces@ == prev0,
                self.show_linenumbers == ls,
                self.start_ts == old(self).start_ts,
                empty_frames@.len() == 0,
                self.writer.log() == old(self).log() + trace_events(
                    prev0,
                    traces@.take(i as int),
                    ls,
                    now,
                ),
                self.writer.emitted() == old(self).emitted() + out@,
            decreases traces@.len() - i,
        {
            proof {
                assert(traces@.take(i + 1).drop_last() =~= traces@.take(i as int));
                assert(traces@.take(i + 1).last() == traces@[i as int]);
            }
            let tr = &traces[i];
            let events = match lookup_trace(&self.prev_traces, tr.thread_id) {
                Some(pt) => record_events_for(tr, &pt.frames, ls, now),
                None => record_events_for(tr, &empty_frames, ls, now),
            };
            proof {
                assert(events@ == diff_events(
                    traces@[i as int],
                    prev_frames_of(prev0, traces@[i as int].thread_id),
                    ls,
                    now,
                ));
            }
            let mut b = write_all(&mut self.writer, &events);
            out.append(&mut b);
            proof {
                assert(self.writer.log() =~= old(self).log() + trace_events(
                    prev0,
                    traces@.take(i + 1),
                    ls,
                    now,
                ));
            }
            i = i + 1;
        }
        proof {
            assert(traces@.take(traces@.len() as int) =~= traces@);
        }
        let mut j: usize = 0;
        while j < self.prev_traces.len()
            invariant
                j <= self.prev_traces@.len(),
                self.writer.wf(),
                self.prev_traces@ == prev0,
                self.show_linenumbers == ls,
                self.start_ts == old(self).start_ts,
                self.writer.log() == old(self).log() + trace_events(prev0, traces@, ls, now)
                    + leftover_ends(prev0.take(j as int), traces@, ls, now),
                self.writer.emitted() == old(self).emitted() + out@,
            decreases self.prev_traces@.len() - j,
        {
            proof {
                assert(prev0.take(j + 1).drop_last() =~= prev0.take(j as int));
                assert(prev0.take(j + 1).last() == prev0[j as int]);
            }
            let absent = !contains_tid(&traces, self.prev_traces[j].thread_id);
            if absent {
                let events = end_all(&self.prev_traces[j], ls, now);
                let mut b = write_all(&mut self.writer, &events);
                out.append(&mut b);
            }
            proof {
                assert(self.writer.log() =~= old(self).log() + trace_events(
                    prev0,
                    traces@,
                    ls,
                    now,
                ) + leftover_ends(prev0.take(j + 1), traces@, ls, now));
            }
            j = j + 1;
        }
        self.prev_traces = traces;
        proof {
            assert(prev0.take(prev0.len() as int) =~= prev0);
            assert(self.writer.log() =~= old(self).log() + increment_events(prev0, traces@, ls, now));
            crate::balance::lemma_increment_events_opens(
                old(self).log(),
                prev0,
                self.prev_traces@,
                ls,
                now,
            );
        }
        out
    }

    /// One sampling tick, timestamped by the session clock.
    pub fn increment(&mut self, traces: Vec<StackTrace>) -> (r: Vec<u8>)
        requires
            old(self).wf(),
            unique_tids(traces@),
        ensures
            final(self).wf(),
            final(self).lines() == old(self).lines(),
            final(self).prev() == traces@,
            final(self).emitted() == old(self).emitted() + r@,
            exists|now: u64|
                final(self).log() == old(self).log() + #[trigger] increment_events(
                    old(self).prev(),
                    traces@,
                    old(self).lines(),
                    now,
                ),
    {
        let now = elapsed_micros(&self.start_ts);
        let r = self.increment_at(traces, now);
        proof {
            assert(self.log() == old(self).log() + increment_events(
                old(self).prev(),
                self.prev(),
                old(self).lines(),
                now,
            ));
        }
        r
    }

    /// Flush at a given timestamp: close every open frame, finish the JSON
    /// array, and reset the per-thread state and the sink. The bytes handed
    /// out over the session, this fragment last, form the completed
    /// artifact.
    #[verifier::rlimit(100)]
    #[verifier::loop_isolation(false)]
    pub fn flush_at(&mut self, now: u64) -> (r: Vec<u8>)
        requires
            old(self).wf(),
        ensures
            final(self).wf(),
            final(self).lines() == old(self).lines(),
            final(self).prev() == Seq::<StackTrace>::empty(),
            final(self).log() == Seq::<Event>::empty(),
            final(self).emitted() == Seq::<u8>::empty(),
            old(self).emitted() + r@ == artifact_bytes(
                old(self).log() + flush_events(old(self).prev(), old(self).lines(), now),
            ),
    {
        let ghost prev0 = self.prev_traces@;
        let ls = self.show_linenumbers;
        let mut out: Vec<u8> = Vec::new();
        let mut j: usize = 0;
        while j < self.prev_traces.len()
            invariant
                j <= self.prev_traces@.len(),
                self.writer.wf(),
                self.prev_traces@ == prev0,
                self.show_linenumbers == ls,
                self.writer.log() == old(self).log() + leftover_ends(
                    prev0.take(j as int),
                    Seq::empty(),
                    ls,
                    now,
                ),
                self.writer.emitted() == old(self).emitted() + out@,
            decreases self.prev_traces@.len() - j,
        {
            proof {
                assert(prev0.take(j + 1).drop_last() =~= prev0.take(j as int));
                assert(prev0.take(j + 1).last() == prev0[j as int]);
                assert(!has_tid(Seq::empty(), prev0[j as int].thread_id));
            }
            let events = end_all(&self.prev_traces[j], ls, now);
            let mut b = write_all(&mut self.writer, &events);
            out.append(&mut b);
            proof {
                assert(self.writer.log() =~= old(self).log() + leftover_ends(
                    prev0.take(j + 1),
                    Seq::empty(),
                    ls,
                    now,
                ));
            }
            j = j + 1;
        }
        proof {
            assert(prev0.take(prev0.len() as int) =~= prev0);
        }
        let mut w = Writer::new();
        core::mem::swap(&mut w, &mut self.writer);
        let mut tail = w.close();
        out.append(&mut tail);
        self.prev_traces = Vec::new();
        self.start_ts = instant_now();
        proof {
            assert(old(self).emitted() + out@ =~= artifact_bytes(
                old(self).log() + flush_events(prev0, ls, now),
            ));
            assert(crate::balance::opens(self.writer.log()) =~= crate::balance::open_keys(
                self.prev_traces@,
                ls,
            ));
        }
        out
    }

    /// Flush, timestamped by the session clock, which then restarts.
    pub fn flush(&mut self) -> (r: Vec<u8>)
        requires
            old(self).wf(),
        ensures
            final(self).wf(),
            final(self).lines() == old(self).lines(),
            final(self).prev() == Seq::<StackTrace>::empty(),
            final(self).log() == Seq::<Event>::empty(),
            final(self).emitted() == Seq::<u8>::empty(),
            exists|now: u64|
                old(self).emitted() + r@ == artifact_bytes(
                    old(self).log() + #[trigger] flush_events(
                        old(self).prev(),
                        old(self).lines(),
                        now,
                    ),
                ),
    {
        let now = elapsed_micros(&self.start_ts);
        let r = self.flush_at(now);
        proof {
            assert(old(self).emitted() + r@ == artifact_bytes(
                old(self).log() + flush_events(old(self).prev(), old(self).lines(), now),
            ));
        }
        r
    }
}


/// The common root length never exceeds either stack.
pub proof fn lemma_common_root_le(p: Seq<Frame>, c: Seq<Frame>, ls: bool)
    ensures
        common_root_len(p, c, ls) <= p.len(),
        common_root_len(p, c, ls) <= c.len(),
    decreases p.len(),
{
    if p.len() > 0 && c.len() > 0 && frames_match(p.last(), c.last(), ls) {
        lemma_common_root_le(p.drop_last(), c.drop_last(), ls);
    }
}

/// A stack shares its whole root run with itself.
proof fn lemma_common_root_self(s: Seq<Frame>, ls: bool)
    ensures
        common_root_len(s, s, ls) == s.len(),
    decreases s.len(),
{
    if s.len() > 0 {
        lemma_common_root_self(s.drop_last(), ls);
    }
}

/// Law: diffing a stack against itself yields no events at all.
pub proof fn lemma_diff_idempotent(t: StackTrace, ls: bool, now: u64)
    ensures
        diff_events(t, t.frames@, ls, now) == Seq::<Event>::empty(),
{
    lemma_common_root_self(t.frames@, ls);
    assert(diff_events(t, t.frames@, ls, now) =~= Seq::<Event>::empty());
}

/// A stack shares its whole root run with itself plus one new leaf.
proof fn lemma_common_root_extend(p: Seq<Frame>, f: Frame, ls: bool)
    ensures
        common_root_len(p, seq![f] + p, ls) == p.len(),
    decreases p.len(),
{
    if p.len() > 0 {
        let c = seq![f] + p;
        assert(c.last() == p.last());
        assert(c.drop_last() =~= seq![f] + p.drop_last());
        lemma_common_root_extend(p.drop_last(), f, ls);
    }
}

/// Law: when the new sample is the previous stack with one frame pushed on
/// the leaf end, the diff drops nothing and adds exactly that frame.
pub proof fn lemma_diff_one_new_leaf(t: StackTrace, prev: Seq<Frame>, f: Frame, ls: bool, now: u64)
    requires
        t.frames@ == seq![f] + prev,
    ensures
        diff_events(t, prev, ls, now) == seq![mk_event(t, f, Phase::Begin, ls, now)],
{
    lemma_common_root_extend(prev, f, ls);
    assert(t.frames@.len() == prev.len() + 1);
    assert(t.frames@.take(1)[0] == f);
    assert(diff_events(t, prev, ls, now) =~= seq![mk_event(t, f, Phase::Begin, ls, now)]);
}

/// Law: when the new sample is a root-end prefix of the previous stack, the
/// diff is exactly one end event per dropped frame, innermost first, and no
/// begin events.
pub proof fn lemma_diff_shrink(t: StackTrace, prev: Seq<Frame>, ls: bool, now: u64)
    requires
        common_root_len(prev, t.frames@, ls) == t.frames@.len(),
    ensures
        diff_events(t, prev, ls, now).len() == prev.len() - t.frames@.len(),
        forall|i: int|
            0 <= i < prev.len() - t.frames@.len() ==> diff_events(t, prev, ls, now)[i] == mk_event(
                t,
                prev[i],
                Phase::End,
                ls,
                now,
            ),
{
    lemma_common_root_le(prev, t.frames@, ls);
    let d = common_root_len(prev, t.frames@, ls);
    assert(t.frames@.take(t.frames@.len() - d).len() == 0);
    assert(diff_events(t, prev, ls, now) =~= end_run(t, prev.take(prev.len() - d), ls, now));
}


} // verus!
