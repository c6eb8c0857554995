//! Interval accounting over event logs: which frames a log leaves open, and
//! the law that a session closed by a flush leaves every begin event matched
//! by a later end event of the same frame.

use vstd::prelude::*;
use vstd::multiset::Multiset;

use crate::chrometrace::begin_run;
use crate::chrometrace::common_root_len;
use crate::chrometrace::diff_events;
use crate::chrometrace::end_run;
use crate::chrometrace::flush_events;
use crate::chrometrace::first_tid_index;
use crate::chrometrace::has_tid;
use crate::chrometrace::increment_events;
use crate::chrometrace::leftover_ends;
use crate::chrometrace::prev_frames_of;
use crate::chrometrace::trace_events;
use crate::chrometrace::frames_match;
use crate::chrometrace::lemma_common_root_le;
use crate::chrometrace::mk_event;
use crate::events::Event;
use crate::events::Phase;
use crate::stack_trace::Frame;
use crate::stack_trace::StackTrace;

verus! {

/// What identifies an interval: the thread, the frame's name and file, and
/// its line when line numbers are reported.
pub open spec fn event_key(e: Event) -> (u64, Seq<char>, Seq<char>, Option<u32>) {
    (e.tid, e.name@, e.filename@, e.line)
}

/// The key a frame of a thread opens or closes.
pub open spec fn frame_key(tid: u64, f: Frame, ls: bool) -> (u64, Seq<char>, Seq<char>, Option<
    u32,
>) {
    (
        tid,
        f.name@,
        f.filename@,
        if ls {
            Option::Some(f.line)
        } else {
            Option::None
        },
    )
}

/// The intervals a log leaves open: each begin inserts its key, each end
/// removes one occurrence.
pub open spec fn opens(log: Seq<Event>) -> Multiset<(u64, Seq<char>, Seq<char>, Option<u32>)>
    decreases log.len(),
{
    if log.len() == 0 {
        Multiset::empty()
    } else {
        let m = opens(log.drop_last());
        match log.last().ph {
            Phase::Begin => m.insert(event_key(log.last())),
            Phase::End => m.remove(event_key(log.last())),
        }
    }
}

/// A log is well nested: every end event closes an interval that is open
/// when it is written.
pub open spec fn wf_log(log: Seq<Event>) -> bool
    decreases log.len(),
{
    log.len() == 0 || (wf_log(log.drop_last()) && (log.last().ph is End ==> opens(
        log.drop_last(),
    ).count(event_key(log.last())) >= 1))
}

/// The keys of a run of frames of one thread.
pub open spec fn frames_keys(tid: u64, fs: Seq<Frame>, ls: bool) -> Multiset<
    (u64, Seq<char>, Seq<char>, Option<u32>),
>
    decreases fs.len(),
{
    if fs.len() == 0 {
        Multiset::empty()
    } else {
        frames_keys(tid, fs.drop_last(), ls).insert(frame_key(tid, fs.last(), ls))
    }
}

/// The keys of every open frame of a batch of stored traces.
pub open spec fn open_keys(prev: Seq<StackTrace>, ls: bool) -> Multiset<
    (u64, Seq<char>, Seq<char>, Option<u32>),
>
    decreases prev.len(),
{
    if prev.len() == 0 {
        Multiset::empty()
    } else {
        open_keys(prev.drop_last(), ls).add(
            frames_keys(prev.last().thread_id, prev.last().frames@, ls),
        )
    }
}

/// How many events of a phase carry a key.
pub open spec fn count_phase(
    log: Seq<Event>,
    ph: Phase,
    k: (u64, Seq<char>, Seq<char>, Option<u32>),
) -> nat
    decreases log.len(),
{
    if log.len() == 0 {
        0
    } else {
        count_phase(log.drop_last(), ph, k) + if log.last().ph == ph && event_key(log.last()) == k {
            1nat
        } else {
            0nat
        }
    }
}

/// Appending a run of end events removes exactly those frames' keys from
/// the open intervals.
proof fn lemma_opens_end_run(log: Seq<Event>, t: StackTrace, fs: Seq<Frame>, ls: bool, now: u64)
    requires
        wf_log(log),
        frames_keys(t.thread_id, fs, ls).subset_of(opens(log)),
    ensures
        wf_log(log + end_run(t, fs, ls, now)),
        opens(log + end_run(t, fs, ls, now)) == opens(log).sub(frames_keys(t.thread_id, fs, ls)),
    decreases fs.len(),
{
    broadcast use vstd::multiset::group_multiset_axioms;

    if fs.len() == 0 {
        assert(log + end_run(t, fs, ls, now) =~= log);
        assert(opens(log).sub(frames_keys(t.thread_id, fs, ls)) =~= opens(log));
    } else {
        let fs0 = fs.drop_last();
        let run = end_run(t, fs, ls, now);
        let run0 = end_run(t, fs0, ls, now);
        let kl = frame_key(t.thread_id, fs.last(), ls);
        assert(frames_keys(t.thread_id, fs, ls).count(kl) == frames_keys(t.thread_id, fs0, ls).count(
            kl,
        ) + 1);
        assert(frames_keys(t.thread_id, fs0, ls).subset_of(opens(log)));
        lemma_opens_end_run(log, t, fs0, ls, now);
        assert((log + run).drop_last() =~= log + run0);
        assert((log + run).last() == run[fs.len() - 1]);
        assert(run[fs.len() - 1] == mk_event(t, fs.last(), Phase::End, ls, now));
        assert(event_key(mk_event(t, fs.last(), Phase::End, ls, now)) == kl);
        assert(opens(log + run0).count(kl) >= 1) by {
            assert(opens(log).count(kl) >= frames_keys(t.thread_id, fs, ls).count(kl));
        }
        assert(opens(log + run) =~= opens(log).sub(frames_keys(t.thread_id, fs, ls)));
    }
}

/// A run's keys seen from the leaf end: the first frame's key on top of the
/// rest.
proof fn lemma_frames_keys_drop_first(tid: u64, fs: Seq<Frame>, ls: bool)
    requires
        fs.len() >= 1,
    ensures
        frames_keys(tid, fs, ls) == frames_keys(tid, fs.drop_first(), ls).insert(
            frame_key(tid, fs[0], ls),
        ),
    decreases fs.len(),
{
    broadcast use vstd::multiset::group_multiset_axioms;

    if fs.len() == 1 {
        assert(fs.drop_last() =~= Seq::<Frame>::empty());
        assert(fs.drop_first() =~= Seq::<Frame>::empty());
        assert(fs.last() == fs[0]);
    } else {
        lemma_frames_keys_drop_first(tid, fs.drop_last(), ls);
        assert(fs.drop_last()[0] == fs[0]);
        assert(fs.drop_last().drop_first() =~= fs.drop_first().drop_last());
        assert(fs.drop_first().last() == fs.last());
        assert(frames_keys(tid, fs, ls) =~= frames_keys(tid, fs.drop_first(), ls).insert(
            frame_key(tid, fs[0], ls),
        ));
    }
}

/// Appending a run of begin events adds exactly those frames' keys to the
/// open intervals.
proof fn lemma_opens_begin_run(log: Seq<Event>, t: StackTrace, fs: Seq<Frame>, ls: bool, now: u64)
    requires
        wf_log(log),
    ensures
        wf_log(log + begin_run(t, fs, ls, now)),
        opens(log + begin_run(t, fs, ls, now)) == opens(log).add(frames_keys(t.thread_id, fs, ls)),
    decreases fs.len(),
{
    broadcast use vstd::multiset::group_multiset_axioms;

    if fs.len() == 0 {
        assert(log + begin_run(t, fs, ls, now) =~= log);
        assert(opens(log).add(frames_keys(t.thread_id, fs, ls)) =~= opens(log));
    } else {
        let fs1 = fs.drop_first();
        let run = begin_run(t, fs, ls, now);
        let run1 = begin_run(t, fs1, ls, now);
        assert((log + run).drop_last() =~= log + run1);
        lemma_opens_begin_run(log, t, fs1, ls, now);
        assert((log + run).last() == run[fs.len() - 1]);
        assert(run[fs.len() - 1] == mk_event(t, fs[0], Phase::Begin, ls, now));
        lemma_frames_keys_drop_first(t.thread_id, fs, ls);
        assert(opens(log + run) =~= opens(log).add(frames_keys(t.thread_id, fs, ls)));
    }
}

/// Splitting a run of frames splits its keys.
proof fn lemma_frames_keys_concat(tid: u64, a: Seq<Frame>, b: Seq<Frame>, ls: bool)
    ensures
        frames_keys(tid, a + b, ls) == frames_keys(tid, a, ls).add(frames_keys(tid, b, ls)),
    decreases b.len(),
{
    broadcast use vstd::multiset::group_multiset_axioms;

    if b.len() == 0 {
        assert(a + b =~= a);
        assert(frames_keys(tid, a, ls).add(frames_keys(tid, b, ls)) =~= frames_keys(tid, a, ls));
    } else {
        assert((a + b).drop_last() =~= a + b.drop_last());
        lemma_frames_keys_concat(tid, a, b.drop_last(), ls);
        assert((a + b).last() == b.last());
        assert(frames_keys(tid, a + b, ls) =~= frames_keys(tid, a, ls).add(
            frames_keys(tid, b, ls),
        ));
    }
}

/// The shared root runs of two consecutive stacks carry the same keys.
proof fn lemma_common_suffix_keys(tid: u64, p: Seq<Frame>, c: Seq<Frame>, ls: bool)
    ensures
        frames_keys(tid, p.skip(p.len() - common_root_len(p, c, ls)), ls) == frames_keys(
            tid,
            c.skip(c.len() - common_root_len(p, c, ls)),
            ls,
        ),
    decreases p.len(),
{
    broadcast use vstd::multiset::group_multiset_axioms;

    lemma_common_root_le(p, c, ls);
    let d = common_root_len(p, c, ls);
    if p.len() == 0 || c.len() == 0 || !frames_match(p.last(), c.last(), ls) {
        assert(p.skip(p.len() - d) =~= Seq::<Frame>::empty());
        assert(c.skip(c.len() - d) =~= Seq::<Frame>::empty());
    } else {
        let p0 = p.drop_last();
        let c0 = c.drop_last();
        lemma_common_suffix_keys(tid, p0, c0, ls);
        lemma_common_root_le(p0, c0, ls);
        let d0 = common_root_len(p0, c0, ls);
        assert(d == d0 + 1);
        assert(p.skip(p.len() - d).drop_last() =~= p0.skip(p0.len() - d0));
        assert(c.skip(c.len() - d).drop_last() =~= c0.skip(c0.len() - d0));
        assert(p.skip(p.len() - d).last() == p.last());
        assert(c.skip(c.len() - d).last() == c.last());
        assert(frame_key(tid, p.last(), ls) == frame_key(tid, c.last(), ls));
        assert(frames_keys(tid, p.skip(p.len() - d), ls) =~= frames_keys(
            tid,
            c.skip(c.len() - d),
            ls,
        ));
    }
}

/// Law: one thread's tick turns the open intervals of its previous stack
/// into those of its new stack, and keeps the log well nested.
pub proof fn lemma_diff_events_opens(
    log: Seq<Event>,
    t: StackTrace,
    prev: Seq<Frame>,
    ls: bool,
    now: u64,
)
    requires
        wf_log(log),
        frames_keys(t.thread_id, prev, ls).subset_of(opens(log)),
    ensures
        wf_log(log + diff_events(t, prev, ls, now)),
        opens(log + diff_events(t, prev, ls, now)) == opens(log).sub(
            frames_keys(t.thread_id, prev, ls),
        ).add(frames_keys(t.thread_id, t.frames@, ls)),
{
    broadcast use vstd::multiset::group_multiset_axioms;

    let tid = t.thread_id;
    let cur = t.frames@;
    lemma_common_root_le(prev, cur, ls);
    let d = common_root_len(prev, cur, ls);
    let dropped = prev.take(prev.len() - d);
    let kept = prev.skip(prev.len() - d);
    let added = cur.take(cur.len() - d);
    let kept_c = cur.skip(cur.len() - d);
    assert(prev =~= dropped + kept);
    assert(cur =~= added + kept_c);
    lemma_frames_keys_concat(tid, dropped, kept, ls);
    lemma_frames_keys_concat(tid, added, kept_c, ls);
    lemma_common_suffix_keys(tid, prev, cur, ls);
    assert(frames_keys(tid, dropped, ls).subset_of(opens(log)));
    lemma_opens_end_run(log, t, dropped, ls, now);
    let log1 = log + end_run(t, dropped, ls, now);
    lemma_opens_begin_run(log1, t, added, ls, now);
    assert(log + diff_events(t, prev, ls, now) =~= log1 + begin_run(t, added, ls, now));
    assert forall|k: (u64, Seq<char>, Seq<char>, Option<u32>)|
        opens(log1 + begin_run(t, added, ls, now)).count(k) == opens(log).sub(
            frames_keys(tid, prev, ls),
        ).add(frames_keys(tid, cur, ls)).count(k) by {
        assert(opens(log).count(k) >= frames_keys(tid, prev, ls).count(k));
        assert(frames_keys(tid, prev, ls).count(k) == frames_keys(tid, dropped, ls).count(k)
            + frames_keys(tid, kept, ls).count(k));
        assert(frames_keys(tid, cur, ls).count(k) == frames_keys(tid, added, ls).count(k)
            + frames_keys(tid, kept_c, ls).count(k));
        assert(frames_keys(tid, kept, ls).count(k) == frames_keys(tid, kept_c, ls).count(k));
    }
    assert(opens(log + diff_events(t, prev, ls, now)) =~= opens(log).sub(
        frames_keys(tid, prev, ls),
    ).add(frames_keys(tid, cur, ls)));
}

/// Law: a flush closes every open interval of the stored traces and keeps
/// the log well nested.
pub proof fn lemma_flush_events_opens(
    log: Seq<Event>,
    prev: Seq<StackTrace>,
    ls: bool,
    now: u64,
)
    requires
        wf_log(log),
        open_keys(prev, ls).subset_of(opens(log)),
    ensures
        wf_log(log + flush_events(prev, ls, now)),
        opens(log + flush_events(prev, ls, now)) == opens(log).sub(open_keys(prev, ls)),
    decreases prev.len(),
{
    broadcast use vstd::multiset::group_multiset_axioms;

    if prev.len() == 0 {
        assert(log + flush_events(prev, ls, now) =~= log);
        assert(opens(log).sub(open_keys(prev, ls)) =~= opens(log));
    } else {
        let p0 = prev.drop_last();
        let t = prev.last();
        assert(open_keys(p0, ls).subset_of(opens(log)));
        lemma_flush_events_opens(log, p0, ls, now);
        let log1 = log + flush_events(p0, ls, now);
        assert(frames_keys(t.thread_id, t.frames@, ls).subset_of(opens(log1))) by {
            assert forall|k: (u64, Seq<char>, Seq<char>, Option<u32>)|
                frames_keys(t.thread_id, t.frames@, ls).count(k) <= opens(log1).count(k) by {
                assert(opens(log).count(k) >= open_keys(prev, ls).count(k));
                assert(open_keys(prev, ls).count(k) == open_keys(p0, ls).count(k) + frames_keys(
                    t.thread_id,
                    t.frames@,
                    ls,
                ).count(k));
            }
        }
        lemma_opens_end_run(log1, t, t.frames@, ls, now);
        assert(log + flush_events(prev, ls, now) =~= log1 + end_run(t, t.frames@, ls, now));
        assert(opens(log + flush_events(prev, ls, now)) =~= opens(log).sub(open_keys(prev, ls)));
    }
}

/// Law: in a well nested log, the begin events of a key outnumber its end
/// events by exactly the intervals still open; so a log that leaves nothing
/// open holds one end for every begin of every frame.
pub proof fn lemma_balanced(log: Seq<Event>, k: (u64, Seq<char>, Seq<char>, Option<u32>))
    requires
        wf_log(log),
    ensures
        count_phase(log, Phase::Begin, k) == count_phase(log, Phase::End, k) + opens(log).count(k),
    decreases log.len(),
{
    broadcast use vstd::multiset::group_multiset_axioms;

    if log.len() > 0 {
        lemma_balanced(log.drop_last(), k);
    }
}

/// Every key of a run of frames carries the run's thread id.
proof fn lemma_frames_keys_tid(tid: u64, fs: Seq<Frame>, ls: bool, k: (u64, Seq<char>, Seq<char>, Option<u32>))
    requires
        k.0 != tid,
    ensures
        frames_keys(tid, fs, ls).count(k) == 0,
    decreases fs.len(),
{
    broadcast use vstd::multiset::group_multiset_axioms;

    if fs.len() > 0 {
        lemma_frames_keys_tid(tid, fs.drop_last(), ls, k);
    }
}

/// Where the first trace of a thread id sits after a push.
proof fn lemma_first_tid_push(p0: Seq<StackTrace>, t: StackTrace, tid: u64)
    ensures
        first_tid_index(p0.push(t), tid) == match first_tid_index(p0, tid) {
            Option::Some(i) => Option::Some(i),
            Option::None => if t.thread_id == tid {
                Option::Some(p0.len() as int)
            } else {
                Option::<int>::None
            },
        },
    decreases p0.len(),
{
    if p0.len() == 0 {
        assert(p0.push(t)[0] == t);
        assert(p0.push(t).drop_first() =~= Seq::<StackTrace>::empty());
        assert(first_tid_index(Seq::<StackTrace>::empty(), tid) is None);
    } else {
        assert(p0.push(t)[0] == p0[0]);
        if p0[0].thread_id != tid {
            assert(p0.push(t).drop_first() =~= p0.drop_first().push(t));
            lemma_first_tid_push(p0.drop_first(), t, tid);
            assert(p0.drop_first().len() == p0.len() - 1);
            assert(first_tid_index(p0.push(t), tid) == (match first_tid_index(
                p0.drop_first().push(t),
                tid,
            ) {
                Option::None => Option::<int>::None,
                Option::Some(j) => Option::Some(j + 1),
            }));
            assert(first_tid_index(p0, tid) == (match first_tid_index(p0.drop_first(), tid) {
                Option::None => Option::<int>::None,
                Option::Some(j) => Option::Some(j + 1),
            }));
        }
    }
}

/// A thread id has a first trace exactly when the batch shows it.
proof fn lemma_first_tid_has(p: Seq<StackTrace>, tid: u64)
    ensures
        first_tid_index(p, tid) is Some <==> has_tid(p, tid),
        match first_tid_index(p, tid) {
            Option::Some(i) => 0 <= i < p.len() && p[i].thread_id == tid,
            Option::None => true,
        },
    decreases p.len(),
{
    if p.len() > 0 {
        lemma_first_tid_has(p.drop_first(), tid);
        if p[0].thread_id == tid {
        } else {
            assert forall|i: int| 0 <= i < p.len() && (#[trigger] p[i]).thread_id == tid implies
                has_tid(p.drop_first(), tid) by {
                assert(p.drop_first()[i - 1] == p[i]);
            }
        }
    }
}

/// With unique thread ids, the open intervals of a batch are, key by key,
/// the keys of the one stored stack of that key's thread.
proof fn lemma_open_keys_count(prev: Seq<StackTrace>, ls: bool, k: (u64, Seq<char>, Seq<char>, Option<u32>))
    requires
        crate::stack_trace::unique_tids(prev),
    ensures
        open_keys(prev, ls).count(k) == frames_keys(k.0, prev_frames_of(prev, k.0), ls).count(k),
    decreases prev.len(),
{
    broadcast use vstd::multiset::group_multiset_axioms;

    if prev.len() == 0 {
        assert(frames_keys(k.0, prev_frames_of(prev, k.0), ls).count(k) == 0);
    } else {
        let p0 = prev.drop_last();
        let t = prev.last();
        assert(prev =~= p0.push(t));
        lemma_open_keys_count(p0, ls, k);
        lemma_first_tid_push(p0, t, k.0);
        lemma_first_tid_has(p0, k.0);
        if t.thread_id == k.0 {
            assert(!has_tid(p0, k.0)) by {
                if has_tid(p0, k.0) {
                    let i = choose|i: int|
                        0 <= i < p0.len() && (#[trigger] p0[i]).thread_id == k.0;
                    assert(prev[i].thread_id == prev[prev.len() - 1].thread_id);
                }
            }
            assert(frames_keys(k.0, prev_frames_of(p0, k.0), ls).count(k) == 0);
            assert(prev_frames_of(prev, k.0) == t.frames@);
        } else {
            lemma_frames_keys_tid(t.thread_id, t.frames@, ls, k);
            assert(prev_frames_of(prev, k.0) == prev_frames_of(p0, k.0)) by {
                match first_tid_index(p0, k.0) {
                    Option::Some(i) => {
                        assert(prev[i] == p0[i]);
                    },
                    Option::None => {},
                }
            }
        }
    }
}

/// The keys one tick's batch consumes from the stored traces: each new
/// sample's previous stack.
pub open spec fn consumed_keys(prev: Seq<StackTrace>, traces: Seq<StackTrace>, ls: bool) -> Multiset<
    (u64, Seq<char>, Seq<char>, Option<u32>),
>
    decreases traces.len(),
{
    if traces.len() == 0 {
        Multiset::empty()
    } else {
        consumed_keys(prev, traces.drop_last(), ls).add(
            frames_keys(
                traces.last().thread_id,
                prev_frames_of(prev, traces.last().thread_id),
                ls,
            ),
        )
    }
}

/// With unique thread ids, what a batch consumes is, key by key, the stored
/// stack of the key's thread when the batch shows that thread, else nothing.
proof fn lemma_consumed_keys_count(
    prev: Seq<StackTrace>,
    traces: Seq<StackTrace>,
    ls: bool,
    k: (u64, Seq<char>, Seq<char>, Option<u32>),
)
    requires
        crate::stack_trace::unique_tids(traces),
    ensures
        consumed_keys(prev, traces, ls).count(k) == if has_tid(traces, k.0) {
            frames_keys(k.0, prev_frames_of(prev, k.0), ls).count(k)
        } else {
            0
        },
    decreases traces.len(),
{
    broadcast use vstd::multiset::group_multiset_axioms;

    if traces.len() == 0 {
        assert(!has_tid(traces, k.0));
    } else {
        let t0 = traces.drop_last();
        let t = traces.last();
        assert(crate::stack_trace::unique_tids(t0)) by {
            assert(forall|i: int| 0 <= i < t0.len() ==> t0[i] == traces[i]);
        }
        lemma_consumed_keys_count(prev, t0, ls, k);
        if t.thread_id == k.0 {
            assert(has_tid(traces, k.0)) by {
                assert(traces[traces.len() - 1].thread_id == k.0);
            }
            assert(!has_tid(t0, k.0)) by {
                if has_tid(t0, k.0) {
                    let i = choose|i: int|
                        0 <= i < t0.len() && (#[trigger] t0[i]).thread_id == k.0;
                    assert(traces[i].thread_id == traces[traces.len() - 1].thread_id);
                }
            }
        } else {
            lemma_frames_keys_tid(t.thread_id, prev_frames_of(prev, t.thread_id), ls, k);
            assert(has_tid(traces, k.0) == has_tid(t0, k.0)) by {
                if has_tid(traces, k.0) {
                    let i = choose|i: int|
                        0 <= i < traces.len() && (#[trigger] traces[i]).thread_id == k.0;
                    assert(t0[i] == traces[i]);
                }
                if has_tid(t0, k.0) {
                    let i = choose|i: int|
                        0 <= i < t0.len() && (#[trigger] t0[i]).thread_id == k.0;
                    assert(traces[i].thread_id == k.0);
                }
            }
        }
    }
}

/// The keys the leftover pass closes: every stored stack whose thread the
/// new batch no longer shows.
pub open spec fn leftover_keys(prev: Seq<StackTrace>, traces: Seq<StackTrace>, ls: bool) -> Multiset<
    (u64, Seq<char>, Seq<char>, Option<u32>),
>
    decreases prev.len(),
{
    if prev.len() == 0 {
        Multiset::empty()
    } else {
        leftover_keys(prev.drop_last(), traces, ls).add(
            if has_tid(traces, prev.last().thread_id) {
                Multiset::empty()
            } else {
                frames_keys(prev.last().thread_id, prev.last().frames@, ls)
            },
        )
    }
}

/// With unique thread ids, the leftover pass closes, key by key, the stored
/// stack of the key's thread unless the batch still shows that thread.
proof fn lemma_leftover_keys_count(
    prev: Seq<StackTrace>,
    traces: Seq<StackTrace>,
    ls: bool,
    k: (u64, Seq<char>, Seq<char>, Option<u32>),
)
    requires
        crate::stack_trace::unique_tids(prev),
    ensures
        leftover_keys(prev, traces, ls).count(k) == if has_tid(traces, k.0) {
            0
        } else {
            frames_keys(k.0, prev_frames_of(prev, k.0), ls).count(k)
        },
    decreases prev.len(),
{
    broadcast use vstd::multiset::group_multiset_axioms;

    if prev.len() == 0 {
    } else {
        let p0 = prev.drop_last();
        let t = prev.last();
        assert(crate::stack_trace::unique_tids(p0)) by {
            assert(forall|i: int| 0 <= i < p0.len() ==> p0[i] == prev[i]);
        }
        lemma_leftover_keys_count(p0, traces, ls, k);
        assert(prev =~= p0.push(t));
        lemma_first_tid_push(p0, t, k.0);
        lemma_first_tid_has(p0, k.0);
        if t.thread_id == k.0 {
            assert(!has_tid(p0, k.0)) by {
                if has_tid(p0, k.0) {
                    let i = choose|i: int|
                        0 <= i < p0.len() && (#[trigger] p0[i]).thread_id == k.0;
                    assert(prev[i].thread_id == prev[prev.len() - 1].thread_id);
                }
            }
            assert(frames_keys(k.0, prev_frames_of(p0, k.0), ls).count(k) == 0);
            assert(prev_frames_of(prev, k.0) == t.frames@);
        } else {
            if !has_tid(traces, t.thread_id) {
                lemma_frames_keys_tid(t.thread_id, t.frames@, ls, k);
            }
            assert(prev_frames_of(prev, k.0) == prev_frames_of(p0, k.0)) by {
                match first_tid_index(p0, k.0) {
                    Option::Some(i) => {
                        assert(prev[i] == p0[i]);
                    },
                    Option::None => {},
                }
            }
        }
    }
}

/// Processing a batch of new samples turns the consumed stored stacks into
/// the batch's own stacks and keeps the log well nested.
proof fn lemma_trace_events_opens(
    log: Seq<Event>,
    prev: Seq<StackTrace>,
    traces: Seq<StackTrace>,
    ls: bool,
    now: u64,
)
    requires
        wf_log(log),
        crate::stack_trace::unique_tids(traces),
        consumed_keys(prev, traces, ls).subset_of(opens(log)),
    ensures
        wf_log(log + trace_events(prev, traces, ls, now)),
        opens(log + trace_events(prev, traces, ls, now)) == opens(log).sub(
            consumed_keys(prev, traces, ls),
        ).add(open_keys(traces, ls)),
    decreases traces.len(),
{
    broadcast use vstd::multiset::group_multiset_axioms;

    if traces.len() == 0 {
        assert(log + trace_events(prev, traces, ls, now) =~= log);
        assert(opens(log).sub(consumed_keys(prev, traces, ls)).add(open_keys(traces, ls)) =~= opens(
            log,
        ));
    } else {
        let t0 = traces.drop_last();
        let t = traces.last();
        let pf = prev_frames_of(prev, t.thread_id);
        assert(crate::stack_trace::unique_tids(t0)) by {
            assert(forall|i: int| 0 <= i < t0.len() ==> t0[i] == traces[i]);
        }
        assert(consumed_keys(prev, t0, ls).subset_of(opens(log))) by {
            assert forall|k: (u64, Seq<char>, Seq<char>, Option<u32>)|
                consumed_keys(prev, t0, ls).count(k) <= opens(log).count(k) by {
                assert(opens(log).count(k) >= consumed_keys(prev, traces, ls).count(k));
                assert(consumed_keys(prev, traces, ls).count(k) >= consumed_keys(
                    prev,
                    t0,
                    ls,
                ).count(k));
            }
        }
        lemma_trace_events_opens(log, prev, t0, ls, now);
        let log1 = log + trace_events(prev, t0, ls, now);
        assert(!has_tid(t0, t.thread_id)) by {
            if has_tid(t0, t.thread_id) {
                let i = choose|i: int|
                    0 <= i < t0.len() && (#[trigger] t0[i]).thread_id == t.thread_id;
                assert(traces[i].thread_id == traces[traces.len() - 1].thread_id);
            }
        }
        assert(frames_keys(t.thread_id, pf, ls).subset_of(opens(log1))) by {
            assert forall|k: (u64, Seq<char>, Seq<char>, Option<u32>)|
                frames_keys(t.thread_id, pf, ls).count(k) <= opens(log1).count(k) by {
                if k.0 != t.thread_id {
                    lemma_frames_keys_tid(t.thread_id, pf, ls, k);
                } else {
                    lemma_consumed_keys_count(prev, t0, ls, k);
                    lemma_open_keys_count(t0, ls, k);
                    assert(prev_frames_of(t0, k.0) == Seq::<Frame>::empty()) by {
                        lemma_first_tid_has(t0, k.0);
                    }
                    assert(consumed_keys(prev, t0, ls).count(k) == 0);
                    assert(open_keys(t0, ls).count(k) == 0);
                    assert(opens(log).count(k) >= consumed_keys(prev, traces, ls).count(k));
                    assert(consumed_keys(prev, traces, ls).count(k) >= frames_keys(
                        t.thread_id,
                        pf,
                        ls,
                    ).count(k));
                }
            }
        }
        lemma_diff_events_opens(log1, t, pf, ls, now);
        assert(log + trace_events(prev, traces, ls, now) =~= log1 + diff_events(t, pf, ls, now));
        assert forall|k: (u64, Seq<char>, Seq<char>, Option<u32>)|
            opens(log1 + diff_events(t, pf, ls, now)).count(k) == opens(log).sub(
                consumed_keys(prev, traces, ls),
            ).add(open_keys(traces, ls)).count(k) by {
            assert(opens(log).count(k) >= consumed_keys(prev, traces, ls).count(k));
            assert(open_keys(traces, ls).count(k) == open_keys(t0, ls).count(k) + frames_keys(
                t.thread_id,
                t.frames@,
                ls,
            ).count(k));
            if k.0 != t.thread_id {
                lemma_frames_keys_tid(t.thread_id, pf, ls, k);
                lemma_frames_keys_tid(t.thread_id, t.frames@, ls, k);
            } else {
                lemma_consumed_keys_count(prev, t0, ls, k);
                lemma_open_keys_count(t0, ls, k);
                assert(prev_frames_of(t0, k.0) == Seq::<Frame>::empty()) by {
                    lemma_first_tid_has(t0, k.0);
                }
            }
        }
        assert(opens(log + trace_events(prev, traces, ls, now)) =~= opens(log).sub(
            consumed_keys(prev, traces, ls),
        ).add(open_keys(traces, ls)));
    }
}

/// The leftover pass closes exactly the stacks of vanished threads and
/// keeps the log well nested.
proof fn lemma_leftover_ends_opens(
    log: Seq<Event>,
    prev: Seq<StackTrace>,
    traces: Seq<StackTrace>,
    ls: bool,
    now: u64,
)
    requires
        wf_log(log),
        leftover_keys(prev, traces, ls).subset_of(opens(log)),
    ensures
        wf_log(log + leftover_ends(prev, traces, ls, now)),
        opens(log + leftover_ends(prev, traces, ls, now)) == opens(log).sub(
            leftover_keys(prev, traces, ls),
        ),
    decreases prev.len(),
{
    broadcast use vstd::multiset::group_multiset_axioms;

    if prev.len() == 0 {
        assert(log + leftover_ends(prev, traces, ls, now) =~= log);
        assert(opens(log).sub(leftover_keys(prev, traces, ls)) =~= opens(log));
    } else {
        let p0 = prev.drop_last();
        let t = prev.last();
        assert(leftover_keys(p0, traces, ls).subset_of(opens(log))) by {
            assert forall|k: (u64, Seq<char>, Seq<char>, Option<u32>)|
                leftover_keys(p0, traces, ls).count(k) <= opens(log).count(k) by {
                assert(opens(log).count(k) >= leftover_keys(prev, traces, ls).count(k));
                assert(leftover_keys(prev, traces, ls).count(k) >= leftover_keys(
                    p0,
                    traces,
                    ls,
                ).count(k));
            }
        }
        lemma_leftover_ends_opens(log, p0, traces, ls, now);
        let log1 = log + leftover_ends(p0, traces, ls, now);
        if has_tid(traces, t.thread_id) {
            assert(log + leftover_ends(prev, traces, ls, now) =~= log1);
            assert(opens(log).sub(leftover_keys(prev, traces, ls)) =~= opens(log).sub(
                leftover_keys(p0, traces, ls),
            ));
        } else {
            assert(frames_keys(t.thread_id, t.frames@, ls).subset_of(opens(log1))) by {
                assert forall|k: (u64, Seq<char>, Seq<char>, Option<u32>)|
                    frames_keys(t.thread_id, t.frames@, ls).count(k) <= opens(log1).count(k) by {
                    assert(opens(log).count(k) >= leftover_keys(prev, traces, ls).count(k));
                    assert(leftover_keys(prev, traces, ls).count(k) == leftover_keys(
                        p0,
                        traces,
                        ls,
                    ).count(k) + frames_keys(t.thread_id, t.frames@, ls).count(k));
                }
            }
            lemma_opens_end_run(log1, t, t.frames@, ls, now);
            assert(log + leftover_ends(prev, traces, ls, now) =~= log1 + end_run(
                t,
                t.frames@,
                ls,
                now,
            ));
            assert(opens(log + leftover_ends(prev, traces, ls, now)) =~= opens(log).sub(
                leftover_keys(prev, traces, ls),
            ));
        }
    }
}

/// Law: one sampling tick turns the open intervals of the stored traces
/// into exactly those of the new batch, and the log stays well nested; so
/// across any session the sink's log always leaves open exactly the frames
/// of the threads still tracked.
pub proof fn lemma_increment_events_opens(
    log: Seq<Event>,
    prev: Seq<StackTrace>,
    traces: Seq<StackTrace>,
    ls: bool,
    now: u64,
)
    requires
        wf_log(log),
        opens(log) == open_keys(prev, ls),
        crate::stack_trace::unique_tids(prev),
        crate::stack_trace::unique_tids(traces),
    ensures
        wf_log(log + increment_events(prev, traces, ls, now)),
        opens(log + increment_events(prev, traces, ls, now)) == open_keys(traces, ls),
{
    broadcast use vstd::multiset::group_multiset_axioms;

    assert(consumed_keys(prev, traces, ls).subset_of(opens(log))) by {
        assert forall|k: (u64, Seq<char>, Seq<char>, Option<u32>)|
            consumed_keys(prev, traces, ls).count(k) <= opens(log).count(k) by {
            lemma_consumed_keys_count(prev, traces, ls, k);
            lemma_open_keys_count(prev, ls, k);
        }
    }
    lemma_trace_events_opens(log, prev, traces, ls, now);
    let log1 = log + trace_events(prev, traces, ls, now);
    assert(leftover_keys(prev, traces, ls).subset_of(opens(log1))) by {
        assert forall|k: (u64, Seq<char>, Seq<char>, Option<u32>)|
            leftover_keys(prev, traces, ls).count(k) <= opens(log1).count(k) by {
            lemma_leftover_keys_count(prev, traces, ls, k);
            lemma_consumed_keys_count(prev, traces, ls, k);
            lemma_open_keys_count(prev, ls, k);
        }
    }
    lemma_leftover_ends_opens(log1, prev, traces, ls, now);
    assert(log + increment_events(prev, traces, ls, now) =~= log1 + leftover_ends(
        prev,
        traces,
        ls,
        now,
    ));
    assert forall|k: (u64, Seq<char>, Seq<char>, Option<u32>)|
        opens(log1 + leftover_ends(prev, traces, ls, now)).count(k) == open_keys(
            traces,
            ls,
        ).count(k) by {
        lemma_leftover_keys_count(prev, traces, ls, k);
        lemma_consumed_keys_count(prev, traces, ls, k);
        lemma_open_keys_count(prev, ls, k);
        lemma_open_keys_count(traces, ls, k);
        if !has_tid(traces, k.0) {
            assert(prev_frames_of(traces, k.0) == Seq::<Frame>::empty()) by {
                lemma_first_tid_has(traces, k.0);
            }
        }
    }
    assert(opens(log + increment_events(prev, traces, ls, now)) =~= open_keys(traces, ls));
}


/// Law: when a session's log leaves open exactly the frames of the stored
/// traces, flushing closes the books: the finished log holds equally many
/// begin and end events for every frame of every thread.
pub proof fn lemma_session_balanced(
    log: Seq<Event>,
    prev: Seq<StackTrace>,
    ls: bool,
    now: u64,
    k: (u64, Seq<char>, Seq<char>, Option<u32>),
)
    requires
        wf_log(log),
        opens(log) == open_keys(prev, ls),
    ensures
        count_phase(log + flush_events(prev, ls, now), Phase::Begin, k) == count_phase(
            log + flush_events(prev, ls, now),
            Phase::End,
            k,
        ),
{
    broadcast use vstd::multiset::group_multiset_axioms;

    assert(open_keys(prev, ls).subset_of(opens(log)));
    lemma_flush_events_opens(log, prev, ls, now);
    let full = log + flush_events(prev, ls, now);
    assert(opens(full).count(k) == 0);
    lemma_balanced(full, k);
}


} // verus!
