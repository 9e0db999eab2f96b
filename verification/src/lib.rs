use vstd::prelude::*;

pub mod clock;
pub mod config;
pub mod file_handler;
pub mod lines;
pub mod model;
pub mod reader;

use crate::clock::{Clock, Duration, Timestamp};
use crate::config::Config;
use crate::file_handler::{new_file_model, FileError, FileHandler, FileModel};
use crate::lines::lines_of;
use crate::model::{
    append_to_open, days_increasing, marker_line_of, marker_prefix, model_lines, model_rotate,
    model_step, non_decreasing, retention_mark, run_model,
};
use crate::reader::{overflow_msg, ByteSource, LineError, Reader, ReaderOutput};
use std::collections::VecDeque;

verus! {

/// A failure that aborts the run: without a writable destination (or a
/// representable next day) there is no safe way to keep ingesting.
///
/// `Delete` is a fatal cause that exists only because the retention window
/// is wired into the run: a store that cannot honor a removal leaves the
/// run unable to keep its configured promise.  `CalendarOverflow` can come
/// from `tomorrow` alone; a run never produces it, because a day computed
/// from a second count always has a successor, and the run's contract says
/// so.
#[derive(Debug)]
pub enum EngineError {
    Create(FileError),
    Write(FileError),
    Delete(FileError),
    Close(FileError),
    CalendarOverflow,
}

/// What a completed run reports: the logical day of every record written, in
/// order, and the diagnostic marker line appended when the reader failed.
pub struct RunReport {
    pub days: Vec<u64>,
    pub marker: Option<Vec<u8>>,
}

/// The day after `day`; the calendar overflows only at the representation's
/// very edge.
pub fn tomorrow(day: u64) -> (r: Result<u64, EngineError>)
    ensures
        match r {
            Ok(t) => day < u64::MAX && t == day + 1,
            Err(e) => day == u64::MAX && e matches EngineError::CalendarOverflow,
        },
{
    if day < u64::MAX {
        Ok(day + 1)
    } else {
        Err(EngineError::CalendarOverflow)
    }
}

/// Builds the diagnostic line for a reader failure: the fixed marker text
/// followed by the failure's description.
pub fn marker_line(msg: &Vec<u8>) -> (r: Vec<u8>)
    ensures
        r@ == marker_line_of(msg@),
{
    let mut v: Vec<u8> = Vec::new();
    v.push(76);
    v.push(79);
    v.push(71);
    v.push(83);
    v.push(32);
    v.push(82);
    v.push(79);
    v.push(84);
    v.push(65);
    v.push(84);
    v.push(73);
    v.push(79);
    v.push(78);
    v.push(32);
    v.push(82);
    v.push(69);
    v.push(65);
    v.push(68);
    v.push(69);
    v.push(82);
    v.push(32);
    v.push(69);
    v.push(82);
    v.push(82);
    v.push(79);
    v.push(82);
    v.push(32);
    proof {
        assert(v@ =~= marker_prefix());
    }
    v.extend_from_slice(msg.as_slice());
    proof {
        assert(v@ =~= marker_line_of(msg@));
    }
    v
}

/// The deletion decision of the retention window, for a driver that runs
/// the rotation loop itself: given the strictly increasing list of days
/// whose files still exist, rotating to `day` removes from the front every
/// day `x` with `x + keep <= day` and hands them back, oldest first.  The
/// caller performs the removals; the surviving days all lie inside the
/// window.  The engine applies the same rule internally.
#[verifier::loop_isolation(false)]
pub fn retention_victims(live: &mut Vec<u64>, day: u64, keep: u8) -> (victims: Vec<u64>)
    requires
        forall|i: int, j: int| 0 <= i < j < old(live)@.len() ==> old(live)@[i] < old(live)@[j],
    ensures
        victims@ == old(live)@.take(victims@.len() as int),
        final(live)@ == old(live)@.skip(victims@.len() as int),
        forall|i: int| 0 <= i < victims@.len() ==> (#[trigger] victims@[i]) + keep <= day,
        forall|i: int| 0 <= i < final(live)@.len() ==> (#[trigger] final(live)@[i]) + keep > day,
{
    let mut victims: Vec<u64> = Vec::new();
    let keep64: u64 = keep as u64;
    if day >= keep64 {
        let cutoff: u64 = day - keep64;
        while live.len() > 0 && live[0] <= cutoff
            invariant
                victims@ + live@ =~= old(live)@,
                victims@ == old(live)@.take(victims@.len() as int),
                forall|i: int| 0 <= i < victims@.len() ==> (#[trigger] victims@[i]) + keep <= day,
                forall|i: int, j: int| 0 <= i < j < live@.len() ==> live@[i] < live@[j],
            decreases live@.len(),
        {
            let ghost live0 = live@;
            let ghost v0 = victims@;
            victims.push(live[0]);
            live.remove(0);
            proof {
                assert(live@ =~= live0.skip(1));
                assert(victims@ + live@ =~= v0 + live0);
                assert(victims@ =~= old(live)@.take(victims@.len() as int));
                assert forall|i: int| 0 <= i < victims@.len() implies (#[trigger] victims@[i])
                    + keep <= day by {
                    if i < v0.len() {
                        assert(victims@[i] == v0[i]);
                    } else {
                        assert(victims@[i] == live0[0]);
                    }
                }
            }
        }
        proof {
            assert(live@ =~= old(live)@.skip(victims@.len() as int));
            assert forall|i: int| 0 <= i < live@.len() implies (#[trigger] live@[i]) + keep
                > day by {
                if i > 0 {
                    assert(live@[0] < live@[i]);
                }
            }
        }
    } else {
        proof {
            assert(victims@ =~= old(live)@.take(0));
            assert(live@ =~= old(live)@.skip(0));
        }
    }
    victims
}

/// A chain of `elapsed` steps: successive clock states `cs`, starting at
/// `c0` and linked by the clock's transition relation, with each step
/// reporting the duration in `es`.  For a deterministic clock the relation
/// pins every step, so the whole chain is determined by `c0`.
pub open spec fn clock_runs<C: Clock>(c0: C, es: Seq<Duration>, cs: Seq<C>) -> bool {
    &&& cs.len() == es.len() + 1
    &&& cs[0] == c0
    &&& forall|i: int|
        0 <= i < es.len() ==> (#[trigger] es[i]).wf() && cs[i].elapsed_rel(es[i], cs[i + 1])
}

/// Logical time accumulated from `start` by exactly the durations in `es`:
/// nothing is double-counted and nothing is dropped.
pub open spec fn time_accumulates(start: Timestamp, es: Seq<Duration>, ts: Seq<Timestamp>) -> bool {
    &&& ts.len() == es.len() + 1
    &&& ts[0] == start
    &&& forall|i: int|
        0 <= i < es.len() ==> ((#[trigger] es[i]).wf() && ts[i + 1].wf() && ts[i
            + 1].total_nanos() == ts[i].total_nanos() + es[i].total_nanos())
}

/// Whether the clock in state `c` can report a span that pushes `t` beyond
/// representable time — the only way a run ends with the overflow marker.
pub open spec fn overflow_next<C: Clock>(c: C, t: Timestamp) -> bool {
    exists|e: Duration, c2: C|
        e.wf() && #[trigger] c.elapsed_rel(e, c2) && t.total_nanos() + e.total_nanos() > u64::MAX
            * 1_000_000_000 + 999_999_999
}

proof fn lemma_clock_runs_push<C: Clock>(c0: C, es: Seq<Duration>, cs: Seq<C>, e: Duration, c2: C)
    requires
        clock_runs(c0, es, cs),
        e.wf(),
        cs.last().elapsed_rel(e, c2),
    ensures
        clock_runs(c0, es.push(e), cs.push(c2)),
{
    let es2 = es.push(e);
    let cs2 = cs.push(c2);
    assert forall|i: int| 0 <= i < es2.len() implies (#[trigger] es2[i]).wf()
        && cs2[i].elapsed_rel(es2[i], cs2[i + 1]) by {
        if i < es.len() {
            assert(es2[i] == es[i]);
            assert(cs2[i] == cs[i]);
            assert(cs2[i + 1] == cs[i + 1]);
        } else {
            assert(es2[i] == e);
            assert(cs2[i] == cs.last());
            assert(cs2[i + 1] == c2);
        }
    }
}

proof fn lemma_time_accumulates_push(
    start: Timestamp,
    es: Seq<Duration>,
    ts: Seq<Timestamp>,
    e: Duration,
    t2: Timestamp,
)
    requires
        time_accumulates(start, es, ts),
        e.wf(),
        t2.wf(),
        t2.total_nanos() == ts.last().total_nanos() + e.total_nanos(),
    ensures
        time_accumulates(start, es.push(e), ts.push(t2)),
{
    let es2 = es.push(e);
    let ts2 = ts.push(t2);
    assert forall|i: int| 0 <= i < es2.len() implies ((#[trigger] es2[i]).wf() && ts2[i + 1].wf()
        && ts2[i + 1].total_nanos() == ts2[i].total_nanos() + es2[i].total_nanos()) by {
        if i < es.len() {
            assert(es2[i] == es[i]);
            assert(ts2[i] == ts[i]);
            assert(ts2[i + 1] == ts[i + 1]);
        } else {
            assert(es2[i] == e);
            assert(ts2[i] == ts.last());
            assert(ts2[i + 1] == t2);
        }
    }
}

/// Drives the whole pipeline over an in-memory byte source: reads records,
/// stamps each with the logical day of the accumulating clock, rotates the
/// output on every day change, applies the retention window, appends a
/// diagnostic marker when the reader fails, closes the last file through one
/// more rotation (to the following day), and resolves every background flush
/// in spawn order before returning.
///
/// On success the handler's files are exactly `run_model` of the delivered
/// records and their reported days; the reported days are the calendar days
/// of the start timestamp advanced by a chain of clock steps, each obeying
/// the clock's transition relation, so a deterministic clock pins them
/// exactly; and no flush handle is left unresolved.  A run fails only when
/// the file handler fails (never for an infallible handler); a reader
/// failure ends the run normally, marker written.  On a fatal failure the
/// run aborts as the original did: flushes still queued at that moment are
/// dropped unresolved, which the `Err` case's accounting reflects.
#[verifier::loop_isolation(false)]
#[verifier::rlimit(100)]
pub fn log_redirect_generic<C: Clock, H: FileHandler>(
    input: ByteSource,
    config: &Config,
    clock: C,
    handler: &mut H,
    start: Timestamp,
) -> (r: Result<RunReport, EngineError>)
    requires
        clock.inv(),
        start.wf(),
        input.wf(),
        input.pos == 0,
        input.reads == 0,
        old(handler).inv(),
        old(handler).files() == Seq::<FileModel>::empty(),
        old(handler).spawned() == 0,
        old(handler).resolved() == 0,
    ensures
        final(handler).inv(),
        H::infallible() ==> r is Ok,
        match r {
            Ok(rep) => {
                let all = lines_of(input.data@);
                let m = rep.days@.len() as int;
                let mk = match rep.marker {
                    Some(v) => Some(v@),
                    None => None::<Seq<u8>>,
                };
                &&& m <= all.len()
                &&& non_decreasing(rep.days@)
                &&& (forall|i: int| 0 <= i < m ==> #[trigger] rep.days@[i] >= start.day())
                &&& final(handler).files() == run_model(
                    start.day(),
                    all.take(m),
                    rep.days@,
                    config.delete_after,
                    mk,
                )
                &&& final(handler).resolved() == final(handler).spawned()
                &&& final(handler).spawned() + 1 == final(handler).files().len()
                &&& (rep.marker is None ==> m == all.len() && (input.fail_after matches Some(k)
                    ==> k > all.len()))
                &&& exists|es: Seq<Duration>, cs: Seq<C>, ts: Seq<Timestamp>|
                    #![trigger clock_runs(clock, es, cs), time_accumulates(start, es, ts)]
                    {
                        &&& clock_runs(clock, es, cs)
                        &&& time_accumulates(start, es, ts)
                        &&& es.len() == m
                        &&& (forall|i: int|
                            0 <= i < m ==> #[trigger] rep.days@[i] == ts[i + 1].day())
                        &&& (match rep.marker {
                            Some(v) => (input.fail_after matches Some(k) && k == m && v@
                                == marker_line_of(input.fail_msg@)) || (v@ == marker_line_of(
                                overflow_msg(),
                            ) && overflow_next(cs.last(), ts.last())),
                            None => true,
                        })
                    }
            },
            Err(e) => {
                &&& !H::infallible()
                &&& final(handler).resolved() <= final(handler).spawned()
                &&& !(e matches EngineError::CalendarOverflow)
                &&& (e matches EngineError::Create(_) ==> final(handler).files().len() == 0
                    && final(handler).spawned() == 0 && final(handler).resolved() == 0)
                &&& (!(e matches EngineError::Create(_)) ==> final(handler).files().len() >= 1)
            },
        },
{
    let ghost in_data = input.data@;
    let ghost all = lines_of(in_data);
    let ghost in_fail = input.fail_after;
    let ghost in_msg = input.fail_msg@;
    let ghost policy = config.delete_after;
    let ghost start_day = start.day();
    let ghost clock0 = clock;
    let ghost mut es: Seq<Duration> = Seq::empty();
    let ghost mut cs: Seq<C> = seq![clock0];
    let ghost mut ts: Seq<Timestamp> = seq![start];

    let mut flush_queue: VecDeque<H::Flush> = VecDeque::new();
    let mut reader = Reader::new(clock, input, start);
    let mut read_buf: Vec<u8> = Vec::new();
    let mut write_buf: Vec<u8> = Vec::new();

    let mut day: u64 = start.compute_day();
    let mut output = match handler.create_date_stamped_file(&config.dir, &config.prefix, day) {
        Ok(f) => f,
        Err(e) => {
            return Err(EngineError::Create(e));
        },
    };
    let mut live: Vec<u64> = Vec::new();
    live.push(day);
    let mut days_out: Vec<u64> = Vec::new();
    let ghost mut done: Seq<Seq<u8>> = Seq::empty();
    proof {
        assert(done =~= all.take(0));
        assert(handler.files() =~~= model_lines(start_day, done, days_out@, policy));
    }

    proof {
        assert(live@.last() == day);
        assert forall|k: int| 0 <= k < handler.files().len() implies (!(
        #[trigger] handler.files()[k]).deleted ==> live@.contains(handler.files()[k].day)) by {
            assert(handler.files()[k].day == day);
            assert(live@[0] == day);
        }
    }
    let mut reader_output = reader.read_line(&mut read_buf);
    proof {
        match reader_output {
            Ok(ReaderOutput::Line(d0)) => {
                crate::lines::lemma_next_line_shape(in_data);
                let rem0 = in_data.skip(0);
                assert(rem0 =~= in_data);
                assert(all == seq![crate::lines::next_line(in_data)] + lines_of(
                    in_data.skip(crate::lines::next_line(in_data).len() as int),
                ));
                assert(all == seq![read_buf@] + lines_of(reader.input.remaining()));
                assert(all =~= done + seq![read_buf@] + lines_of(reader.input.remaining()));
                let e = choose|e: Duration|
                    e.wf() && clock0.elapsed_rel(e, reader.clock) && reader.now.total_nanos()
                        == start.total_nanos() + e.total_nanos();
                lemma_clock_runs_push(clock0, es, cs, e, reader.clock);
                lemma_time_accumulates_push(start, es, ts, e, reader.now);
                es = es.push(e);
                cs = cs.push(reader.clock);
                ts = ts.push(reader.now);
            },
            Ok(ReaderOutput::Eof) => {},
            Err(ref le) => {
                if (le matches LineError::TimeOverflow) {
                    let e2 = choose|e2: Duration|
                        e2.wf() && clock0.elapsed_rel(e2, reader.clock) && start.total_nanos()
                            + e2.total_nanos() > u64::MAX * 1_000_000_000 + 999_999_999;
                    assert(cs.last().elapsed_rel(e2, reader.clock));
                    assert(overflow_next(cs.last(), ts.last()));
                }
            },
        }
    }

    loop
        invariant
            reader.wf(),
            reader.input.data@ == in_data,
            reader.input.fail_after == in_fail,
            reader.input.fail_msg@ == in_msg,
            handler.inv(),
            days_out@.len() == done.len(),
            done == all.take(done.len() as int),
            done.len() <= all.len(),
            handler.files() == model_lines(start_day, done, days_out@, policy),
            handler.files().len() >= 1,
            !handler.files().last().deleted,
            handler.files().last().day == day,
            days_increasing(handler.files()),
            forall|k: int|
                0 <= k < handler.files().len() ==> (#[trigger] handler.files()[k]).day <= day,
            H::file_index(&output) == handler.files().len() - 1,
            non_decreasing(days_out@),
            forall|i: int| 0 <= i < days_out@.len() ==> #[trigger] days_out@[i] >= start_day,
            day == (if days_out@.len() == 0 {
                start_day
            } else {
                days_out@.last()
            }),
            day >= start_day,
            day <= reader.now.day(),
            forall|q1: int, q2: int| 0 <= q1 < q2 < live@.len() ==> live@[q1] < live@[q2],
            forall|q: int| 0 <= q < live@.len() ==> #[trigger] live@[q] <= day,
            live@.len() >= 1,
            live@.last() == day,
            forall|k: int|
                0 <= k < handler.files().len() ==> (!(#[trigger] handler.files()[k]).deleted
                    ==> live@.contains(handler.files()[k].day)),
            handler.spawned() == handler.resolved() + flush_queue@.len(),
            forall|i: int|
                0 <= i < flush_queue@.len() ==> H::flush_id(&flush_queue@[i]) == handler.resolved()
                    + i,
            handler.spawned() == handler.files().len() - 1,
            clock_runs(clock0, es, cs),
            time_accumulates(start, es, ts),
            forall|i: int|
                0 <= i < days_out@.len() ==> #[trigger] days_out@[i] == ts[i + 1].day(),
            ts.last() == reader.now,
            match reader_output {
                Ok(ReaderOutput::Line(d)) => {
                    &&& all == done + seq![read_buf@] + lines_of(reader.input.remaining())
                    &&& read_buf@.len() > 0
                    &&& reader.input.reads == done.len() + 1
                    &&& d == reader.now.day()
                    &&& d >= day
                    &&& (in_fail matches Some(k) ==> k >= reader.input.reads)
                    &&& es.len() == done.len() + 1
                    &&& cs.last() == reader.clock
                },
                Ok(ReaderOutput::Eof) => {
                    &&& all == done
                    &&& reader.input.reads == done.len()
                    &&& (in_fail matches Some(k) ==> k > done.len())
                    &&& es.len() == done.len()
                    &&& cs.last() == reader.clock
                },
                Err(e) => {
                    &&& reader.input.reads == done.len()
                    &&& es.len() == done.len()
                    &&& match e {
                        LineError::Source(mm) => in_fail matches Some(k) && k == done.len()
                            && mm@ == in_msg && cs.last() == reader.clock,
                        LineError::TimeOverflow => overflow_next(cs.last(), ts.last()),
                    }
                },
            },
        decreases reader.input.remaining().len() + (if reader_output matches Ok(
            ReaderOutput::Line(_),
        ) {
            1int
        } else {
            0int
        }),
    {
        let d = match &reader_output {
            Ok(ReaderOutput::Line(dd)) => *dd,
            _ => { break },
        };
        let ghost files_head = handler.files();
        let ghost days_head = days_out@;
        let ghost done_head = done;
        let ghost day_head = day;
        if d != day {
            let ghost files_pre = handler.files();
            match handler.close_file(output, &config.dir, &config.prefix, d) {
                Ok(pair) => {
                    output = pair.0;
                    flush_queue.push_back(pair.1);
                },
                Err(e) => {
                    return Err(EngineError::Close(e));
                },
            }
            let ghost files_pushed = files_pre.push(new_file_model(d));
            proof {
                assert(handler.files() == files_pushed);
                assert(handler.files().last() == new_file_model(d));
                assert forall|k: int| 0 <= k < handler.files().len() - 1 implies (!(
                #[trigger] handler.files()[k]).deleted ==> live@.contains(
                    handler.files()[k].day,
                )) by {
                    assert(handler.files()[k] == files_pre[k]);
                }
            }
            match config.delete_after {
                None => {},
                Some(keep) => {
                    let keep64: u64 = keep as u64;
                    if d >= keep64 {
                        let cutoff: u64 = d - keep64;
                        while live.len() > 0 && live[0] <= cutoff
                            invariant
                                handler.inv(),
                                handler.files().len() == files_pushed.len(),
                                handler.files().last() == new_file_model(d),
                                retention_mark(handler.files(), d, keep) == retention_mark(
                                    files_pushed,
                                    d,
                                    keep,
                                ),
                                forall|q1: int, q2: int|
                                    0 <= q1 < q2 < live@.len() ==> live@[q1] < live@[q2],
                                forall|q: int| 0 <= q < live@.len() ==> #[trigger] live@[q] < d,
                                forall|k: int|
                                    0 <= k < handler.files().len() - 1 ==> (!(
                                    #[trigger] handler.files()[k]).deleted ==> live@.contains(
                                        handler.files()[k].day,
                                    )),
                                handler.spawned() == handler.resolved() + flush_queue@.len(),
                                handler.spawned() == handler.files().len() - 1,
                            decreases live@.len(),
                        {
                            let day0 = live[0];
                            let ghost files_cur = handler.files();
                            let ghost live_cur = live@;
                            match handler.delete_date_stamped_file(
                                &config.dir,
                                &config.prefix,
                                day0,
                            ) {
                                Ok(_) => {},
                                Err(e) => {
                                    return Err(EngineError::Delete(e));
                                },
                            }
                            live.remove(0);
                            proof {
                                crate::model::lemma_retention_absorbs_mark(
                                    files_cur,
                                    day0,
                                    d,
                                    keep,
                                );
                                assert(handler.files().last() == files_cur.last());
                                assert forall|k: int|
                                    0 <= k < handler.files().len() - 1 implies (!(
                                #[trigger] handler.files()[k]).deleted ==> live@.contains(
                                    handler.files()[k].day,
                                )) by {
                                    if !handler.files()[k].deleted {
                                        assert(!files_cur[k].deleted);
                                        assert(files_cur[k].day != day0);
                                        let q = choose|q: int|
                                            0 <= q < live_cur.len() && live_cur[q]
                                                == files_cur[k].day;
                                        assert(q != 0);
                                        assert(live@[q - 1] == files_cur[k].day);
                                        assert(live@.contains(files_cur[k].day));
                                    }
                                }
                            }
                        }
                        proof {
                            assert forall|i: int|
                                0 <= i < handler.files().len() - 1 implies (!(
                            #[trigger] handler.files()[i]).deleted ==> handler.files()[i].day
                                + keep > d) by {
                                if !handler.files()[i].deleted {
                                    let dd = handler.files()[i].day;
                                    assert(live@.contains(dd));
                                    let q = choose|q: int|
                                        0 <= q < live@.len() && live@[q] == dd;
                                    if q > 0 {
                                        assert(live@[0] < live@[q]);
                                    }
                                    assert(dd >= live@[0]);
                                    assert(live@[0] > cutoff);
                                }
                            }
                            crate::model::lemma_retention_noop(handler.files(), d, keep);
                        }
                    } else {
                        proof {
                            assert forall|i: int|
                                0 <= i < handler.files().len() - 1 implies (!(
                            #[trigger] handler.files()[i]).deleted ==> handler.files()[i].day
                                + keep > d) by {}
                            crate::model::lemma_retention_noop(handler.files(), d, keep);
                        }
                    }
                },
            }
            proof {
                assert(handler.files() == model_rotate(files_pre, d, policy));
            }
            let ghost live_rot = live@;
            day = d;
            live.push(day);
            proof {
                assert(live@.last() == d);
                assert(live@.drop_last() =~= live_rot);
                assert forall|k: int| 0 <= k < handler.files().len() implies (!(
                #[trigger] handler.files()[k]).deleted ==> live@.contains(
                    handler.files()[k].day,
                )) by {
                    if !handler.files()[k].deleted {
                        if k == handler.files().len() - 1 {
                            assert(live@.last() == handler.files()[k].day);
                        } else {
                            let dd = handler.files()[k].day;
                            assert(live_rot.contains(dd));
                            let q = choose|q: int|
                                0 <= q < live_rot.len() && live_rot[q] == dd;
                            assert(live@[q] == dd);
                        }
                    }
                }
            }
        }
        let ghost files_rot = handler.files();
        let ghost spawned_rot = handler.spawned();

        // Drain whatever background flushes have already completed, oldest
        // first; a failed flush is reported to nobody, by design.
        while flush_queue.len() > 0 && handler.flush_is_finished(&flush_queue[0])
            invariant
                handler.inv(),
                handler.files() == files_rot,
                handler.spawned() == spawned_rot,
                handler.spawned() == handler.resolved() + flush_queue@.len(),
                forall|i: int|
                    0 <= i < flush_queue@.len() ==> H::flush_id(&flush_queue@[i])
                        == handler.resolved() + i,
            decreases flush_queue@.len(),
        {
            let ghost q0 = flush_queue@;
            match flush_queue.pop_front() {
                Some(fl) => {
                    let _ = handler.resolve_flush(fl);
                },
                None => {},
            }
            proof {
                assert forall|i: int| 0 <= i < flush_queue@.len() implies H::flush_id(
                    &flush_queue@[i],
                ) == handler.resolved() + i by {
                    assert(flush_queue@[i] == q0[i + 1]);
                }
            }
        }

        core::mem::swap(&mut read_buf, &mut write_buf);
        match handler.write_all(&mut output, &write_buf) {
            Ok(_) => {},
            Err(e) => {
                return Err(EngineError::Write(e));
            },
        }
        days_out.push(d);
        proof {
            let line = write_buf@;
            done = done.push(line);
            assert(done.drop_last() =~= done_head);
            assert(days_out@.drop_last() =~= days_head);
            assert(days_out@.last() == d);
            assert(handler.files() =~~= append_to_open(files_rot, line));
            assert(files_head.last().day == day_head);
            assert(files_rot == (if d == day_head {
                files_head
            } else {
                model_rotate(files_head, d, policy)
            }));
            assert(model_lines(start_day, done, days_out@, policy) == model_step(
                model_lines(start_day, done_head, days_head, policy),
                line,
                d,
                policy,
            ));
            assert(handler.files() == model_lines(start_day, done, days_out@, policy));
            assert(all[done_head.len() as int] == (done_head + seq![line] + lines_of(
                reader.input.remaining(),
            ))[done_head.len() as int]);
            assert(done =~= all.take(done.len() as int));
            assert(all == done + lines_of(reader.input.remaining())) by {
                assert(done_head + seq![line] + lines_of(reader.input.remaining()) =~= done
                    + lines_of(reader.input.remaining()));
            }
            assert(ts[done.len() as int] == ts.last());
            assert forall|i: int| 0 <= i < days_out@.len() implies #[trigger] days_out@[i]
                == ts[i + 1].day() by {
                if i < days_head.len() {
                    assert(days_out@[i] == days_head[i]);
                }
            }
        }
        let ghost rem_head = reader.input.remaining();
        let ghost clock_head = reader.clock;
        let ghost now_head = reader.now;
        reader_output = reader.read_line(&mut read_buf);
        proof {
            match reader_output {
                Ok(ReaderOutput::Line(_)) => {
                    crate::lines::lemma_next_line_shape(rem_head);
                    assert(lines_of(rem_head) == seq![crate::lines::next_line(rem_head)]
                        + lines_of(reader.input.remaining()));
                    assert(all =~= done + seq![read_buf@] + lines_of(reader.input.remaining()));
                    let e = choose|e: Duration|
                        e.wf() && clock_head.elapsed_rel(e, reader.clock)
                            && reader.now.total_nanos() == now_head.total_nanos()
                            + e.total_nanos();
                    lemma_clock_runs_push(clock0, es, cs, e, reader.clock);
                    lemma_time_accumulates_push(start, es, ts, e, reader.now);
                    es = es.push(e);
                    cs = cs.push(reader.clock);
                    ts = ts.push(reader.now);
                },
                Ok(ReaderOutput::Eof) => {
                    assert(lines_of(rem_head) =~= Seq::<Seq<u8>>::empty());
                    assert(all =~= done);
                },
                Err(ref le) => {
                    if (le matches LineError::TimeOverflow) {
                        let e2 = choose|e2: Duration|
                            e2.wf() && clock_head.elapsed_rel(e2, reader.clock)
                                && now_head.total_nanos() + e2.total_nanos() > u64::MAX
                                * 1_000_000_000 + 999_999_999;
                        assert(cs.last().elapsed_rel(e2, reader.clock));
                        assert(overflow_next(cs.last(), ts.last()));
                    }
                },
            }
        }
    }

    let marker_vec: Option<Vec<u8>> = match &reader_output {
        Ok(_) => None,
        Err(e) => {
            let msg = e.message();
            let mk = marker_line(&msg);
            let ghost files_eof = handler.files();
            match handler.write_all(&mut output, &mk) {
                Ok(_) => {},
                Err(e2) => {
                    return Err(EngineError::Write(e2));
                },
            }
            proof {
                assert(handler.files() =~~= append_to_open(files_eof, mk@));
            }
            Some(mk)
        },
    };
    let ghost mk_spec: Option<Seq<u8>> = if marker_vec is Some {
        Some(marker_vec.unwrap()@)
    } else {
        None
    };
    let ghost files_marked = handler.files();
    proof {
        assert(files_marked == (match mk_spec {
            Some(m) => append_to_open(model_lines(start_day, done, days_out@, policy), m),
            None => model_lines(start_day, done, days_out@, policy),
        }));
        assert(files_marked.last().day == day);
    }

    proof {
        assert(day < u64::MAX) by {
            assert(reader.now.day() == reader.now.secs / 86400);
            assert(reader.now.secs / 86400 <= reader.now.secs) by (nonlinear_arith);
        }
    }
    let next_day = match tomorrow(day) {
        Ok(t) => t,
        Err(e) => {
            return Err(e);
        },
    };
    let ghost spawned_pre_close = handler.spawned();
    let ghost queue_pre_close = flush_queue@;
    match handler.close_file(output, &config.dir, &config.prefix, next_day) {
        Ok(pair) => {
            flush_queue.push_back(pair.1);
        },
        Err(e) => {
            return Err(EngineError::Close(e));
        },
    }
    proof {
        assert forall|i: int| 0 <= i < flush_queue@.len() implies H::flush_id(&flush_queue@[i])
            == handler.resolved() + i by {
            if i < flush_queue@.len() - 1 {
                assert(flush_queue@[i] == queue_pre_close[i]);
            }
        }
        assert(handler.files() == run_model(start_day, done, days_out@, policy, mk_spec));
    }

    let ghost files_fin = handler.files();
    let ghost spawned_fin = handler.spawned();
    while flush_queue.len() > 0
        invariant
            handler.inv(),
            handler.files() == files_fin,
            handler.spawned() == spawned_fin,
            handler.spawned() == handler.resolved() + flush_queue@.len(),
            forall|i: int|
                0 <= i < flush_queue@.len() ==> H::flush_id(&flush_queue@[i])
                    == handler.resolved() + i,
        decreases flush_queue@.len(),
    {
        let ghost q0 = flush_queue@;
        match flush_queue.pop_front() {
            Some(fl) => {
                let _ = handler.resolve_flush(fl);
            },
            None => {},
        }
        proof {
            assert forall|i: int| 0 <= i < flush_queue@.len() implies H::flush_id(
                &flush_queue@[i],
            ) == handler.resolved() + i by {
                assert(flush_queue@[i] == q0[i + 1]);
            }
        }
    }
    proof {
        assert(done == all.take(done.len() as int));
        assert(clock_runs(clock0, es, cs));
        assert(time_accumulates(start, es, ts));
        assert(es.len() == days_out@.len());
        assert(ts[es.len() as int] == ts.last());
    }

    Ok(RunReport { days: days_out, marker: marker_vec })
}

} // verus!
