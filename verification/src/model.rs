use vstd::prelude::*;

use crate::file_handler::{mark_deleted_day, new_file_model, FileModel};

verus! {

/// All bytes held by a sequence of files, in creation order, deleted files
/// included (deletion happens after writing; the model keeps the history).
pub open spec fn contents_of(fs: Seq<FileModel>) -> Seq<u8> {
    fs.flat_map(|f: FileModel| f.content)
}

/// The days of a run never step backwards.
pub open spec fn non_decreasing(days: Seq<u64>) -> bool {
    forall|i: int, j: int| 0 <= i <= j < days.len() ==> days[i] <= days[j]
}

/// Every file is stamped with a strictly larger day than the files created
/// before it; in particular no two files share a day.
pub open spec fn days_increasing(fs: Seq<FileModel>) -> bool {
    forall|i: int, j: int| 0 <= i < j < fs.len() ==> fs[i].day < fs[j].day
}

/// The retention rule: once the run has rotated to `day`, every older file
/// whose stamp `x` satisfies `x + keep <= day` is deleted.  The file just
/// opened (the last one) is never deleted.
pub open spec fn retention_mark(fs: Seq<FileModel>, day: u64, keep: u8) -> Seq<FileModel> {
    fs.map(
        |i: int, f: FileModel|
            if i < fs.len() - 1 && f.day + keep <= day {
                FileModel { day: f.day, content: f.content, deleted: true }
            } else {
                f
            },
    )
}

/// Appends bytes to the currently open (last) file.
pub open spec fn append_to_open(fs: Seq<FileModel>, bytes: Seq<u8>) -> Seq<FileModel>
    recommends
        fs.len() > 0,
{
    fs.update(
        fs.len() - 1,
        FileModel {
            day: fs.last().day,
            content: fs.last().content + bytes,
            deleted: fs.last().deleted,
        },
    )
}

/// A rotation to `day`: a fresh file is opened for `day` and, when a
/// retention window is configured, files that fall out of it are deleted.
pub open spec fn model_rotate(fs: Seq<FileModel>, day: u64, policy: Option<u8>) -> Seq<
    FileModel,
> {
    let pushed = fs.push(new_file_model(day));
    match policy {
        None => pushed,
        Some(keep) => retention_mark(pushed, day, keep),
    }
}

/// One record arriving on `day`: rotate when the day changed, then write the
/// record to the open file.
pub open spec fn model_step(
    fs: Seq<FileModel>,
    line: Seq<u8>,
    day: u64,
    policy: Option<u8>,
) -> Seq<FileModel>
    recommends
        fs.len() > 0,
{
    let rotated = if day == fs.last().day {
        fs
    } else {
        model_rotate(fs, day, policy)
    };
    append_to_open(rotated, line)
}

/// The files produced by a run that starts on `start_day` and receives the
/// given records on the given days.
pub open spec fn model_lines(
    start_day: u64,
    lines: Seq<Seq<u8>>,
    days: Seq<u64>,
    policy: Option<u8>,
) -> Seq<FileModel>
    recommends
        days.len() == lines.len(),
    decreases lines.len(),
{
    if lines.len() == 0 {
        seq![new_file_model(start_day)]
    } else {
        model_step(
            model_lines(start_day, lines.drop_last(), days.drop_last(), policy),
            lines.last(),
            days.last(),
            policy,
        )
    }
}

/// The text that precedes a reader failure's description in the output.
pub open spec fn marker_prefix() -> Seq<u8> {
    seq![
        76u8,
        79u8,
        71u8,
        83u8,
        32u8,
        82u8,
        79u8,
        84u8,
        65u8,
        84u8,
        73u8,
        79u8,
        78u8,
        32u8,
        82u8,
        69u8,
        65u8,
        68u8,
        69u8,
        82u8,
        32u8,
        69u8,
        82u8,
        82u8,
        79u8,
        82u8,
        32u8,
    ]
}

/// The whole diagnostic line written when the reader fails.
pub open spec fn marker_line_of(msg: Seq<u8>) -> Seq<u8> {
    marker_prefix() + msg
}

/// The files left behind by a complete run: the files of the records, the
/// diagnostic marker appended to the open file when the reader failed, and
/// the empty file for the following day that the final close creates while
/// pushing the last real file through the ordinary rotation path.
pub open spec fn run_model(
    start_day: u64,
    lines: Seq<Seq<u8>>,
    days: Seq<u64>,
    policy: Option<u8>,
    marker: Option<Seq<u8>>,
) -> Seq<FileModel>
    recommends
        days.len() == lines.len(),
{
    let fs = model_lines(start_day, lines, days, policy);
    let marked = match marker {
        Some(m) => append_to_open(fs, m),
        None => fs,
    };
    marked.push(new_file_model((marked.last().day + 1) as u64))
}

/// Retention marking never erases written bytes from the account.
proof fn lemma_retention_contents(fs: Seq<FileModel>, day: u64, keep: u8)
    ensures
        contents_of(retention_mark(fs, day, keep)) == contents_of(fs),
{
    assert(retention_mark(fs, day, keep).map_values(|f: FileModel| f.content) =~= fs.map_values(
        |f: FileModel| f.content,
    ));
}

/// Writing to the open file adds exactly the written bytes to the account.
proof fn lemma_append_contents(fs: Seq<FileModel>, bytes: Seq<u8>)
    requires
        fs.len() > 0,
    ensures
        contents_of(append_to_open(fs, bytes)) == contents_of(fs) + bytes,
{
    let g = |f: FileModel| f.content;
    let pre = fs.drop_last();
    pre.lemma_flat_map_push(g, fs.last());
    assert(pre.push(fs.last()) =~= fs);
    let upd = append_to_open(fs, bytes);
    assert(upd.drop_last() =~= pre);
    assert(upd =~= pre.push(upd.last()));
    pre.lemma_flat_map_push(g, upd.last());
    assert(contents_of(upd) =~= contents_of(fs) + bytes);
}

/// Opening a fresh file adds nothing to the account.
proof fn lemma_push_contents(fs: Seq<FileModel>, day: u64)
    ensures
        contents_of(fs.push(new_file_model(day))) == contents_of(fs),
{
    fs.lemma_flat_map_push(|f: FileModel| f.content, new_file_model(day));
    assert(contents_of(fs.push(new_file_model(day))) =~= contents_of(fs));
}

/// The files of a run hold exactly the records, in order.
proof fn lemma_model_lines_contents(
    start_day: u64,
    lines: Seq<Seq<u8>>,
    days: Seq<u64>,
    policy: Option<u8>,
)
    requires
        days.len() == lines.len(),
    ensures
        contents_of(model_lines(start_day, lines, days, policy)) == lines.flatten(),
        model_lines(start_day, lines, days, policy).len() > 0,
    decreases lines.len(),
{
    if lines.len() == 0 {
        let fs = model_lines(start_day, lines, days, policy);
        assert(fs.drop_last() =~= Seq::<FileModel>::empty());
        assert(fs =~= Seq::<FileModel>::empty().push(new_file_model(start_day)));
        lemma_push_contents(Seq::<FileModel>::empty(), start_day);
        assert(contents_of(Seq::<FileModel>::empty()) =~= Seq::<u8>::empty());
        assert(lines.flatten() =~= Seq::<u8>::empty());
    } else {
        let prev = model_lines(start_day, lines.drop_last(), days.drop_last(), policy);
        lemma_model_lines_contents(start_day, lines.drop_last(), days.drop_last(), policy);
        let d = days.last();
        let rotated = if d == prev.last().day {
            prev
        } else {
            model_rotate(prev, d, policy)
        };
        if d != prev.last().day {
            lemma_push_contents(prev, d);
            match policy {
                None => {},
                Some(keep) => {
                    lemma_retention_contents(prev.push(new_file_model(d)), d, keep);
                },
            }
        }
        assert(contents_of(rotated) == contents_of(prev));
        assert(rotated.len() > 0);
        lemma_append_contents(rotated, lines.last());
        lines.drop_last().lemma_flatten_push(lines.last());
        assert(lines.drop_last().push(lines.last()) =~= lines);
        assert(contents_of(model_lines(start_day, lines, days, policy)) == lines.flatten());
    }
}

/// No byte is lost or duplicated: the concatenation of all output files'
/// contents, in rotation order and deleted files included, is exactly the
/// records in order, followed by the diagnostic marker when one was written.
pub proof fn lemma_byte_conservation(
    start_day: u64,
    lines: Seq<Seq<u8>>,
    days: Seq<u64>,
    policy: Option<u8>,
    marker: Option<Seq<u8>>,
)
    requires
        days.len() == lines.len(),
    ensures
        contents_of(run_model(start_day, lines, days, policy, marker)) == lines.flatten()
            + (match marker {
            Some(m) => m,
            None => Seq::<u8>::empty(),
        }),
{
    let fs = model_lines(start_day, lines, days, policy);
    lemma_model_lines_contents(start_day, lines, days, policy);
    let marked = match marker {
        Some(m) => append_to_open(fs, m),
        None => fs,
    };
    match marker {
        Some(m) => {
            lemma_append_contents(fs, m);
        },
        None => {
            assert(lines.flatten() + Seq::<u8>::empty() =~= lines.flatten());
        },
    }
    lemma_push_contents(marked, (marked.last().day + 1) as u64);
}

/// Deleting one file that the retention rule would delete anyway, then
/// applying the rule, is the same as applying the rule directly.
pub proof fn lemma_retention_absorbs_mark(fs: Seq<FileModel>, day0: u64, day: u64, keep: u8)
    requires
        day0 + keep <= day,
        fs.len() > 0,
        fs.last().day != day0,
    ensures
        retention_mark(mark_deleted_day(fs, day0), day, keep) == retention_mark(fs, day, keep),
{
    assert(retention_mark(mark_deleted_day(fs, day0), day, keep) =~= retention_mark(
        fs,
        day,
        keep,
    ));
}

/// When no surviving file lies outside the retention window any more, the
/// rule changes nothing.
pub proof fn lemma_retention_noop(fs: Seq<FileModel>, day: u64, keep: u8)
    requires
        forall|i: int|
            0 <= i < fs.len() - 1 ==> (!(#[trigger] fs[i]).deleted ==> fs[i].day + keep > day),
    ensures
        retention_mark(fs, day, keep) == fs,
{
    assert(retention_mark(fs, day, keep) =~= fs);
}

/// The headline form of conservation: a run over the records of a byte
/// stream, completed without a reader failure, leaves exactly the stream's
/// bytes in its files.
pub proof fn lemma_stream_conservation(
    b: Seq<u8>,
    start_day: u64,
    days: Seq<u64>,
    policy: Option<u8>,
)
    requires
        days.len() == crate::lines::lines_of(b).len(),
    ensures
        contents_of(run_model(start_day, crate::lines::lines_of(b), days, policy, None)) == b,
{
    lemma_byte_conservation(start_day, crate::lines::lines_of(b), days, policy, None);
    crate::lines::lemma_lines_of_flatten(b);
    assert(crate::lines::lines_of(b).flatten() + Seq::<u8>::empty() =~= b);
}

/// The bytes of the records that were observed on day `d`, in order.
pub open spec fn day_bytes(lines: Seq<Seq<u8>>, days: Seq<u64>, d: u64) -> Seq<u8>
    recommends
        days.len() == lines.len(),
    decreases lines.len(),
{
    if lines.len() == 0 {
        Seq::empty()
    } else {
        day_bytes(lines.drop_last(), days.drop_last(), d) + (if days.last() == d {
            lines.last()
        } else {
            Seq::empty()
        })
    }
}

/// A day that never occurs contributes no bytes.
proof fn lemma_day_bytes_absent(lines: Seq<Seq<u8>>, days: Seq<u64>, d: u64)
    requires
        days.len() == lines.len(),
        forall|i: int| 0 <= i < days.len() ==> days[i] != d,
    ensures
        day_bytes(lines, days, d) == Seq::<u8>::empty(),
    decreases lines.len(),
{
    if lines.len() > 0 {
        lemma_day_bytes_absent(lines.drop_last(), days.drop_last(), d);
        assert(days.last() == days[days.len() - 1]);
        assert(day_bytes(lines, days, d) =~= Seq::<u8>::empty());
    }
}

/// Structure of a run's files: there is always at least one file, the open
/// file is the last one and is not deleted, it is stamped with the latest
/// day, and stamps strictly increase along the rotation order.
pub proof fn lemma_model_lines_shape(
    start_day: u64,
    lines: Seq<Seq<u8>>,
    days: Seq<u64>,
    policy: Option<u8>,
)
    requires
        days.len() == lines.len(),
        non_decreasing(days),
        forall|i: int| 0 <= i < days.len() ==> days[i] >= start_day,
    ensures
        ({
            let fs = model_lines(start_day, lines, days, policy);
            &&& fs.len() >= 1
            &&& !fs.last().deleted
            &&& fs.last().day == (if days.len() == 0 {
                start_day
            } else {
                days.last()
            })
            &&& fs[0].day == start_day
            &&& days_increasing(fs)
        }),
    decreases lines.len(),
{
    if lines.len() > 0 {
        lemma_model_lines_shape(start_day, lines.drop_last(), days.drop_last(), policy);
        let prev = model_lines(start_day, lines.drop_last(), days.drop_last(), policy);
        let d = days.last();
        assert(forall|i: int|
            0 <= i < days.len() - 1 ==> days.drop_last()[i] == days[i] && days[i] <= d);
        if d != prev.last().day {
            assert(d > prev.last().day);
            let pushed = prev.push(new_file_model(d));
            assert(forall|i: int| 0 <= i < prev.len() ==> pushed[i] == prev[i]);
            assert(days_increasing(pushed));
        }
    }
}

/// Every record lands in the file stamped with its own logical day, records
/// of equal days share one file, and no two files share a stamp: each file's
/// content is exactly the bytes of the records observed on its day (with the
/// starting day's file possibly left empty).
pub proof fn lemma_lines_by_day(
    start_day: u64,
    lines: Seq<Seq<u8>>,
    days: Seq<u64>,
    policy: Option<u8>,
)
    requires
        days.len() == lines.len(),
        non_decreasing(days),
        forall|i: int| 0 <= i < days.len() ==> days[i] >= start_day,
    ensures
        ({
            let fs = model_lines(start_day, lines, days, policy);
            &&& days_increasing(fs)
            &&& forall|k: int|
                0 <= k < fs.len() ==> (#[trigger] fs[k]).content == day_bytes(
                    lines,
                    days,
                    fs[k].day,
                )
        }),
    decreases lines.len(),
{
    lemma_model_lines_shape(start_day, lines, days, policy);
    let fs = model_lines(start_day, lines, days, policy);
    if lines.len() == 0 {
        assert(fs[0].content =~= day_bytes(lines, days, fs[0].day));
    } else {
        let pl = lines.drop_last();
        let pd = days.drop_last();
        lemma_lines_by_day(start_day, pl, pd, policy);
        lemma_model_lines_shape(start_day, pl, pd, policy);
        let prev = model_lines(start_day, pl, pd, policy);
        let d = days.last();
        let line = lines.last();
        assert(forall|i: int| 0 <= i < pd.len() ==> pd[i] == days[i] && days[i] <= d);
        if d == prev.last().day {
            let res = append_to_open(prev, line);
            assert(fs == res);
            assert forall|k: int| 0 <= k < res.len() implies (#[trigger] res[k]).content
                == day_bytes(lines, days, res[k].day) by {
                if k == res.len() - 1 {
                    assert(res[k].content == prev.last().content + line);
                    assert(day_bytes(lines, days, d) == day_bytes(pl, pd, d) + line);
                } else {
                    assert(res[k] == prev[k]);
                    assert(prev[k].day < prev.last().day);
                    assert(days.last() != prev[k].day);
                    assert(day_bytes(lines, days, res[k].day) =~= day_bytes(pl, pd, res[k].day));
                }
            }
        } else {
            assert(d > prev.last().day);
            let pushed = prev.push(new_file_model(d));
            let rotated = match policy {
                None => pushed,
                Some(keep) => retention_mark(pushed, d, keep),
            };
            assert(rotated.len() == pushed.len());
            assert(forall|k: int|
                0 <= k < pushed.len() ==> (#[trigger] rotated[k]).content == pushed[k].content
                    && rotated[k].day == pushed[k].day);
            let res = append_to_open(rotated, line);
            assert(fs == res);
            assert forall|k: int| 0 <= k < res.len() implies (#[trigger] res[k]).content
                == day_bytes(lines, days, res[k].day) by {
                if k == res.len() - 1 {
                    assert(rotated[k].day == d);
                    assert(rotated[k].content =~= Seq::<u8>::empty());
                    assert(res[k].content =~= line);
                    assert(forall|i: int| 0 <= i < pd.len() ==> pd[i] < d);
                    lemma_day_bytes_absent(pl, pd, d);
                    assert(day_bytes(lines, days, d) =~= line);
                } else {
                    assert(res[k].content == pushed[k].content);
                    assert(res[k].day == pushed[k].day);
                    assert(pushed[k] == prev[k]);
                    assert(prev[k].day <= prev.last().day);
                    assert(days.last() != prev[k].day);
                    assert(day_bytes(lines, days, res[k].day) =~= day_bytes(pl, pd, res[k].day));
                }
            }
        }
    }
}

/// A skipped day gets no file: every file of a run is stamped either with
/// the starting day or with the day of some record.
pub proof fn lemma_no_skipped_days(
    start_day: u64,
    lines: Seq<Seq<u8>>,
    days: Seq<u64>,
    policy: Option<u8>,
)
    requires
        days.len() == lines.len(),
    ensures
        ({
            let fs = model_lines(start_day, lines, days, policy);
            forall|k: int|
                0 <= k < fs.len() ==> ((#[trigger] fs[k]).day == start_day || days.contains(
                    fs[k].day,
                ))
        }),
    decreases lines.len(),
{
    let fs = model_lines(start_day, lines, days, policy);
    if lines.len() > 0 {
        let pl = lines.drop_last();
        let pd = days.drop_last();
        lemma_no_skipped_days(start_day, pl, pd, policy);
        lemma_model_lines_contents(start_day, pl, pd, policy);
        let prev = model_lines(start_day, pl, pd, policy);
        let d = days.last();
        assert(days[days.len() - 1] == d);
        assert(days.contains(d));
        assert forall|dd: u64| pd.contains(dd) implies days.contains(dd) by {
            let i = choose|i: int| 0 <= i < pd.len() && pd[i] == dd;
            assert(days[i] == dd);
        }
        if d == prev.last().day {
            let res = append_to_open(prev, lines.last());
            assert(fs == res);
            assert forall|k: int| 0 <= k < fs.len() implies ((#[trigger] fs[k]).day == start_day
                || days.contains(fs[k].day)) by {
                if k == res.len() - 1 {
                    assert(fs[k].day == prev.last().day);
                    assert(prev.last().day == prev[prev.len() - 1].day);
                } else {
                    assert(fs[k].day == prev[k].day);
                }
            }
        } else {
            let pushed = prev.push(new_file_model(d));
            let rotated = match policy {
                None => pushed,
                Some(keep) => retention_mark(pushed, d, keep),
            };
            assert(rotated.len() == pushed.len());
            assert(forall|k: int|
                0 <= k < pushed.len() ==> (#[trigger] rotated[k]).day == pushed[k].day);
            let res = append_to_open(rotated, lines.last());
            assert(fs == res);
            assert forall|k: int| 0 <= k < fs.len() implies ((#[trigger] fs[k]).day == start_day
                || days.contains(fs[k].day)) by {
                if k == res.len() - 1 {
                    assert(fs[k].day == rotated.last().day);
                    assert(rotated[pushed.len() - 1].day == pushed[pushed.len() - 1].day);
                    assert(fs[k].day == d);
                } else {
                    assert(fs[k].day == rotated[k].day);
                    assert(rotated[k].day == pushed[k].day);
                    assert(pushed[k].day == prev[k].day);
                }
            }
        }
    }
}

/// The whole run creates files only for the starting day, the days of its
/// records, and the single following day that the final close opens and
/// leaves empty: a skipped day gets no file.
pub proof fn lemma_run_no_skipped_days(
    start_day: u64,
    lines: Seq<Seq<u8>>,
    days: Seq<u64>,
    policy: Option<u8>,
    marker: Option<Seq<u8>>,
)
    requires
        days.len() == lines.len(),
    ensures
        ({
            let fs = run_model(start_day, lines, days, policy, marker);
            &&& fs.len() >= 2
            &&& forall|k: int|
                0 <= k < fs.len() - 1 ==> ((#[trigger] fs[k]).day == start_day || days.contains(
                    fs[k].day,
                ))
            &&& fs.last().content == Seq::<u8>::empty()
        }),
{
    lemma_no_skipped_days(start_day, lines, days, policy);
    lemma_model_lines_contents(start_day, lines, days, policy);
    let base = model_lines(start_day, lines, days, policy);
    let marked = match marker {
        Some(m) => append_to_open(base, m),
        None => base,
    };
    let fs = run_model(start_day, lines, days, policy, marker);
    assert(marked.len() == base.len());
    assert forall|k: int| 0 <= k < fs.len() - 1 implies ((#[trigger] fs[k]).day == start_day
        || days.contains(fs[k].day)) by {
        assert(fs[k] == marked[k]);
        assert(marked[k].day == base[k].day);
    }
}

/// After a reader failure every delivered byte is in the files and the last
/// open file ends with the diagnostic marker line.
pub proof fn lemma_failure_report(
    start_day: u64,
    lines: Seq<Seq<u8>>,
    days: Seq<u64>,
    policy: Option<u8>,
    msg: Seq<u8>,
)
    requires
        days.len() == lines.len(),
    ensures
        ({
            let mk = marker_line_of(msg);
            let fs = run_model(start_day, lines, days, policy, Some(mk));
            &&& contents_of(fs) == lines.flatten() + mk
            &&& fs.len() >= 2
            &&& fs[fs.len() - 2].content.len() >= mk.len()
            &&& fs[fs.len() - 2].content.skip(fs[fs.len() - 2].content.len() - mk.len()) == mk
        }),
{
    let mk = marker_line_of(msg);
    lemma_byte_conservation(start_day, lines, days, policy, Some(mk));
    lemma_model_lines_contents(start_day, lines, days, policy);
    let base = model_lines(start_day, lines, days, policy);
    let marked = append_to_open(base, mk);
    let fs = run_model(start_day, lines, days, policy, Some(mk));
    assert(fs[fs.len() - 2] == marked.last());
    assert(marked.last().content == base.last().content + mk);
    assert((base.last().content + mk).skip(base.last().content.len() as int) =~= mk);
}

} // verus!
