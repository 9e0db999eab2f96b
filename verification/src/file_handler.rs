use vstd::prelude::*;
use vstd::string::*;

verus! {

/// The abstract state of one output file: the day it is stamped with, every
/// byte ever written to it, and whether retention has deleted it.  Deleted
/// files keep their content in the model so that contracts can still account
/// for every byte that was written.
#[verifier::ext_equal]
pub struct FileModel {
    pub day: u64,
    pub content: Seq<u8>,
    pub deleted: bool,
}

/// A freshly created file for `day`.
pub open spec fn new_file_model(day: u64) -> FileModel {
    FileModel { day, content: Seq::empty(), deleted: false }
}

/// Every file stamped with `day` marked as deleted.
pub open spec fn mark_deleted_day(fs: Seq<FileModel>, day: u64) -> Seq<FileModel> {
    fs.map(
        |i: int, f: FileModel|
            if f.day == day {
                FileModel { day: f.day, content: f.content, deleted: true }
            } else {
                f
            },
    )
}

/// Why a file operation failed.
#[derive(Debug)]
pub struct FileError {
    pub message: String,
}

/// The file lifecycle capability: creating, writing, deleting and closing
/// date-stamped output files.  Closing hands back a flush handle standing
/// for background completion of the superseded file; handles are spawned
/// and resolved in FIFO order, which the `flush_id` bookkeeping enforces.
pub trait FileHandler: Sized {
    type File;

    type Flush;

    /// Whatever the implementation keeps true between calls.
    spec fn inv(&self) -> bool;

    /// The files created so far, in creation order.
    spec fn files(&self) -> Seq<FileModel>;

    /// How many background flushes have been started.
    spec fn spawned(&self) -> nat;

    /// How many background flushes have been awaited.
    spec fn resolved(&self) -> nat;

    /// Which entry of `files()` an open handle writes to.
    spec fn file_index(f: &Self::File) -> int;

    /// The position of a flush handle in spawn order.
    spec fn flush_id(fl: &Self::Flush) -> nat;

    /// Whether this implementation's operations never fail.
    spec fn infallible() -> bool;

    /// Creates (or opens for appending) the output file for `day`.
    fn create_date_stamped_file(&mut self, dir: &str, prefix: &str, day: u64) -> (r: Result<
        Self::File,
        FileError,
    >)
        requires
            old(self).inv(),
        ensures
            final(self).inv(),
            final(self).spawned() == old(self).spawned(),
            final(self).resolved() == old(self).resolved(),
            match r {
                Ok(f) => {
                    &&& final(self).files() =~= old(self).files().push(new_file_model(day))
                    &&& Self::file_index(&f) == old(self).files().len()
                },
                Err(_) => *final(self) == *old(self) && !Self::infallible(),
            },
    ;

    /// Appends `bytes` to the open file `f`.
    fn write_all(&mut self, f: &mut Self::File, bytes: &Vec<u8>) -> (r: Result<(), FileError>)
        requires
            old(self).inv(),
            0 <= Self::file_index(old(f)) < old(self).files().len(),
        ensures
            final(self).inv(),
            Self::file_index(final(f)) == Self::file_index(old(f)),
            final(self).spawned() == old(self).spawned(),
            final(self).resolved() == old(self).resolved(),
            match r {
                Ok(_) => final(self).files() =~= old(self).files().update(
                    Self::file_index(old(f)),
                    (FileModel {
                        day: old(self).files()[Self::file_index(old(f))].day,
                        content: old(self).files()[Self::file_index(old(f))].content + bytes@,
                        deleted: old(self).files()[Self::file_index(old(f))].deleted,
                    }),
                ),
                Err(_) => *final(self) == *old(self) && !Self::infallible(),
            },
    ;

    /// Removes the file for `day`; a file that does not exist is not an
    /// error.
    fn delete_date_stamped_file(&mut self, dir: &str, prefix: &str, day: u64) -> (r: Result<
        (),
        FileError,
    >)
        requires
            old(self).inv(),
        ensures
            final(self).inv(),
            final(self).spawned() == old(self).spawned(),
            final(self).resolved() == old(self).resolved(),
            match r {
                Ok(_) => final(self).files() =~= mark_deleted_day(old(self).files(), day),
                Err(_) => *final(self) == *old(self) && !Self::infallible(),
            },
    ;

    /// Opens the replacement output for `day` first, then schedules the old
    /// output's flush-and-release in the background, handing back the new
    /// file and a handle to await that completion.
    fn close_file(&mut self, output: Self::File, dir: &str, prefix: &str, day: u64) -> (r: Result<
        (Self::File, Self::Flush),
        FileError,
    >)
        requires
            old(self).inv(),
        ensures
            final(self).inv(),
            final(self).resolved() == old(self).resolved(),
            match r {
                Ok(pair) => {
                    &&& final(self).files() =~= old(self).files().push(new_file_model(day))
                    &&& Self::file_index(&pair.0) == old(self).files().len()
                    &&& Self::flush_id(&pair.1) == old(self).spawned()
                    &&& final(self).spawned() == old(self).spawned() + 1
                },
                Err(_) => *final(self) == *old(self) && !Self::infallible()
                    && final(self).spawned() == old(self).spawned(),
            },
    ;

    /// Whether the background work behind `fl` has already completed.
    fn flush_is_finished(&self, fl: &Self::Flush) -> bool;

    /// Awaits the background flush `fl`.  A failed flush is reported, but
    /// the handle counts as resolved either way.
    fn resolve_flush(&mut self, fl: Self::Flush) -> (r: Result<(), FileError>)
        requires
            old(self).inv(),
            Self::flush_id(&fl) == old(self).resolved(),
            old(self).resolved() < old(self).spawned(),
        ensures
            final(self).inv(),
            final(self).files() =~= old(self).files(),
            final(self).spawned() == old(self).spawned(),
            final(self).resolved() == old(self).resolved() + 1,
    ;
}

/// One file of the in-memory store.
pub struct InMemFileEntry {
    pub day: u64,
    pub content: Vec<u8>,
    pub deleted: bool,
}

/// A file store that keeps everything in memory: the deterministic
/// implementation of the file lifecycle, also the replayable one for tests.
/// Deleted files stay in `entries` under a mark, so a run's whole history
/// can be inspected afterwards.
pub struct InMemFileHandler {
    pub entries: Vec<InMemFileEntry>,
    pub spawned_count: usize,
    pub resolved_count: usize,
}

/// An open handle into the in-memory store.
pub struct InMemFile {
    pub index: usize,
}

/// A flush handle of the in-memory store; its work is already done when it
/// is created, so it only carries its position in spawn order.
pub struct InMemFlush {
    pub id: usize,
}

impl InMemFileHandler {
    pub fn new() -> (h: InMemFileHandler)
        ensures
            h.inv(),
            h.files() =~= Seq::<FileModel>::empty(),
            h.spawned() == 0,
            h.resolved() == 0,
    {
        let h = InMemFileHandler { entries: Vec::new(), spawned_count: 0, resolved_count: 0 };
        proof {
            assert(h.files() =~= Seq::<FileModel>::empty());
        }
        h
    }
}

impl FileHandler for InMemFileHandler {
    type File = InMemFile;

    type Flush = InMemFlush;

    open spec fn inv(&self) -> bool {
        self.resolved_count <= self.spawned_count <= self.entries@.len()
    }

    open spec fn files(&self) -> Seq<FileModel> {
        self.entries@.map_values(
            |e: InMemFileEntry| FileModel { day: e.day, content: e.content@, deleted: e.deleted },
        )
    }

    open spec fn spawned(&self) -> nat {
        self.spawned_count as nat
    }

    open spec fn resolved(&self) -> nat {
        self.resolved_count as nat
    }

    open spec fn file_index(f: &InMemFile) -> int {
        f.index as int
    }

    open spec fn flush_id(fl: &InMemFlush) -> nat {
        fl.id as nat
    }

    open spec fn infallible() -> bool {
        true
    }

    fn create_date_stamped_file(&mut self, dir: &str, prefix: &str, day: u64) -> (r: Result<
        InMemFile,
        FileError,
    >) {
        let idx = self.entries.len();
        self.entries.push(InMemFileEntry { day, content: Vec::new(), deleted: false });
        proof {
            assert(self.files() =~~= old(self).files().push(new_file_model(day)));
        }
        Ok(InMemFile { index: idx })
    }

    fn write_all(&mut self, f: &mut InMemFile, bytes: &Vec<u8>) -> (r: Result<(), FileError>) {
        let i = f.index;
        let mut e = self.entries.remove(i);
        e.content.extend_from_slice(bytes.as_slice());
        self.entries.insert(i, e);
        proof {
            assert(self.entries@ =~= old(self).entries@.update(
                i as int,
                InMemFileEntry {
                    day: old(self).entries@[i as int].day,
                    content: self.entries@[i as int].content,
                    deleted: old(self).entries@[i as int].deleted,
                },
            ));
            assert(self.files() =~~= old(self).files().update(
                i as int,
                (FileModel {
                    day: old(self).files()[i as int].day,
                    content: old(self).files()[i as int].content + bytes@,
                    deleted: old(self).files()[i as int].deleted,
                }),
            ));
        }
        Ok(())
    }

    fn delete_date_stamped_file(&mut self, dir: &str, prefix: &str, day: u64) -> (r: Result<
        (),
        FileError,
    >) {
        let n = self.entries.len();
        let mut i: usize = 0;
        while i < n
            invariant
                i <= n,
                n == self.entries@.len(),
                n == old(self).entries@.len(),
                self.spawned_count == old(self).spawned_count,
                self.resolved_count == old(self).resolved_count,
                forall|j: int|
                    0 <= j < i ==> #[trigger] self.entries@[j] == (if old(
                        self,
                    ).entries@[j].day == day {
                        InMemFileEntry {
                            day: old(self).entries@[j].day,
                            content: old(self).entries@[j].content,
                            deleted: true,
                        }
                    } else {
                        old(self).entries@[j]
                    }),
                forall|j: int| i <= j < n ==> #[trigger] self.entries@[j] == old(self).entries@[j],
            decreases n - i,
        {
            if self.entries[i].day == day {
                let mut e = self.entries.remove(i);
                e.deleted = true;
                self.entries.insert(i, e);
                proof {
                    assert forall|j: int| 0 <= j < n implies #[trigger] self.entries@[j] == (if j
                        == i {
                        InMemFileEntry {
                            day: old(self).entries@[j].day,
                            content: old(self).entries@[j].content,
                            deleted: true,
                        }
                    } else if j < i && old(self).entries@[j].day == day {
                        InMemFileEntry {
                            day: old(self).entries@[j].day,
                            content: old(self).entries@[j].content,
                            deleted: true,
                        }
                    } else {
                        old(self).entries@[j]
                    }) by {
                        if j < i {
                        } else if j == i {
                        } else {
                        }
                    }
                }
            }
            i = i + 1;
        }
        proof {
            assert(self.files() =~~= mark_deleted_day(old(self).files(), day));
        }
        Ok(())
    }

    fn close_file(&mut self, output: InMemFile, dir: &str, prefix: &str, day: u64) -> (r: Result<
        (InMemFile, InMemFlush),
        FileError,
    >) {
        let idx = self.entries.len();
        self.entries.push(InMemFileEntry { day, content: Vec::new(), deleted: false });
        let n = self.entries.len();
        let fl = InMemFlush { id: self.spawned_count };
        self.spawned_count = self.spawned_count + 1;
        proof {
            assert(self.files() =~~= old(self).files().push(new_file_model(day)));
        }
        Ok((InMemFile { index: idx }, fl))
    }

    fn flush_is_finished(&self, fl: &InMemFlush) -> (r: bool)
        ensures
            r == true,
    {
        true
    }

    fn resolve_flush(&mut self, fl: InMemFlush) -> (r: Result<(), FileError>) {
        self.resolved_count = self.resolved_count + 1;
        Ok(())
    }
}

fn refusal() -> FileError {
    FileError { message: "the store refuses all operations".to_owned() }
}

/// An in-memory store with fault injection: it behaves like
/// `InMemFileHandler` except that the operations whose flags are set fail.
/// It exercises each fatal path of a run separately.
pub struct FlakyFileHandler {
    pub entries: Vec<InMemFileEntry>,
    pub spawned_count: usize,
    pub resolved_count: usize,
    pub fail_create: bool,
    pub fail_write: bool,
    pub fail_delete: bool,
    pub fail_close: bool,
}

impl FlakyFileHandler {
    /// A store whose operations all succeed until a flag is set.
    pub fn new() -> (h: FlakyFileHandler)
        ensures
            h.inv(),
            h.files() =~= Seq::<FileModel>::empty(),
            h.spawned() == 0,
            h.resolved() == 0,
            !h.fail_create && !h.fail_write && !h.fail_delete && !h.fail_close,
    {
        let h = FlakyFileHandler {
            entries: Vec::new(),
            spawned_count: 0,
            resolved_count: 0,
            fail_create: false,
            fail_write: false,
            fail_delete: false,
            fail_close: false,
        };
        proof {
            assert(h.files() =~= Seq::<FileModel>::empty());
        }
        h
    }
}

impl FileHandler for FlakyFileHandler {
    type File = InMemFile;

    type Flush = InMemFlush;

    open spec fn inv(&self) -> bool {
        self.resolved_count <= self.spawned_count <= self.entries@.len()
    }

    open spec fn files(&self) -> Seq<FileModel> {
        self.entries@.map_values(
            |e: InMemFileEntry| FileModel { day: e.day, content: e.content@, deleted: e.deleted },
        )
    }

    open spec fn spawned(&self) -> nat {
        self.spawned_count as nat
    }

    open spec fn resolved(&self) -> nat {
        self.resolved_count as nat
    }

    open spec fn file_index(f: &InMemFile) -> int {
        f.index as int
    }

    open spec fn flush_id(fl: &InMemFlush) -> nat {
        fl.id as nat
    }

    open spec fn infallible() -> bool {
        false
    }

    fn create_date_stamped_file(&mut self, dir: &str, prefix: &str, day: u64) -> (r: Result<
        InMemFile,
        FileError,
    >) {
        if self.fail_create {
            return Err(refusal());
        }
        let idx = self.entries.len();
        self.entries.push(InMemFileEntry { day, content: Vec::new(), deleted: false });
        proof {
            assert(self.files() =~~= old(self).files().push(new_file_model(day)));
        }
        Ok(InMemFile { index: idx })
    }

    fn write_all(&mut self, f: &mut InMemFile, bytes: &Vec<u8>) -> (r: Result<(), FileError>) {
        if self.fail_write {
            return Err(refusal());
        }
        let i = f.index;
        let mut e = self.entries.remove(i);
        e.content.extend_from_slice(bytes.as_slice());
        self.entries.insert(i, e);
        proof {
            assert(self.entries@ =~= old(self).entries@.update(
                i as int,
                InMemFileEntry {
                    day: old(self).entries@[i as int].day,
                    content: self.entries@[i as int].content,
                    deleted: old(self).entries@[i as int].deleted,
                },
            ));
            assert(self.files() =~~= old(self).files().update(
                i as int,
                (FileModel {
                    day: old(self).files()[i as int].day,
                    content: old(self).files()[i as int].content + bytes@,
                    deleted: old(self).files()[i as int].deleted,
                }),
            ));
        }
        Ok(())
    }

    fn delete_date_stamped_file(&mut self, dir: &str, prefix: &str, day: u64) -> (r: Result<
        (),
        FileError,
    >) {
        if self.fail_delete {
            return Err(refusal());
        }
        let n = self.entries.len();
        let mut i: usize = 0;
        while i < n
            invariant
                i <= n,
                n == self.entries@.len(),
                n == old(self).entries@.len(),
                self.spawned_count == old(self).spawned_count,
                self.resolved_count == old(self).resolved_count,
                forall|j: int|
                    0 <= j < i ==> #[trigger] self.entries@[j] == (if old(
                        self,
                    ).entries@[j].day == day {
                        InMemFileEntry {
                            day: old(self).entries@[j].day,
                            content: old(self).entries@[j].content,
                            deleted: true,
                        }
                    } else {
                        old(self).entries@[j]
                    }),
                forall|j: int| i <= j < n ==> #[trigger] self.entries@[j] == old(self).entries@[j],
            decreases n - i,
        {
            if self.entries[i].day == day {
                let mut e = self.entries.remove(i);
                e.deleted = true;
                self.entries.insert(i, e);
                proof {
                    assert forall|j: int| 0 <= j < n implies #[trigger] self.entries@[j] == (if j
                        == i {
                        InMemFileEntry {
                            day: old(self).entries@[j].day,
                            content: old(self).entries@[j].content,
                            deleted: true,
                        }
                    } else if j < i && old(self).entries@[j].day == day {
                        InMemFileEntry {
                            day: old(self).entries@[j].day,
                            content: old(self).entries@[j].content,
                            deleted: true,
                        }
                    } else {
                        old(self).entries@[j]
                    }) by {
                        if j < i {
                        } else if j == i {
                        } else {
                        }
                    }
                }
            }
            i = i + 1;
        }
        proof {
            assert(self.files() =~~= mark_deleted_day(old(self).files(), day));
        }
        Ok(())
    }

    fn close_file(&mut self, output: InMemFile, dir: &str, prefix: &str, day: u64) -> (r: Result<
        (InMemFile, InMemFlush),
        FileError,
    >) {
        if self.fail_close {
            return Err(refusal());
        }
        let idx = self.entries.len();
        self.entries.push(InMemFileEntry { day, content: Vec::new(), deleted: false });
        let n = self.entries.len();
        let fl = InMemFlush { id: self.spawned_count };
        self.spawned_count = self.spawned_count + 1;
        proof {
            assert(self.files() =~~= old(self).files().push(new_file_model(day)));
        }
        Ok((InMemFile { index: idx }, fl))
    }

    fn flush_is_finished(&self, fl: &InMemFlush) -> (r: bool)
        ensures
            r == true,
    {
        true
    }

    fn resolve_flush(&mut self, fl: InMemFlush) -> (r: Result<(), FileError>) {
        self.resolved_count = self.resolved_count + 1;
        Ok(())
    }
}

/// What chrono prints for a calendar day (counted from the epoch) under the
/// `%Y%m%d` format.
pub uninterp spec fn date_stamp_of(epoch_day: i32) -> Seq<u8>;

/// Relies on chrono::NaiveDate::from_epoch_days (day 0 is 1970-01-01) and
/// NaiveDate::format with "%Y%m%d": the printed stamp is a function of the
/// day number alone, and day numbers up to 11,000,000 (far beyond the year
/// 9999) are well inside the documented range.  Within that range distinct
/// days print distinct stamps: the year is written zero-padded to at least
/// four digits, the month and day to exactly two, so stamps of equal length
/// decompose uniquely and stamps of different year widths differ in length.
#[verifier::external_body]
fn format_day_stamp(epoch_day: i32) -> (r: Option<Vec<u8>>)
    ensures
        (match r {
            Some(v) => v@ == date_stamp_of(epoch_day),
            None => true,
        }),
        0 <= epoch_day <= 11_000_000 ==> r is Some,
        (match r {
            Some(v) => 0 <= epoch_day <= 11_000_000 ==> (forall|other: i32|
                0 <= other <= 11_000_000 && other != epoch_day ==> #[trigger] date_stamp_of(other)
                    != v@),
            None => true,
        }),
{
    chrono::NaiveDate::from_epoch_days(epoch_day).map(
        |d| d.format("%Y%m%d").to_string().into_bytes(),
    )
}

/// The byte representation of a day's output path: `{dir}/{prefix}-{stamp}`.
pub open spec fn stamped_path_bytes(dir: Seq<u8>, prefix: Seq<u8>, epoch_day: i32) -> Seq<u8> {
    dir + seq![47u8] + prefix + seq![45u8] + date_stamp_of(epoch_day)
}

/// Builds the path of the output file for `day`: the directory, a slash, the
/// prefix, a dash, and the day printed as `%Y%m%d`.  `None` when the day is
/// beyond what the calendar can print.  Within the supported range, distinct
/// days never collide on one path.
pub fn date_stamped_path(dir: &str, prefix: &str, day: u64) -> (r: Option<Vec<u8>>)
    ensures
        (match r {
            Some(p) => day <= i32::MAX && p@ == stamped_path_bytes(
                dir.spec_bytes(),
                prefix.spec_bytes(),
                day as i32,
            ),
            None => true,
        }),
        day <= 11_000_000 ==> r is Some,
        (match r {
            Some(p) => day <= 11_000_000 ==> (forall|other: u64|
                other <= 11_000_000 && other != day ==> p@ != #[trigger] stamped_path_bytes(
                    dir.spec_bytes(),
                    prefix.spec_bytes(),
                    other as i32,
                )),
            None => true,
        }),
{
    if day > 0x7fff_ffff {
        return None;
    }
    match format_day_stamp(day as i32) {
        None => None,
        Some(stamp) => {
            let mut out: Vec<u8> = Vec::new();
            out.extend_from_slice(dir.as_bytes());
            out.push(47);
            out.extend_from_slice(prefix.as_bytes());
            out.push(45);
            out.extend_from_slice(stamp.as_slice());
            proof {
                let head = dir.spec_bytes() + seq![47u8] + prefix.spec_bytes() + seq![45u8];
                assert(out@ =~= stamped_path_bytes(
                    dir.spec_bytes(),
                    prefix.spec_bytes(),
                    day as i32,
                ));
                if day <= 11_000_000 {
                    assert forall|other: u64|
                        other <= 11_000_000 && other != day implies out@
                        != #[trigger] stamped_path_bytes(
                        dir.spec_bytes(),
                        prefix.spec_bytes(),
                        other as i32,
                    ) by {
                        let a = head + date_stamp_of(day as i32);
                        let b = head + date_stamp_of(other as i32);
                        assert(date_stamp_of(other as i32) != stamp@);
                        if a == b {
                            assert(a.skip(head.len() as int) =~= date_stamp_of(day as i32));
                            assert(b.skip(head.len() as int) =~= date_stamp_of(other as i32));
                            assert(false);
                        }
                        assert(out@ =~= a);
                        assert(stamped_path_bytes(
                            dir.spec_bytes(),
                            prefix.spec_bytes(),
                            other as i32,
                        ) =~= b);
                    }
                }
            }
            Some(out)
        },
    }
}

} // verus!
