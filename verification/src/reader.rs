use vstd::prelude::*;

use crate::clock::{Clock, Duration, Timestamp};
use crate::lines::{line_break, next_line};

verus! {

/// Copies a byte vector.
pub fn copy_bytes(src: &Vec<u8>) -> (r: Vec<u8>)
    ensures
        r@ == src@,
{
    let mut out: Vec<u8> = Vec::new();
    let mut i: usize = 0;
    while i < src.len()
        invariant
            i <= src@.len(),
            out@ == src@.take(i as int),
        decreases src@.len() - i,
    {
        out.push(src[i]);
        i = i + 1;
        proof {
            assert(out@ =~= src@.take(i as int));
        }
    }
    proof {
        assert(out@ =~= src@);
    }
    out
}

/// An in-memory byte stream.  Besides the bytes it can carry a planted
/// failure: the read attempt whose index equals `fail_after` reports an
/// error with `fail_msg` instead of bytes, which deterministically replays
/// a source that dies mid-stream.
pub struct ByteSource {
    pub data: Vec<u8>,
    pub pos: usize,
    pub reads: usize,
    pub fail_after: Option<usize>,
    pub fail_msg: Vec<u8>,
}

impl ByteSource {
    pub open spec fn wf(self) -> bool {
        &&& self.pos <= self.data@.len()
        &&& self.reads <= self.pos
    }

    /// The bytes not yet served.
    pub open spec fn remaining(self) -> Seq<u8> {
        self.data@.skip(self.pos as int)
    }

    /// Whether the next read attempt is the one the planted failure replaces.
    pub open spec fn failing_now(self) -> bool {
        self.fail_after == Some(self.reads)
    }

    pub fn new(data: Vec<u8>) -> (s: ByteSource)
        ensures
            s.wf(),
            s.data@ == data@,
            s.pos == 0,
            s.reads == 0,
            s.fail_after is None,
    {
        ByteSource { data, pos: 0, reads: 0, fail_after: None, fail_msg: Vec::new() }
    }

    /// A source that serves its bytes normally but fails in place of the
    /// read attempt with index `after_reads` (counting from zero).
    pub fn failing(data: Vec<u8>, after_reads: usize, msg: Vec<u8>) -> (s: ByteSource)
        ensures
            s.wf(),
            s.data@ == data@,
            s.pos == 0,
            s.reads == 0,
            s.fail_after == Some(after_reads),
            s.fail_msg@ == msg@,
    {
        ByteSource { data, pos: 0, reads: 0, fail_after: Some(after_reads), fail_msg: msg }
    }
}

/// What one read of the stream produced: the end of the stream, or one
/// record together with the calendar day it was observed on.
#[derive(Debug)]
pub enum ReaderOutput {
    Eof,
    Line(u64),
}

/// Why a read failed: the underlying source reported an error, or advancing
/// the logical clock left the representable range of time.
#[derive(Debug)]
pub enum LineError {
    Source(Vec<u8>),
    TimeOverflow,
}

/// The text reported when the logical clock leaves its representable range.
pub open spec fn overflow_msg() -> Seq<u8> {
    seq![116u8, 105u8, 109u8, 101u8, 32u8, 111u8, 118u8, 101u8, 114u8, 102u8, 108u8, 111u8, 119u8]
}

impl LineError {
    /// The text that describes this failure.
    pub open spec fn message_spec(self) -> Seq<u8> {
        match self {
            LineError::Source(m) => m@,
            LineError::TimeOverflow => overflow_msg(),
        }
    }

    pub fn message(&self) -> (m: Vec<u8>)
        ensures
            m@ == self.message_spec(),
    {
        match self {
            LineError::Source(m) => copy_bytes(m),
            LineError::TimeOverflow => {
                let mut v: Vec<u8> = Vec::new();
                v.push(116);
                v.push(105);
                v.push(109);
                v.push(101);
                v.push(32);
                v.push(111);
                v.push(118);
                v.push(101);
                v.push(114);
                v.push(102);
                v.push(108);
                v.push(111);
                v.push(119);
                proof {
                    assert(v@ =~= overflow_msg());
                }
                v
            },
        }
    }
}

/// When a scan of `b` saw no line break before index `k` and stops at `k`
/// (either a break or the end), the first record is exactly the bytes up to
/// and including the break.
proof fn lemma_next_line_scan(b: Seq<u8>, k: int)
    requires
        0 <= k <= b.len(),
        forall|j: int| 0 <= j < k ==> b[j] != line_break(),
        k == b.len() || b[k] == line_break(),
    ensures
        next_line(b) == b.take(if k < b.len() { k + 1 } else { k }),
    decreases k,
{
    if b.len() == 0 {
        assert(next_line(b) =~= b.take(0));
    } else if k == 0 {
        if k < b.len() {
            assert(next_line(b) =~= b.take(1));
        } else {
            assert(next_line(b) =~= b.take(0));
        }
    } else {
        lemma_next_line_scan(b.skip(1), k - 1);
        let t = if k < b.len() { k + 1 } else { k };
        assert(next_line(b) =~= b.take(t));
    }
}

/// Extracts newline-terminated records from a byte source and stamps each
/// with the calendar day of an accumulating logical clock: on every record
/// the elapsed time reported by the clock is added to the running timestamp,
/// so real elapsed time maps one-for-one onto logical time.
pub struct Reader<C: Clock> {
    pub input: ByteSource,
    pub clock: C,
    pub instant: C::Instant,
    pub now: Timestamp,
}

impl<C: Clock> Reader<C> {
    pub open spec fn wf(self) -> bool {
        &&& self.input.wf()
        &&& self.now.wf()
        &&& self.clock.inv()
    }

    /// Builds a reader whose logical time starts at `start`.
    pub fn new(clock: C, input: ByteSource, start: Timestamp) -> (r: Reader<C>)
        requires
            clock.inv(),
            input.wf(),
            start.wf(),
        ensures
            r.wf(),
            r.input == input,
            r.now == start,
            r.clock == clock,
    {
        let mut clock = clock;
        let instant = clock.now();
        Reader { input, clock, instant, now: start }
    }

    /// Reads one record.  On success the record's bytes replace the contents
    /// of `read_buf` and the record's logical day is returned; at the end of
    /// the stream nothing changes.  On a failure — the source's planted error
    /// or a logical-clock overflow — the source is left exactly where it was,
    /// so no bytes are silently consumed.
    pub fn read_line(&mut self, read_buf: &mut Vec<u8>) -> (r: Result<ReaderOutput, LineError>)
        requires
            old(self).wf(),
        ensures
            final(self).wf(),
            final(self).input.data == old(self).input.data,
            final(self).input.fail_after == old(self).input.fail_after,
            final(self).input.fail_msg == old(self).input.fail_msg,
            final(self).now.total_nanos() >= old(self).now.total_nanos(),
            match r {
                Ok(ReaderOutput::Line(day)) => {
                    let rem = old(self).input.remaining();
                    &&& !old(self).input.failing_now()
                    &&& rem.len() > 0
                    &&& final(read_buf)@ == next_line(rem)
                    &&& final(self).input.remaining() == rem.skip(next_line(rem).len() as int)
                    &&& final(self).input.reads == old(self).input.reads + 1
                    &&& day == final(self).now.day()
                    &&& final(self).now.day() >= old(self).now.day()
                    &&& exists|e: Duration|
                        {
                            &&& e.wf()
                            &&& old(self).clock.elapsed_rel(e, final(self).clock)
                            &&& final(self).now.total_nanos() == old(self).now.total_nanos()
                                + e.total_nanos()
                        }
                },
                Ok(ReaderOutput::Eof) => {
                    &&& !old(self).input.failing_now()
                    &&& old(self).input.remaining().len() == 0
                    &&& *final(self) == *old(self)
                    &&& *final(read_buf) == *old(read_buf)
                },
                Err(e) => {
                    &&& final(self).input == old(self).input
                    &&& *final(read_buf) == *old(read_buf)
                    &&& final(self).now == old(self).now
                    &&& match e {
                        LineError::Source(m) => {
                            &&& old(self).input.failing_now()
                            &&& m@ == old(self).input.fail_msg@
                            &&& *final(self) == *old(self)
                        },
                        LineError::TimeOverflow => {
                            &&& !old(self).input.failing_now()
                            &&& old(self).input.remaining().len() > 0
                            &&& exists|e2: Duration|
                                {
                                    &&& e2.wf()
                                    &&& old(self).clock.elapsed_rel(e2, final(self).clock)
                                    &&& old(self).now.total_nanos() + e2.total_nanos() > u64::MAX
                                        * 1_000_000_000 + 999_999_999
                                }
                        },
                    }
                },
            },
    {
        let failing = match self.input.fail_after {
            Some(k) => k == self.input.reads,
            None => false,
        };
        if failing {
            return Err(LineError::Source(copy_bytes(&self.input.fail_msg)));
        }
        let data_len = self.input.data.len();
        if self.input.pos == data_len {
            return Ok(ReaderOutput::Eof);
        }
        let ghost rem = self.input.remaining();
        let pos = self.input.pos;

        // Find the end of the record: one past the first line break, or the
        // end of the data.
        let mut end: usize = pos;
        while end < data_len && self.input.data[end] != 10
            invariant
                pos <= end <= data_len,
                data_len == self.input.data@.len(),
                forall|j: int| pos <= j < end ==> self.input.data@[j] != line_break(),
            decreases data_len - end,
        {
            end = end + 1;
        }
        let line_end = if end < data_len {
            end + 1
        } else {
            end
        };
        proof {
            lemma_next_line_scan(rem, end - pos);
            assert(rem.take(line_end - pos) =~= self.input.data@.subrange(
                pos as int,
                line_end as int,
            ));
        }

        // Advance the logical clock by the elapsed time of this read.
        let d = self.clock.elapsed(&mut self.instant);
        match self.now.checked_add(d) {
            None => Err(LineError::TimeOverflow),
            Some(t) => {
                self.now = t;
                read_buf.clear();
                let mut j = pos;
                while j < line_end
                    invariant
                        pos <= j <= line_end <= self.input.data@.len(),
                        read_buf@ == self.input.data@.subrange(pos as int, j as int),
                    decreases line_end - j,
                {
                    let b = self.input.data[j];
                    read_buf.push(b);
                    j = j + 1;
                    proof {
                        assert(read_buf@ =~= self.input.data@.subrange(pos as int, j as int));
                    }
                }
                self.input.pos = line_end;
                self.input.reads = self.input.reads + 1;
                proof {
                    assert(self.input.remaining() =~= rem.skip(next_line(rem).len() as int));
                }
                Ok(ReaderOutput::Line(self.now.compute_day()))
            },
        }
    }
}

} // verus!
