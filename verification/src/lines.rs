use vstd::prelude::*;

verus! {

/// The byte that ends a record.
pub open spec fn line_break() -> u8 {
    10
}

/// The first record of a byte stream: the shortest prefix that ends with a
/// line break, or the whole stream when it holds none.
pub open spec fn next_line(b: Seq<u8>) -> Seq<u8>
    decreases b.len(),
{
    if b.len() == 0 {
        Seq::empty()
    } else if b[0] == line_break() {
        seq![b[0]]
    } else {
        seq![b[0]] + next_line(b.skip(1))
    }
}

/// The first record is a non-empty prefix of a non-empty stream.
pub proof fn lemma_next_line_shape(b: Seq<u8>)
    requires
        b.len() > 0,
    ensures
        1 <= next_line(b).len() <= b.len(),
        next_line(b) == b.take(next_line(b).len() as int),
    decreases b.len(),
{
    if b[0] == line_break() {
        assert(next_line(b) =~= b.take(1));
    } else if b.skip(1).len() == 0 {
        assert(next_line(b.skip(1)) =~= Seq::<u8>::empty());
        assert(next_line(b) =~= b.take(1));
    } else {
        lemma_next_line_shape(b.skip(1));
        let n = next_line(b.skip(1)).len() as int;
        assert(next_line(b) =~= b.take(n + 1));
    }
}

/// A byte stream split into records, in order.
pub open spec fn lines_of(b: Seq<u8>) -> Seq<Seq<u8>>
    decreases b.len(),
    via lines_of_termination
{
    if b.len() == 0 {
        Seq::empty()
    } else {
        seq![next_line(b)] + lines_of(b.skip(next_line(b).len() as int))
    }
}

#[via_fn]
proof fn lines_of_termination(b: Seq<u8>) {
    if b.len() > 0 {
        lemma_next_line_shape(b);
    }
}

/// Splitting a stream into records loses and duplicates nothing: the records
/// concatenated in order are the stream.
pub proof fn lemma_lines_of_flatten(b: Seq<u8>)
    ensures
        lines_of(b).flatten() == b,
    decreases b.len(),
{
    if b.len() == 0 {
        assert(lines_of(b).flatten() =~= b);
    } else {
        lemma_next_line_shape(b);
        let n = next_line(b).len() as int;
        let rest = b.skip(n);
        lemma_lines_of_flatten(rest);
        let l = lines_of(b);
        assert(l.first() == next_line(b));
        assert(l.drop_first() =~= lines_of(rest));
        assert(lines_of(b).flatten() =~= b);
    }
}

} // verus!
