use vstd::prelude::*;

verus! {

/// What the engine needs to know about its surroundings: where output files
/// live, how their names begin, and how many days of files to keep.
///
/// `delete_after`, when present, is a retention window in days: on every
/// rotation to a new day `d` driven by an incoming record, files stamped
/// with a day `x` such that `x + delete_after <= d` are removed.  The final
/// synthetic close at shutdown (to the following day) rotates but does not
/// apply the window.  `None` disables deletion.
pub struct Config {
    pub dir: String,
    pub prefix: String,
    pub delete_after: Option<u8>,
}

} // verus!
