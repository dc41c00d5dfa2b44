//! Positions of a piece of text inside the text it was cut from.
use vstd::prelude::*;

verus! {

/// The byte range that a slice of `range_len` bytes starting at address `range_start` takes
/// up inside a text of `whole_len` bytes starting at address `whole_start`. The slice must lie
/// inside the text.
pub fn as_byte_range(whole_start: usize, whole_len: usize, range_start: usize, range_len: usize) -> (r:
    std::ops::Range<usize>)
    requires
        whole_start <= range_start,
        range_start + range_len <= whole_start + whole_len,
        whole_start + whole_len <= usize::MAX,
    ensures
        r.start == range_start - whole_start,
        r.end == r.start + range_len,
        r.end <= whole_len,
{
    let offset = range_start - whole_start;
    offset..(offset + range_len)
}

} // verus!
