//! Bounds-checked reading of SSH wire-format length-prefixed strings.

use crate::keys::ReadError;
use vstd::prelude::*;
use vstd::slice::slice_subrange;

verus! {

/// The 32-bit big-endian number stored at `d[off..off + 4]`.
pub open spec fn be_u32_at(d: Seq<u8>, off: int) -> nat {
    (d[off] as nat) * 16777216 + (d[off + 1] as nat) * 65536 + (d[off + 2] as nat) * 256 + (
    d[off + 3] as nat)
}

/// The length prefix at `off`, when four bytes are there to hold it.
pub open spec fn length_at(d: Seq<u8>, off: int) -> Option<nat> {
    if 0 <= off && off + 4 <= d.len() {
        Some(be_u32_at(d, off))
    } else {
        None
    }
}

/// The content range `(start, end)` of the SSH string at `off`, read from
/// its length prefix alone: the end is not held against the end of `d`. An
/// end past the largest `usize` cannot be represented and gives `None`.
pub open spec fn string_range_at(d: Seq<u8>, off: int) -> Option<(int, int)> {
    match length_at(d, off) {
        Some(n) => if off + 4 + n <= usize::MAX {
            Some((off + 4, off + 4 + n))
        } else {
            None
        },
        None => None,
    }
}

/// The content range of the SSH string at `off`, when its whole content
/// lies inside `d`.
pub open spec fn string_at(d: Seq<u8>, off: int) -> Option<(int, int)> {
    match string_range_at(d, off) {
        Some((start, end)) => if end <= d.len() {
            Some((start, end))
        } else {
            None
        },
        None => None,
    }
}

/// The offset reached after skipping `k` consecutive SSH strings from `off`.
pub open spec fn skip_strings(d: Seq<u8>, off: int, k: nat) -> Option<int>
    decreases k,
{
    if k == 0 {
        Some(off)
    } else {
        match string_range_at(d, off) {
            Some((_, end)) => skip_strings(d, end, (k - 1) as nat),
            None => None,
        }
    }
}

/// Reads the big-endian length prefix at `offset`.
pub fn read_u32(data: &[u8], offset: usize) -> (r: Result<usize, ReadError>)
    ensures
        match r {
            Ok(n) => length_at(data@, offset as int) == Some(n as nat),
            Err(e) => e == ReadError::Underrun && length_at(data@, offset as int) is None,
        },
{
    let len = data.len();
    if offset < len && (len - offset) >= 4 {
        let v: u32 = (data[offset] as u32) * 16777216 + (data[offset + 1] as u32) * 65536 + (data[offset
            + 2] as u32) * 256 + (data[offset + 3] as u32);
        Ok(v as usize)
    } else {
        Err(ReadError::Underrun)
    }
}

/// Skips the SSH string at `offset`, returning the offset just past its
/// content as its length prefix declares it; the content itself is not read.
pub fn skip_string(data: &[u8], offset: usize) -> (r: Result<usize, ReadError>)
    ensures
        match r {
            Ok(next) => skip_strings(data@, offset as int, 1) == Some(next as int),
            Err(e) => e == ReadError::Underrun && skip_strings(data@, offset as int, 1) is None,
        },
{
    let range = get_string(data, offset)?;
    proof {
        reveal_with_fuel(skip_strings, 2);
    }
    Ok(range.end)
}

/// The content range of the SSH string at `offset`, from its length prefix.
/// The end is not checked against `data`: whoever slices `data` with the
/// range does that. `Underrun` where the four length bytes are not there.
pub fn get_string(data: &[u8], offset: usize) -> (r: Result<core::ops::Range<usize>, ReadError>)
    ensures
        match r {
            Ok(range) => string_range_at(data@, offset as int) == Some(
                (range.start as int, range.end as int),
            ),
            Err(e) => e == ReadError::Underrun && string_range_at(data@, offset as int) is None,
        },
{
    let len = read_u32(data, offset)?;
    let total = data.len();
    assert(offset + 4 <= total);
    let start = offset + 4;
    if len <= usize::MAX - start {
        Ok(start..start + len)
    } else {
        Err(ReadError::Underrun)
    }
}

/// The bytes of `data` in `range`, or `Underrun` where the range does not lie
/// inside `data`.
pub fn slice_range<'a>(data: &'a [u8], range: &core::ops::Range<usize>) -> (r: Result<&'a [u8], ReadError>)
    ensures
        match r {
            Ok(s) => range.start <= range.end <= data@.len() && s@ == data@.subrange(
                range.start as int,
                range.end as int,
            ),
            Err(e) => e == ReadError::Underrun && !(range.start <= range.end <= data@.len()),
        },
{
    if range.start <= range.end && range.end <= data.len() {
        Ok(slice_subrange(data, range.start, range.end))
    } else {
        Err(ReadError::Underrun)
    }
}

/// A length prefix read from a prefix of `d` is the same in `d`.
pub proof fn lemma_string_range_at_prefix(d: Seq<u8>, n: int, off: int)
    requires
        0 <= n <= d.len(),
        string_range_at(d.take(n), off) is Some,
    ensures
        string_range_at(d, off) == string_range_at(d.take(n), off),
{
    let t = d.take(n);
    assert(t[off] == d[off] && t[off + 1] == d[off + 1] && t[off + 2] == d[off + 2] && t[off + 3]
        == d[off + 3]);
    assert(be_u32_at(t, off) == be_u32_at(d, off));
}

/// An SSH string read whole from a prefix of `d` is the same string in `d`,
/// and ends inside the prefix.
pub proof fn lemma_string_at_prefix(d: Seq<u8>, n: int, off: int)
    requires
        0 <= n <= d.len(),
        string_at(d.take(n), off) is Some,
    ensures
        string_at(d, off) == string_at(d.take(n), off),
        string_at(d.take(n), off).unwrap().1 <= n,
{
    lemma_string_range_at_prefix(d, n, off);
}

/// Skipping strings over a prefix of `d`, where it succeeds, ends where it
/// ends in `d`.
pub proof fn lemma_skip_strings_prefix(d: Seq<u8>, n: int, off: int, k: nat)
    requires
        0 <= n <= d.len(),
        skip_strings(d.take(n), off, k) is Some,
    ensures
        skip_strings(d, off, k) == skip_strings(d.take(n), off, k),
    decreases k,
{
    if k > 0 {
        lemma_string_range_at_prefix(d, n, off);
        let end = string_range_at(d.take(n), off).unwrap().1;
        lemma_skip_strings_prefix(d, n, end, (k - 1) as nat);
    }
}

} // verus!
