//! Reading a zero-terminated text at a position of the data.

use vstd::prelude::*;
use vstd::string::*;
use crate::table::{lemma_run_end, run_end};
use crate::text::{decode_range, lossy_text};

verus! {

/// Where reading at `pos` starts: at `pos`, or at the end of the data if
/// `pos` lies behind it.
pub open spec fn read_start(data: Seq<u8>, pos: u64) -> int {
    if pos <= data.len() {
        pos as int
    } else {
        data.len() as int
    }
}

/// The bytes that a read up to a zero byte takes: those from the start up
/// to and including the first zero byte, or up to the end of the data.
pub open spec fn read_until_zero(data: Seq<u8>, pos: u64) -> Seq<u8> {
    let start = read_start(data, pos);
    let end = run_end(data, start);
    if end < data.len() {
        data.subrange(start, end + 1)
    } else {
        data.subrange(start, data.len() as int)
    }
}

/// The bytes of the text at `pos`: what was read without its last byte,
/// unless only one byte or none was read.
pub open spec fn text_bytes_at(data: Seq<u8>, pos: u64) -> Seq<u8> {
    let raw = read_until_zero(data, pos);
    if raw.len() > 1 {
        raw.drop_last()
    } else {
        raw
    }
}

/// Reads the text that starts at `pos` and ends before the next zero byte.
/// Bytes that are no valid UTF-8 are replaced. Of a read of a single byte,
/// that byte is the text.
pub fn readntstringat(data: &[u8], pos: u64) -> (text: String)
    ensures
        text@ == lossy_text(text_bytes_at(data@, pos)),
{
    let start: usize = if pos <= data.len() as u64 {
        pos as usize
    } else {
        data.len()
    };
    let mut end: usize = start;
    while end < data.len() && data[end] != 0
        invariant
            start <= end <= data.len(),
            run_end(data@, start as int) == run_end(data@, end as int),
        decreases data.len() - end,
    {
        end += 1;
    }
    proof {
        lemma_run_end(data@, end as int);
    }
    let stop: usize = if end < data.len() {
        end + 1
    } else {
        end
    };
    let until: usize = if stop - start > 1 {
        stop - 1
    } else {
        stop
    };
    proof {
        let raw = read_until_zero(data@, pos);
        assert(raw =~= data@.subrange(start as int, stop as int));
        assert(text_bytes_at(data@, pos) =~= data@.subrange(start as int, until as int));
    }
    decode_range(data, start, until)
}

} // verus!
