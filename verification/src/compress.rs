//! The Yaz0 codec that wraps whole archives.

use vstd::prelude::*;

verus! {

/// How far the compressor looks back for repeated bytes.
#[derive(Clone, Copy, Debug, PartialEq, Eq, Structural)]
pub enum CompressionLevel {
    /// Takes the longest run that starts at the current byte.
    Naive { quality: usize },
    /// Also tries the run that starts one byte later.
    Lookahead { quality: usize },
}

impl CompressionLevel {
    /// Whether the level tries the run that starts one byte later.
    pub open spec fn lookahead(self) -> bool {
        self is Lookahead
    }

    /// The quality of the level: 1 to 10, of which 10 looks back farthest.
    pub open spec fn quality(self) -> usize {
        match self {
            CompressionLevel::Naive { quality } => quality,
            CompressionLevel::Lookahead { quality } => quality,
        }
    }
}

/// What `yaz0::Yaz0Writer::compress_and_write` writes for `data`: the Yaz0
/// header and the compressed stream, or nothing if writing fails.
pub uninterp spec fn yaz0_compressed(data: Seq<u8>, lookahead: bool, quality: usize) -> Option<Seq<u8>>;

/// Calls `yaz0::Yaz0Writer::compress_and_write` on a writer in memory. The
/// contract names what was written; it says nothing of what that is.
#[verifier::external_body]
fn yaz0_compress(buf: &[u8], level: CompressionLevel) -> (res: Option<Vec<u8>>)
    ensures
        match res {
            Some(out) => yaz0_compressed(buf@, level.lookahead(), level.quality()) == Some(out@),
            None => yaz0_compressed(buf@, level.lookahead(), level.quality()) is None,
        },
{
    let mut writer = std::io::Cursor::new(Vec::new());
    let level = match level {
        CompressionLevel::Naive { quality } => yaz0::CompressionLevel::Naive { quality },
        CompressionLevel::Lookahead { quality } => yaz0::CompressionLevel::Lookahead { quality },
    };
    match yaz0::Yaz0Writer::new(&mut writer).compress_and_write(buf, level) {
        Ok(()) => Some(writer.into_inner()),
        Err(_) => None,
    }
}

/// Where the stream of a Yaz0 file starts: behind the magic, the size and
/// eight unused bytes.
pub const YAZ0_STREAM: usize = 16;

/// Whether the data start with the magic `Yaz0`.
pub open spec fn yaz0_magic(data: Seq<u8>) -> bool {
    data.len() >= 4 && data[0] == 0x59 && data[1] == 0x61 && data[2] == 0x7A && data[3] == 0x30
}

/// The size that the header gives for the decompressed data: the four
/// bytes behind the magic, most significant first.
pub open spec fn yaz0_size(data: Seq<u8>) -> int {
    data[4] as int * 0x100_0000 + data[5] as int * 0x1_0000 + data[6] as int * 0x100 + data[7] as int
}

/// How far back a copy reaches, less one: the low four bits of the first
/// byte of the copy and its second byte.
pub open spec fn yaz0_dist(first: u8, second: u8) -> int {
    (first % 16) as int * 256 + second as int
}

/// Whether the stream, read from `pos` on when `out` bytes are made, makes
/// `size` bytes in all and then ends its work: it neither ends before, nor
/// copies from before the start of what is made, nor makes more than
/// `size` bytes. Of the code byte `code`, `ops` bits are still to come,
/// the highest first: a set bit stands for a byte to take over, a clear
/// bit for a copy of two or three bytes.
pub open spec fn yaz0_runs(data: Seq<u8>, pos: int, out: int, size: int, ops: int, code: int) -> bool
    decreases size - out, data.len() - pos,
{
    if out >= size {
        out == size
    } else if pos < 0 || pos >= data.len() {
        false
    } else if ops <= 0 {
        yaz0_runs(data, pos + 1, out, size, 8, data[pos] as int)
    } else if code >= 0x80 {
        yaz0_runs(data, pos + 1, out + 1, size, ops - 1, code * 2 % 256)
    } else if pos + 1 >= data.len() {
        false
    } else {
        let long = data[pos] / 16 == 0;
        if long && pos + 2 >= data.len() {
            false
        } else {
            let count = if long {
                data[pos + 2] as int + 0x12
            } else {
                data[pos] as int / 16 + 2
            };
            let next = if long {
                pos + 3
            } else {
                pos + 2
            };
            yaz0_dist(data[pos], data[pos + 1]) + 1 <= out && out + count <= size && yaz0_runs(
                data,
                next,
                out + count,
                size,
                ops - 1,
                code * 2 % 256,
            )
        }
    }
}

/// Whether the data are a Yaz0 file whose stream makes as many bytes as
/// its header says.
pub open spec fn yaz0_complete(data: Seq<u8>) -> bool {
    yaz0_magic(data) && data.len() >= 8 && yaz0_runs(data, YAZ0_STREAM as int, 0, yaz0_size(data), 0, 0)
}

/// What `yaz0::Yaz0Archive::decompress` makes of a Yaz0 file, or nothing if
/// it fails.
pub uninterp spec fn yaz0_decoded(data: Seq<u8>) -> Option<Seq<u8>>;

/// Calls `yaz0::Yaz0Archive::new` on a reader in memory and then
/// `decompress`. The decoder trusts its stream: it panics where a copy
/// reaches before the start of its output or behind the size that the
/// header gives, and it allocates that size before it reads the stream. The
/// contract admits only data whose stream makes exactly that size, and
/// names what is decoded.
#[verifier::external_body]
fn yaz0_decode(buf: &[u8]) -> (res: Option<Vec<u8>>)
    requires
        yaz0_complete(buf@),
    ensures
        match res {
            Some(out) => yaz0_decoded(buf@) == Some(out@),
            None => yaz0_decoded(buf@) is None,
        },
{
    match yaz0::Yaz0Archive::new(std::io::Cursor::new(buf)) {
        Ok(mut archive) => archive.decompress().ok(),
        Err(_) => None,
    }
}

/// Whether the data are a Yaz0 file whose stream makes as many bytes as
/// its header says.
pub fn is_yaz0_complete(buf: &[u8]) -> (ok: bool)
    ensures
        ok == yaz0_complete(buf@),
{
    if buf.len() < 8 || buf[0] != 0x59 || buf[1] != 0x61 || buf[2] != 0x7A || buf[3] != 0x30 {
        return false;
    }
    let size: u64 = buf[4] as u64 * 0x100_0000 + buf[5] as u64 * 0x1_0000 + buf[6] as u64 * 0x100
        + buf[7] as u64;
    let len = buf.len();
    let mut pos: usize = if len < YAZ0_STREAM {
        len
    } else {
        YAZ0_STREAM
    };
    let mut out: u64 = 0;
    let mut ops: u8 = 0;
    let mut code: u8 = 0;
    assert(yaz0_complete(buf@) == yaz0_runs(buf@, pos as int, 0, size as int, 0, 0)) by {
        if len < YAZ0_STREAM {
            assert(yaz0_runs(buf@, YAZ0_STREAM as int, 0, size as int, 0, 0) == (size == 0));
            assert(yaz0_runs(buf@, len as int, 0, size as int, 0, 0) == (size == 0));
        }
    }
    while out < size
        invariant
            len == buf@.len(),
            pos <= len,
            out <= size <= u32::MAX,
            ops <= 8,
            yaz0_complete(buf@) == yaz0_runs(buf@, pos as int, out as int, size as int, ops as int, code as int),
        decreases size - out, len - pos,
    {
        if pos >= len {
            return false;
        }
        if ops == 0 {
            code = buf[pos];
            ops = 8;
            pos += 1;
        } else if code >= 0x80 {
            pos += 1;
            out += 1;
            ops -= 1;
            code = ((code as u16 * 2) % 256) as u8;
        } else {
            if len - pos < 2 {
                return false;
            }
            let first = buf[pos];
            let second = buf[pos + 1];
            let long = first / 16 == 0;
            if long && len - pos < 3 {
                return false;
            }
            let count: u64 = if long {
                buf[pos + 2] as u64 + 0x12
            } else {
                first as u64 / 16 + 2
            };
            let dist: u64 = (first % 16) as u64 * 256 + second as u64;
            if dist + 1 > out || out + count > size {
                return false;
            }
            pos = if long {
                pos + 3
            } else {
                pos + 2
            };
            out += count;
            ops -= 1;
            code = ((code as u16 * 2) % 256) as u8;
        }
    }
    true
}

/// Decompresses a Yaz0 file. Data that are no Yaz0 file whose stream
/// makes as many bytes as its header says, and data that the decoder
/// fails on, are given back as they are.
pub fn decompres_yaz0(buf: &[u8]) -> (out: Vec<u8>)
    ensures
        out@ == (if yaz0_complete(buf@) {
            match yaz0_decoded(buf@) {
                Some(made) => made,
                None => buf@,
            }
        } else {
            buf@
        }),
{
    if is_yaz0_complete(buf) {
        or_input(yaz0_decode(buf), buf)
    } else {
        or_input(None, buf)
    }
}

/// What the codec made of `buf`, or a copy of `buf` where it made nothing.
pub fn or_input(outcome: Option<Vec<u8>>, buf: &[u8]) -> (out: Vec<u8>)
    ensures
        out@ == (match outcome {
            Some(made) => made@,
            None => buf@,
        }),
{
    match outcome {
        Some(made) => made,
        None => vstd::slice::slice_to_vec(buf),
    }
}

/// Compresses `buf` as Yaz0. Where the compressor fails, the result is a
/// copy of `buf`.
pub fn compress_yaz0(buf: &[u8], level: CompressionLevel) -> (out: Vec<u8>)
    ensures
        out@ == (match yaz0_compressed(buf@, level.lookahead(), level.quality()) {
            Some(made) => made,
            None => buf@,
        }),
{
    or_input(yaz0_compress(buf, level), buf)
}

} // verus!
