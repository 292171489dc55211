//! The SZS codec that wraps whole archive files: the decoder that unwraps
//! a compressed archive before it is read, and the encoders.

use vstd::prelude::*;
use crate::compress::{is_yaz0_complete, yaz0_complete, yaz0_size};
use crate::error::ArchiveError;

verus! {

/// The longest data, and the largest decoded size, that the decoder can
/// count: it keeps its positions in signed 32-bit numbers.
pub const SZS_LIMIT: usize = 0x7FFF_FFFF;

/// Whether the decoder can be run on the data: they are a Yaz0 file whose
/// stream makes as many bytes as its header says, and neither they nor
/// what they make are longer than the decoder can count.
pub open spec fn decodable(data: Seq<u8>) -> bool {
    yaz0_complete(data) && data.len() <= SZS_LIMIT && yaz0_size(data) <= SZS_LIMIT
}

/// What `szs::decode` makes of a Yaz0 file, or nothing if it fails.
pub uninterp spec fn szs_decoded(data: Seq<u8>) -> Option<Seq<u8>>;

/// Calls `szs::decode`. The decoder trusts its stream: it reads behind the
/// end of a stream that stops inside a copy, and it reads and writes
/// outside its output where a copy reaches before the start of the output
/// or behind the size that the header gives; it allocates that size before
/// it reads the stream. The contract admits only data whose stream makes
/// exactly that size, within what the decoder can count, and names what is
/// decoded.
#[verifier::external_body]
fn szs_decode(src: &[u8]) -> (res: Option<Vec<u8>>)
    requires
        decodable(src@),
    ensures
        match res {
            Some(out) => szs_decoded(src@) == Some(out@),
            None => szs_decoded(src@) is None,
        },
{
    szs::decode(src).ok()
}

/// What the codec made, or `CorruptArchive` where it made nothing.
pub fn or_corrupt(outcome: Option<Vec<u8>>) -> (res: Result<Vec<u8>, ArchiveError>)
    ensures
        match outcome {
            Some(made) => res == Ok::<Vec<u8>, ArchiveError>(made),
            None => res == Err::<Vec<u8>, ArchiveError>(ArchiveError::CorruptArchive),
        },
{
    match outcome {
        Some(made) => Ok(made),
        None => Err(ArchiveError::CorruptArchive),
    }
}

/// Whether the decoder can be run on the data.
pub fn is_decodable(src: &[u8]) -> (ok: bool)
    ensures
        ok == decodable(src@),
{
    if src.len() > SZS_LIMIT || !is_yaz0_complete(src) {
        return false;
    }
    let size: u64 = src[4] as u64 * 0x100_0000 + src[5] as u64 * 0x1_0000 + src[6] as u64 * 0x100
        + src[7] as u64;
    size <= 0x7FFF_FFFF
}

/// Decodes an SZS file, which is a Yaz0 file. Fails with `CorruptArchive`
/// on data that are no Yaz0 file whose stream makes as many bytes as its
/// header says, on data that are longer, or make more, than the decoder
/// can count, and where the decoder fails.
pub fn decode(src: &[u8]) -> (res: Result<Vec<u8>, ArchiveError>)
    ensures
        match res {
            Ok(out) => decodable(src@) && szs_decoded(src@) == Some(out@),
            Err(e) => e == ArchiveError::CorruptArchive && (!decodable(src@) || szs_decoded(src@) is None),
        },
{
    if is_decodable(src) {
        or_corrupt(szs_decode(src))
    } else {
        or_corrupt(None)
    }
}

/// An encoder of SZS files.
#[derive(Clone, Copy, Debug, PartialEq, Eq, Structural)]
pub enum EncodeAlgo {
    /// Takes every byte over as it is.
    WorstCaseEncodingRust,
    /// Takes every byte over as it is; the slower version in C++.
    WorstCaseEncodingReference,
    /// The encoder of the Wii's games.
    MkwRust,
    /// The encoder of the Wii's games; the slower version in C++.
    MkwReference,
    /// The encoder of MKW-SP.
    MkwSp,
    /// The encoder of CTGP.
    Ctgp,
    /// The encoder of the Haroohie tools.
    Haroohie,
    /// The encoder of CTLib.
    CtLib,
    /// The encoder of libyaz0, in C++.
    LibYaz0Reference,
    /// The encoder of libyaz0, which searches with the C library.
    LibYaz0RustLibc,
    /// The encoder of libyaz0, which searches with `memchr`.
    LibYaz0RustMemchr,
    /// The encoder of Mario Kart 8.
    Mk8,
}

impl EncodeAlgo {
    /// The number by which the codec knows the encoder.
    pub open spec fn number(self) -> u32 {
        match self {
            EncodeAlgo::WorstCaseEncodingRust => 0,
            EncodeAlgo::WorstCaseEncodingReference => 100,
            EncodeAlgo::MkwRust => 1,
            EncodeAlgo::MkwReference => 101,
            EncodeAlgo::MkwSp => 2,
            EncodeAlgo::Ctgp => 3,
            EncodeAlgo::Haroohie => 4,
            EncodeAlgo::CtLib => 5,
            EncodeAlgo::LibYaz0Reference => 6,
            EncodeAlgo::LibYaz0RustLibc => 102,
            EncodeAlgo::LibYaz0RustMemchr => 103,
            EncodeAlgo::Mk8 => 7,
        }
    }
}

/// The longest data that an encoder is run on. The encoders write into a
/// buffer of the length of the data, an eighth of it and 24 bytes more, and
/// count in signed 32-bit numbers: up to this length that buffer has its
/// full length, and they count right.
pub const ENCODE_LIMIT: usize = 0x7000_0000;

/// The length from which on the encoder of Mario Kart 8 moves its window,
/// which it does by copying a range of memory onto itself.
pub const MK8_ROOM: usize = 0x1EEE;

/// The longest data for which the encoder of CTLib keeps its first table of
/// places, whose bounds can be seen.
pub const CTLIB_ROOM: usize = 0xFFF;

/// Whether the last byte of the data stands nowhere else in them.
pub open spec fn last_unique(data: Seq<u8>) -> bool {
    forall|i: int| 0 <= i < data.len() - 1 ==> #[trigger] data[i] != data[data.len() - 1]
}

/// Whether the encoder is run on the data. None is run on data longer
/// than the limit. The encoders of Haroohie and of CTLib read one byte
/// behind the data where a run reaches their end, so they are run only on
/// data whose last byte stands nowhere else in them; that of CTLib only on
/// data short enough for its first table, and that of Mario Kart 8 only as
/// long as it does not move its window. The encoder of CTGP is not run:
/// it stops the process where one of its assertions fails, and nothing
/// shows on which data none does.
pub open spec fn encodable(data: Seq<u8>, algo: EncodeAlgo) -> bool {
    &&& data.len() <= ENCODE_LIMIT
    &&& match algo {
        EncodeAlgo::Ctgp => false,
        EncodeAlgo::Mk8 => data.len() < MK8_ROOM,
        EncodeAlgo::Haroohie => last_unique(data),
        EncodeAlgo::CtLib => data.len() <= CTLIB_ROOM && last_unique(data),
        _ => true,
    }
}

/// What `szs::encode` makes of the data with the encoder of that number,
/// or nothing if it fails.
pub uninterp spec fn szs_encoded(data: Seq<u8>, algo: u32) -> Option<Seq<u8>>;

/// Calls `szs::encode`. It sizes the buffer of the result by the length of
/// the data and hands both to the encoder, which writes without looking at
/// the buffer's end; some encoders also read behind the data or copy a
/// range of memory onto itself. The contract admits only the data and the
/// encoders for which the source shows that none of this happens, and
/// names what is encoded.
#[verifier::external_body]
fn szs_encode(src: &[u8], algo: EncodeAlgo) -> (res: Option<Vec<u8>>)
    requires
        encodable(src@, algo),
    ensures
        match res {
            Some(out) => szs_encoded(src@, algo.number()) == Some(out@),
            None => szs_encoded(src@, algo.number()) is None,
        },
{
    let outside = match algo {
        EncodeAlgo::WorstCaseEncodingRust => szs::EncodeAlgo::WorstCaseEncoding_Rust,
        EncodeAlgo::WorstCaseEncodingReference => szs::EncodeAlgo::WorstCaseEncoding_ReferenceCVersion,
        EncodeAlgo::MkwRust => szs::EncodeAlgo::MKW_Rust,
        EncodeAlgo::MkwReference => szs::EncodeAlgo::MKW_ReferenceCVersion,
        EncodeAlgo::MkwSp => szs::EncodeAlgo::MkwSp_ReferenceCVersion,
        EncodeAlgo::Ctgp => szs::EncodeAlgo::CTGP_ReferenceCVersion,
        EncodeAlgo::Haroohie => szs::EncodeAlgo::Haroohie_ReferenceCVersion,
        EncodeAlgo::CtLib => szs::EncodeAlgo::CTLib_ReferenceCVersion,
        EncodeAlgo::LibYaz0Reference => szs::EncodeAlgo::LibYaz0_ReferenceCVersion,
        EncodeAlgo::LibYaz0RustLibc => szs::EncodeAlgo::LibYaz0_RustLibc,
        EncodeAlgo::LibYaz0RustMemchr => szs::EncodeAlgo::LibYaz0_RustMemchr,
        EncodeAlgo::Mk8 => szs::EncodeAlgo::MK8_ReferenceCVersion,
    };
    szs::encode(src, outside).ok()
}

/// Whether the last byte of the data stands nowhere else in them.
pub fn is_last_unique(src: &[u8]) -> (ok: bool)
    ensures
        ok == last_unique(src@),
{
    let n = src.len();
    if n == 0 {
        return true;
    }
    let last = src[n - 1];
    let mut i: usize = 0;
    while i < n - 1
        invariant
            i <= n - 1,
            n == src@.len(),
            last == src@[n - 1],
            forall|j: int| 0 <= j < i ==> #[trigger] src@[j] != last,
        decreases n - 1 - i,
    {
        if src[i] == last {
            return false;
        }
        i += 1;
    }
    true
}

/// Whether the encoder is run on the data.
pub fn is_encodable(src: &[u8], algo: EncodeAlgo) -> (ok: bool)
    ensures
        ok == encodable(src@, algo),
{
    if src.len() > ENCODE_LIMIT {
        return false;
    }
    match algo {
        EncodeAlgo::Ctgp => false,
        EncodeAlgo::Mk8 => src.len() < MK8_ROOM,
        EncodeAlgo::Haroohie => is_last_unique(src),
        EncodeAlgo::CtLib => src.len() <= CTLIB_ROOM && is_last_unique(src),
        _ => true,
    }
}

/// The failure of `encode` on data on which the encoder is not run:
/// `TooLarge` for data longer than the limit, else `EncoderRefused`.
pub open spec fn refusal(data: Seq<u8>) -> ArchiveError {
    if data.len() > ENCODE_LIMIT {
        ArchiveError::TooLarge
    } else {
        ArchiveError::EncoderRefused
    }
}

/// Encodes data as an SZS file with the encoder `algo`. Fails with
/// `TooLarge` on data longer than the limit, with `EncoderRefused` where
/// the encoder would not keep to its buffers on the data, and with
/// `CorruptArchive` where the encoder fails.
pub fn encode(src: &[u8], algo: EncodeAlgo) -> (res: Result<Vec<u8>, ArchiveError>)
    ensures
        match res {
            Ok(out) => encodable(src@, algo) && szs_encoded(src@, algo.number()) == Some(out@),
            Err(e) => if encodable(src@, algo) {
                e == ArchiveError::CorruptArchive && szs_encoded(src@, algo.number()) is None
            } else {
                e == refusal(src@)
            },
        },
{
    if is_encodable(src, algo) {
        or_corrupt(szs_encode(src, algo))
    } else if src.len() > ENCODE_LIMIT {
        Err(ArchiveError::TooLarge)
    } else {
        Err(ArchiveError::EncoderRefused)
    }
}

} // verus!
