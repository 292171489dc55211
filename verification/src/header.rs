//! The two headers at the start of an archive, and the magic before them.

use vstd::prelude::*;
use crate::bytes::{
    Endian, push_u16, push_u32, push_zeros, read_u16, read_u32, u16_at, u16_bytes, u32_at,
    u32_bytes, zeros,
};
use crate::error::ArchiveError;

verus! {

/// The four bytes at the start of an archive. They tell the byte order of
/// every field behind them.
#[derive(Clone, Copy, Debug, PartialEq, Eq, Structural)]
pub enum Magic {
    /// `CRAR`: the fields are little-endian.
    LITTLE,
    /// `RARC`: the fields are big-endian.
    BIG,
}

/// The length of the magic.
pub const MAGIC_LEN: usize = 4;

/// The length of the header, without the magic.
pub const HEADER_LEN: usize = 28;

/// The length of the data header up to and including its last field.
pub const DATA_HEADER_FIELDS: usize = 27;

/// The length of the data header with the padding behind it.
pub const DATA_HEADER_LEN: usize = 32;

/// Where the data header starts in an archive that this library writes, and
/// the base of every offset in the two headers.
pub const HEADER_BASE: u32 = 0x20;

/// The bytes `RARC`.
pub open spec fn big_magic() -> Seq<u8> {
    seq![0x52u8, 0x41u8, 0x52u8, 0x43u8]
}

/// The bytes `CRAR`.
pub open spec fn little_magic() -> Seq<u8> {
    seq![0x43u8, 0x52u8, 0x41u8, 0x52u8]
}

/// The byte order that the first four bytes of `data` select: big-endian for
/// `RARC`, little-endian for `CRAR`, and `native` for anything else.
pub open spec fn spec_endian(data: Seq<u8>, native: Endian) -> Endian {
    if data.len() >= 4 && data.subrange(0, 4) == big_magic() {
        Endian::Big
    } else if data.len() >= 4 && data.subrange(0, 4) == little_magic() {
        Endian::Little
    } else {
        native
    }
}

impl Magic {
    pub open spec fn spec_to_endian(&self) -> Endian {
        match self {
            Magic::BIG => Endian::Big,
            Magic::LITTLE => Endian::Little,
        }
    }

    /// The four bytes of the magic.
    pub open spec fn bytes(&self) -> Seq<u8> {
        match self {
            Magic::BIG => big_magic(),
            Magic::LITTLE => little_magic(),
        }
    }

    /// The byte order that the magic stands for.
    #[verifier::when_used_as_spec(spec_to_endian)]
    pub fn to_endian(&self) -> (e: Endian)
        ensures
            e == self.spec_to_endian(),
    {
        match self {
            Magic::BIG => Endian::Big,
            Magic::LITTLE => Endian::Little,
        }
    }

    /// The magic that stands for a byte order.
    pub fn from_endian(endian: Endian) -> (m: Magic)
        ensures
            m.spec_to_endian() == endian,
    {
        match endian {
            Endian::Big => Magic::BIG,
            Endian::Little => Magic::LITTLE,
        }
    }

    /// Appends the four bytes of the magic.
    pub fn write(&self, out: &mut Vec<u8>)
        ensures
            final(out)@ == old(out)@ + self.bytes(),
    {
        match self {
            Magic::BIG => {
                out.push(0x52);
                out.push(0x41);
                out.push(0x52);
                out.push(0x43);
            },
            Magic::LITTLE => {
                out.push(0x43);
                out.push(0x52);
                out.push(0x41);
                out.push(0x52);
            },
        }
        assert(out@ =~= old(out)@ + self.bytes());
    }
}

/// The header of an archive: its size, and where the payloads lie.
#[derive(Clone, Copy, Debug, PartialEq, Eq, Structural)]
pub struct Header {
    /// The length of the whole archive.
    pub size: u32,
    /// Where the data header starts. Every other offset of the two headers
    /// counts from here.
    pub data_header_off: u32,
    pub file_data_off: u32,
    pub file_data_len: u32,
    pub mram_size: u32,
    pub aram_size: u32,
    pub dvd_size: u32,
}

/// The data header: where the three tables lie, and how ids are given.
#[derive(Clone, Copy, Debug, PartialEq, Eq, Structural)]
pub struct DataHeader {
    pub dir_node_count: u32,
    pub dir_node_off: u32,
    pub file_node_count: u32,
    pub file_node_off: u32,
    pub string_tbl_size: u32,
    pub string_tbl_off: u32,
    /// The next free id where ids are not positions.
    pub next_idx: u16,
    /// Whether the id of a file is its position in the file table.
    pub sync: bool,
}

/// The header that stands behind the magic of `data`.
pub open spec fn spec_header(data: Seq<u8>, endian: Endian) -> Header {
    Header {
        size: u32_at(data, 4, endian),
        data_header_off: u32_at(data, 8, endian),
        file_data_off: u32_at(data, 12, endian),
        file_data_len: u32_at(data, 16, endian),
        mram_size: u32_at(data, 20, endian),
        aram_size: u32_at(data, 24, endian),
        dvd_size: u32_at(data, 28, endian),
    }
}

/// The data header that starts at `off`.
pub open spec fn spec_data_header(data: Seq<u8>, off: int, endian: Endian) -> DataHeader {
    DataHeader {
        dir_node_count: u32_at(data, off, endian),
        dir_node_off: u32_at(data, off + 4, endian),
        file_node_count: u32_at(data, off + 8, endian),
        file_node_off: u32_at(data, off + 12, endian),
        string_tbl_size: u32_at(data, off + 16, endian),
        string_tbl_off: u32_at(data, off + 20, endian),
        next_idx: u16_at(data, off + 24, endian),
        sync: data[off + 26] != 0,
    }
}

impl Header {
    /// The header with every field zero.
    pub open spec fn zero() -> Header {
        Header {
            size: 0,
            data_header_off: 0,
            file_data_off: 0,
            file_data_len: 0,
            mram_size: 0,
            aram_size: 0,
            dvd_size: 0,
        }
    }

    /// A header with every field zero.
    pub fn new() -> (h: Header)
        ensures
            h == Header::zero(),
    {
        Header {
            size: 0,
            data_header_off: 0,
            file_data_off: 0,
            file_data_len: 0,
            mram_size: 0,
            aram_size: 0,
            dvd_size: 0,
        }
    }

    /// The 28 bytes of the header.
    pub open spec fn bytes(&self, endian: Endian) -> Seq<u8> {
        u32_bytes(self.size, endian) + u32_bytes(self.data_header_off, endian) + u32_bytes(
            self.file_data_off,
            endian,
        ) + u32_bytes(self.file_data_len, endian) + u32_bytes(self.mram_size, endian) + u32_bytes(
            self.aram_size,
            endian,
        ) + u32_bytes(self.dvd_size, endian)
    }

    /// Where the payloads start in the archive.
    pub fn data_offset(&self) -> (off: u64)
        ensures
            off == self.file_data_off + self.data_header_off,
    {
        self.file_data_off as u64 + self.data_header_off as u64
    }

    /// Appends the 28 bytes of the header.
    pub fn write(&self, out: &mut Vec<u8>, endian: Endian)
        ensures
            final(out)@ == old(out)@ + self.bytes(endian),
    {
        push_u32(out, self.size, endian);
        push_u32(out, self.data_header_off, endian);
        push_u32(out, self.file_data_off, endian);
        push_u32(out, self.file_data_len, endian);
        push_u32(out, self.mram_size, endian);
        push_u32(out, self.aram_size, endian);
        push_u32(out, self.dvd_size, endian);
        assert(out@ =~= old(out)@ + self.bytes(endian));
    }
}

impl DataHeader {
    /// The data header with every field zero.
    pub open spec fn zero() -> DataHeader {
        DataHeader {
            dir_node_count: 0,
            dir_node_off: 0,
            file_node_count: 0,
            file_node_off: 0,
            string_tbl_size: 0,
            string_tbl_off: 0,
            next_idx: 0,
            sync: false,
        }
    }

    /// A data header with every field zero.
    pub fn new() -> (d: DataHeader)
        ensures
            d == DataHeader::zero(),
    {
        DataHeader {
            dir_node_count: 0,
            dir_node_off: 0,
            file_node_count: 0,
            file_node_off: 0,
            string_tbl_size: 0,
            string_tbl_off: 0,
            next_idx: 0,
            sync: false,
        }
    }

    /// The 32 bytes of the data header: its fields, then five zero bytes.
    pub open spec fn bytes(&self, endian: Endian) -> Seq<u8> {
        u32_bytes(self.dir_node_count, endian) + u32_bytes(self.dir_node_off, endian) + u32_bytes(
            self.file_node_count,
            endian,
        ) + u32_bytes(self.file_node_off, endian) + u32_bytes(self.string_tbl_size, endian)
            + u32_bytes(self.string_tbl_off, endian) + u16_bytes(self.next_idx, endian) + seq![
            if self.sync {
                1u8
            } else {
                0u8
            },
        ] + zeros(5)
    }

    /// Where the directory table starts in the archive.
    pub fn dir_offset(&self, header: &Header) -> (off: u64)
        ensures
            off == self.dir_node_off + header.data_header_off,
    {
        self.dir_node_off as u64 + header.data_header_off as u64
    }

    /// Where the file table starts in the archive.
    pub fn file_offset(&self, header: &Header) -> (off: u64)
        ensures
            off == self.file_node_off + header.data_header_off,
    {
        self.file_node_off as u64 + header.data_header_off as u64
    }

    /// Where the string table starts in the archive.
    pub fn string_offset(&self, header: &Header) -> (off: u64)
        ensures
            off == self.string_tbl_off + header.data_header_off,
    {
        self.string_tbl_off as u64 + header.data_header_off as u64
    }

    /// Appends the 32 bytes of the data header.
    pub fn write(&self, out: &mut Vec<u8>, endian: Endian)
        ensures
            final(out)@ == old(out)@ + self.bytes(endian),
    {
        push_u32(out, self.dir_node_count, endian);
        push_u32(out, self.dir_node_off, endian);
        push_u32(out, self.file_node_count, endian);
        push_u32(out, self.file_node_off, endian);
        push_u32(out, self.string_tbl_size, endian);
        push_u32(out, self.string_tbl_off, endian);
        push_u16(out, self.next_idx, endian);
        out.push(if self.sync {
            1u8
        } else {
            0u8
        });
        push_zeros(out, 5);
        assert(out@ =~= old(out)@ + self.bytes(endian));
    }
}

impl Default for Header {
    /// A header with every field zero.
    fn default() -> (h: Header)
        ensures
            h == Header::zero(),
    {
        Header::new()
    }
}

impl Default for DataHeader {
    /// A data header with every field zero.
    fn default() -> (d: DataHeader)
        ensures
            d == DataHeader::zero(),
    {
        DataHeader::new()
    }
}

/// Asks binrw for the byte order of the machine (`binrw::Endian::NATIVE`).
/// Nothing is promised of the answer: it differs from machine to machine.
#[verifier::external_body]
pub(crate) fn machine_endian() -> Endian {
    match binrw::Endian::NATIVE {
        binrw::Endian::Big => Endian::Big,
        binrw::Endian::Little => Endian::Little,
    }
}

/// The byte order that the magic of `data` selects, with `native` for a
/// magic that is neither `RARC` nor `CRAR`.
pub fn detect_endian(data: &[u8], native: Endian) -> (e: Endian)
    ensures
        e == spec_endian(data@, native),
{
    if data.len() < MAGIC_LEN {
        return native;
    }
    let a = data[0];
    let b = data[1];
    let c = data[2];
    let d = data[3];
    if a == 0x52 && b == 0x41 && c == 0x52 && d == 0x43 {
        assert(data@.subrange(0, 4) =~= big_magic());
        Endian::Big
    } else if a == 0x43 && b == 0x52 && c == 0x41 && d == 0x52 {
        assert(data@.subrange(0, 4) =~= little_magic());
        assert(data@.subrange(0, 4)[0] != big_magic()[0]);
        Endian::Little
    } else {
        assert(data@.subrange(0, 4)[0] == a && data@.subrange(0, 4)[1] == b && data@.subrange(
            0,
            4,
        )[2] == c && data@.subrange(0, 4)[3] == d);
        native
    }
}

/// What reading the headers of `data` gives where `native` is the byte order
/// of the machine: `IoFailure` if the data ends inside the magic or the
/// header, `MalformedHeader` if the data header does not lie inside the data,
/// else the byte order and the two headers.
pub open spec fn spec_read_headers(data: Seq<u8>, native: Endian) -> Result<
    (Endian, Header, DataHeader),
    ArchiveError,
> {
    let endian = spec_endian(data, native);
    let header = spec_header(data, endian);
    if data.len() < MAGIC_LEN + HEADER_LEN {
        Err(ArchiveError::IoFailure)
    } else if header.data_header_off + DATA_HEADER_FIELDS > data.len() {
        Err(ArchiveError::MalformedHeader)
    } else {
        Ok((endian, header, spec_data_header(data, header.data_header_off as int, endian)))
    }
}

/// Reads the headers of `data`, with `native` as the byte order of an
/// archive whose magic is not known.
pub fn read_headers_with(data: &[u8], native: Endian) -> (res: Result<
    (Endian, Header, DataHeader),
    ArchiveError,
>)
    ensures
        res == spec_read_headers(data@, native),
{
    if data.len() < MAGIC_LEN + HEADER_LEN {
        return Err(ArchiveError::IoFailure);
    }
    let endian = detect_endian(data, native);
    let header = Header {
        size: read_u32(data, 4, endian),
        data_header_off: read_u32(data, 8, endian),
        file_data_off: read_u32(data, 12, endian),
        file_data_len: read_u32(data, 16, endian),
        mram_size: read_u32(data, 20, endian),
        aram_size: read_u32(data, 24, endian),
        dvd_size: read_u32(data, 28, endian),
    };
    let off: usize = header.data_header_off as usize;
    if off > data.len() || data.len() - off < DATA_HEADER_FIELDS {
        return Err(ArchiveError::MalformedHeader);
    }
    let data_header = DataHeader {
        dir_node_count: read_u32(data, off, endian),
        dir_node_off: read_u32(data, off + 4, endian),
        file_node_count: read_u32(data, off + 8, endian),
        file_node_off: read_u32(data, off + 12, endian),
        string_tbl_size: read_u32(data, off + 16, endian),
        string_tbl_off: read_u32(data, off + 20, endian),
        next_idx: read_u16(data, off + 24, endian),
        sync: data[off + 26] != 0,
    };
    Ok((endian, header, data_header))
}

/// Reads the headers of `data`. An archive whose magic is neither `RARC` nor
/// `CRAR` is read in the byte order of the machine, whichever that is.
pub fn read_headers(data: &[u8]) -> (res: Result<(Endian, Header, DataHeader), ArchiveError>)
    ensures
        res == spec_read_headers(data@, Endian::Big) || res == spec_read_headers(
            data@,
            Endian::Little,
        ),
{
    read_headers_with(data, machine_endian())
}

} // verus!
