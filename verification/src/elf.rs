//! Inspection of an ELF image: identity, header, loadable segments and the
//! exported dynamic symbols, with every offset checked against the bytes.

use vstd::prelude::*;
use vstd::utf8::{valid_utf8, decode_utf8};
use vstd::string::StringSliceAdditionalSpecFns;
use crate::text::{decimal, hex, owned, push_decimal, push_hex, push_str};

verus! {

/// The `PT_LOAD` program header type.
pub const PT_LOAD: u32 = 1;
/// The executable bit of a program header's flags.
pub const PF_X: u32 = 1;
/// The `SHT_DYNSYM` section type.
pub const SHT_DYNSYM: u32 = 11;

/// Why an image could not be decoded.
#[derive(Clone, Copy, Debug, PartialEq, Eq, Structural)]
pub enum ParseError {
    MissingMagic,
    UnsupportedClass,
    UnsupportedByteOrder,
    TruncatedIdentity,
    ProgramTableMissing,
    InvalidProgramEntrySize,
    ProgramTableTooLarge,
    ProgramOffsetOverflow,
    LoadExceedsMemory,
    InvalidLoadAlignment,
    InvalidSectionEntrySize,
    SectionOffsetOverflow,
    SectionTableTooLarge,
    MissingStringTable,
    InvalidSymbolEntrySize,
    SymbolOffsetOverflow,
    TooManySymbols,
    OffsetTooLarge,
    RangeTooLarge,
    RangeOverflow,
    Truncated,
}

/// The text that describes an error.
pub open spec fn parse_error_text(e: ParseError) -> Seq<char> {
    match e {
        ParseError::MissingMagic => "missing ELF magic"@,
        ParseError::UnsupportedClass => "unsupported ELF class"@,
        ParseError::UnsupportedByteOrder => "unsupported ELF byte order"@,
        ParseError::TruncatedIdentity => "truncated ELF identity"@,
        ParseError::ProgramTableMissing => "ELF program header table is missing"@,
        ParseError::InvalidProgramEntrySize => "invalid ELF program header entry size"@,
        ParseError::ProgramTableTooLarge => "ELF program header table is too large"@,
        ParseError::ProgramOffsetOverflow => "ELF program header offset overflow"@,
        ParseError::LoadExceedsMemory => "ELF load segment exceeds its memory size"@,
        ParseError::InvalidLoadAlignment => "invalid ELF load segment alignment"@,
        ParseError::InvalidSectionEntrySize => "invalid ELF section entry size"@,
        ParseError::SectionOffsetOverflow => "ELF section offset overflow"@,
        ParseError::SectionTableTooLarge => "ELF section table is too large"@,
        ParseError::MissingStringTable => "dynamic symbol string table is missing"@,
        ParseError::InvalidSymbolEntrySize => "invalid dynamic symbol entry size"@,
        ParseError::SymbolOffsetOverflow => "dynamic symbol offset overflow"@,
        ParseError::TooManySymbols => "too many dynamic symbols"@,
        ParseError::OffsetTooLarge => "ELF offset is too large"@,
        ParseError::RangeTooLarge => "ELF range is too large"@,
        ParseError::RangeOverflow => "ELF range overflow"@,
        ParseError::Truncated => "truncated ELF data"@,
    }
}

impl ParseError {
    /// The text that describes the error.
    pub fn message(&self) -> (text: &'static str)
        ensures
            text@ == parse_error_text(*self),
    {
        match self {
            ParseError::MissingMagic => "missing ELF magic",
            ParseError::UnsupportedClass => "unsupported ELF class",
            ParseError::UnsupportedByteOrder => "unsupported ELF byte order",
            ParseError::TruncatedIdentity => "truncated ELF identity",
            ParseError::ProgramTableMissing => "ELF program header table is missing",
            ParseError::InvalidProgramEntrySize => "invalid ELF program header entry size",
            ParseError::ProgramTableTooLarge => "ELF program header table is too large",
            ParseError::ProgramOffsetOverflow => "ELF program header offset overflow",
            ParseError::LoadExceedsMemory => "ELF load segment exceeds its memory size",
            ParseError::InvalidLoadAlignment => "invalid ELF load segment alignment",
            ParseError::InvalidSectionEntrySize => "invalid ELF section entry size",
            ParseError::SectionOffsetOverflow => "ELF section offset overflow",
            ParseError::SectionTableTooLarge => "ELF section table is too large",
            ParseError::MissingStringTable => "dynamic symbol string table is missing",
            ParseError::InvalidSymbolEntrySize => "invalid dynamic symbol entry size",
            ParseError::SymbolOffsetOverflow => "dynamic symbol offset overflow",
            ParseError::TooManySymbols => "too many dynamic symbols",
            ParseError::OffsetTooLarge => "ELF offset is too large",
            ParseError::RangeTooLarge => "ELF range is too large",
            ParseError::RangeOverflow => "ELF range overflow",
            ParseError::Truncated => "truncated ELF data",
        }
    }
}

/// The word size of an image.
#[derive(Clone, Copy, Debug, PartialEq, Eq, Structural)]
pub enum Class {
    Elf32,
    Elf64,
}

/// The byte order of an image.
#[derive(Clone, Copy, Debug, PartialEq, Eq, Structural)]
pub enum Endian {
    Little,
    Big,
}

/// The value of `s` read as a little-endian unsigned integer.
pub open spec fn le_value(s: Seq<u8>) -> nat
    decreases s.len(),
{
    if s.len() == 0 {
        0
    } else {
        s[0] as nat + 256 * le_value(s.drop_first())
    }
}

/// The value of `s` read as a big-endian unsigned integer.
pub open spec fn be_value(s: Seq<u8>) -> nat
    decreases s.len(),
{
    if s.len() == 0 {
        0
    } else {
        be_value(s.drop_last()) * 256 + s.last() as nat
    }
}

/// The value of `s` in the given byte order.
pub open spec fn uint_value(s: Seq<u8>, endian: Endian) -> nat {
    match endian {
        Endian::Little => le_value(s),
        Endian::Big => be_value(s),
    }
}

/// The error of a request for `size` bytes at `offset` in `len` bytes, in the
/// order in which the conversions and the bound are checked; `None` when the
/// range lies within the bytes.
pub open spec fn range_error(offset: u64, size: u64, len: nat) -> Option<ParseError> {
    if offset > usize::MAX {
        Some(ParseError::OffsetTooLarge)
    } else if size > usize::MAX {
        Some(ParseError::RangeTooLarge)
    } else if offset + size > usize::MAX {
        Some(ParseError::RangeOverflow)
    } else if offset + size > len {
        Some(ParseError::Truncated)
    } else {
        None
    }
}

/// The unsigned integer of `width` bytes at `offset`, or the range error.
pub open spec fn field(bytes: Seq<u8>, endian: Endian, offset: u64, width: u64) -> Result<nat, ParseError> {
    match range_error(offset, width, bytes.len()) {
        Some(e) => Err(e),
        None => Ok(uint_value(bytes.subrange(offset as int, offset + width), endian)),
    }
}

/// The unsigned integer of `width` bytes at `offset`, for a range known to
/// lie within the bytes.
pub open spec fn field_at(bytes: Seq<u8>, endian: Endian, offset: int, width: int) -> nat {
    uint_value(bytes.subrange(offset, offset + width), endian)
}

/// Bounds-checked reads of fixed-width integers in one byte order.
pub struct Reader<'a> {
    pub bytes: &'a [u8],
    pub endian: Endian,
}

proof fn lemma_le2(s: Seq<u8>)
    requires
        s.len() == 2,
    ensures
        le_value(s) == s[0] + 256 * s[1],
        be_value(s) == s[0] * 256 + s[1],
{
    reveal_with_fuel(le_value, 3);
    reveal_with_fuel(be_value, 3);
    assert(s.drop_first().drop_first().len() == 0);
    assert(s.drop_last().drop_last().len() == 0);
}

proof fn lemma_le4(s: Seq<u8>)
    requires
        s.len() == 4,
    ensures
        le_value(s) == s[0] + 256 * s[1] + 65536 * s[2] + 16777216 * s[3],
        be_value(s) == s[0] * 16777216 + s[1] * 65536 + s[2] * 256 + s[3],
{
    reveal_with_fuel(le_value, 5);
    reveal_with_fuel(be_value, 5);
    assert(s.drop_first().drop_first().drop_first().drop_first().len() == 0);
    assert(s.drop_last().drop_last().drop_last().drop_last().len() == 0);
}

proof fn lemma_le8(s: Seq<u8>)
    requires
        s.len() == 8,
    ensures
        le_value(s) == s[0] + 256 * s[1] + 65536 * s[2] + 16777216 * s[3] + 4294967296 * s[4]
            + 1099511627776 * s[5] + 281474976710656 * s[6] + 72057594037927936 * s[7],
        be_value(s) == s[0] * 72057594037927936 + s[1] * 281474976710656 + s[2] * 1099511627776
            + s[3] * 4294967296 + s[4] * 16777216 + s[5] * 65536 + s[6] * 256 + s[7],
{
    let t = s.drop_first().drop_first().drop_first().drop_first();
    let u = s.drop_last().drop_last().drop_last().drop_last();
    lemma_le4(t);
    lemma_le4(u);
    reveal_with_fuel(le_value, 5);
    reveal_with_fuel(be_value, 5);
    assert(t[0] == s[4] && t[1] == s[5] && t[2] == s[6] && t[3] == s[7]);
    assert(u[0] == s[0] && u[1] == s[1] && u[2] == s[2] && u[3] == s[3]);
}

impl<'a> Reader<'a> {
    /// The `size` bytes at `offset`, or the error of the first check that
    /// fails: the conversions to `usize`, then the end, then the bound.
    pub fn range(&self, offset: u64, size: u64) -> (r: Result<&'a [u8], ParseError>)
        ensures
            match range_error(offset, size, self.bytes@.len()) {
                Some(e) => r == Err::<&'a [u8], ParseError>(e),
                None => r is Ok && r->Ok_0@ == self.bytes@.subrange(offset as int, offset + size),
            },
            r is Ok <==> offset + size <= self.bytes@.len(),
    {
        let len = self.bytes.len();
        if offset > usize::MAX as u64 {
            return Err(ParseError::OffsetTooLarge);
        }
        if size > usize::MAX as u64 {
            return Err(ParseError::RangeTooLarge);
        }
        let start = offset as usize;
        let size = size as usize;
        if start > usize::MAX - size {
            return Err(ParseError::RangeOverflow);
        }
        let end = start + size;
        if end > len {
            return Err(ParseError::Truncated);
        }
        Ok(&self.bytes[start..end])
    }

    /// The byte at `offset`.
    pub fn u8(&self, offset: u64) -> (r: Result<u8, ParseError>)
        ensures
            match field(self.bytes@, self.endian, offset, 1) {
                Ok(v) => r == Ok::<u8, ParseError>(v as u8) && v == self.bytes@[offset as int],
                Err(e) => r == Err::<u8, ParseError>(e),
            },
    {
        let bytes = self.range(offset, 1)?;
        proof {
            let s = self.bytes@.subrange(offset as int, offset + 1);
            reveal_with_fuel(le_value, 2);
            reveal_with_fuel(be_value, 2);
            assert(s.drop_first().len() == 0);
            assert(s.drop_last().len() == 0);
        }
        Ok(bytes[0])
    }

    /// The two-byte integer at `offset`, in the reader's byte order.
    pub fn u16(&self, offset: u64) -> (r: Result<u16, ParseError>)
        ensures
            match field(self.bytes@, self.endian, offset, 2) {
                Ok(v) => r == Ok::<u16, ParseError>(v as u16) && v <= u16::MAX,
                Err(e) => r == Err::<u16, ParseError>(e),
            },
    {
        let bytes = self.range(offset, 2)?;
        proof {
            lemma_le2(bytes@);
        }
        let (b0, b1) = (bytes[0] as u16, bytes[1] as u16);
        match self.endian {
            Endian::Little => Ok(b0 + 256 * b1),
            Endian::Big => Ok(b0 * 256 + b1),
        }
    }

    /// The four-byte integer at `offset`, in the reader's byte order.
    pub fn u32(&self, offset: u64) -> (r: Result<u32, ParseError>)
        ensures
            match field(self.bytes@, self.endian, offset, 4) {
                Ok(v) => r == Ok::<u32, ParseError>(v as u32) && v <= u32::MAX,
                Err(e) => r == Err::<u32, ParseError>(e),
            },
    {
        let bytes = self.range(offset, 4)?;
        proof {
            lemma_le4(bytes@);
        }
        let (b0, b1, b2, b3) = (bytes[0] as u32, bytes[1] as u32, bytes[2] as u32, bytes[3] as u32);
        match self.endian {
            Endian::Little => Ok(b0 + 256 * b1 + 65536 * b2 + 16777216 * b3),
            Endian::Big => Ok(b0 * 16777216 + b1 * 65536 + b2 * 256 + b3),
        }
    }

    /// The eight-byte integer at `offset`, in the reader's byte order.
    pub fn u64(&self, offset: u64) -> (r: Result<u64, ParseError>)
        ensures
            match field(self.bytes@, self.endian, offset, 8) {
                Ok(v) => r == Ok::<u64, ParseError>(v as u64) && v <= u64::MAX,
                Err(e) => r == Err::<u64, ParseError>(e),
            },
    {
        let bytes = self.range(offset, 8)?;
        proof {
            lemma_le8(bytes@);
        }
        let (b0, b1, b2, b3) = (bytes[0] as u64, bytes[1] as u64, bytes[2] as u64, bytes[3] as u64);
        let (b4, b5, b6, b7) = (bytes[4] as u64, bytes[5] as u64, bytes[6] as u64, bytes[7] as u64);
        match self.endian {
            Endian::Little => Ok(
                b0 + 256 * b1 + 65536 * b2 + 16777216 * b3 + 4294967296 * b4 + 1099511627776 * b5
                    + 281474976710656 * b6 + 72057594037927936 * b7,
            ),
            Endian::Big => Ok(
                b0 * 72057594037927936 + b1 * 281474976710656 + b2 * 1099511627776 + b3
                    * 4294967296 + b4 * 16777216 + b5 * 65536 + b6 * 256 + b7,
            ),
        }
    }
}

/// Whether `n` is a power of two.
pub open spec fn is_pow2(n: nat) -> bool
    decreases n,
{
    if n == 0 {
        false
    } else if n == 1 {
        true
    } else {
        n % 2 == 0 && is_pow2(n / 2)
    }
}

/// Whether `n` is a power of two (`u64::is_power_of_two`).
pub fn is_power_of_two(n: u64) -> (r: bool)
    ensures
        r == is_pow2(n as nat),
{
    let mut m = n;
    while m > 1 && m % 2 == 0
        invariant
            is_pow2(m as nat) == is_pow2(n as nat),
        decreases m,
    {
        m = m / 2;
    }
    m == 1
}

/// A loadable segment: where it lies in memory and whether it is executable.
#[derive(Clone, Copy, Debug, PartialEq, Eq, Structural)]
pub struct LoadSegment {
    pub virtual_address: u64,
    pub memory_size: u64,
    pub executable: bool,
}

/// The loadable segments of an image and the lowest aligned segment start.
#[derive(Debug)]
pub struct LoadImage {
    pub base: Option<u64>,
    pub segments: Vec<LoadSegment>,
}

impl View for LoadImage {
    type V = (Option<u64>, Seq<LoadSegment>);

    open spec fn view(&self) -> (Option<u64>, Seq<LoadSegment>) {
        (self.base, self.segments@)
    }
}

/// The smallest program header entry of a class.
pub open spec fn min_program_entry(class: Class) -> nat {
    match class {
        Class::Elf32 => 32,
        Class::Elf64 => 56,
    }
}

/// `address` rounded down to a multiple of `alignment` (no rounding for an
/// alignment of 0 or 1).
pub open spec fn aligned_down(address: nat, alignment: nat) -> nat {
    if alignment > 1 {
        (address - address % alignment) as nat
    } else {
        address
    }
}

/// What the program header at `offset` contributes: nothing when it is not
/// `PT_LOAD`, else its segment and aligned start, or why it is invalid.
pub open spec fn load_entry(bytes: Seq<u8>, endian: Endian, class: Class, offset: int) -> Result<
    Option<(LoadSegment, nat)>,
    ParseError,
> {
    if field_at(bytes, endian, offset, 4) != 1 {
        Ok(None)
    } else {
        let (flags, file_offset, virtual_address, file_size, memory_size, alignment) = match class {
            Class::Elf32 => (
                field_at(bytes, endian, offset + 24, 4),
                field_at(bytes, endian, offset + 4, 4),
                field_at(bytes, endian, offset + 8, 4),
                field_at(bytes, endian, offset + 16, 4),
                field_at(bytes, endian, offset + 20, 4),
                field_at(bytes, endian, offset + 28, 4),
            ),
            Class::Elf64 => (
                field_at(bytes, endian, offset + 4, 4),
                field_at(bytes, endian, offset + 8, 8),
                field_at(bytes, endian, offset + 16, 8),
                field_at(bytes, endian, offset + 32, 8),
                field_at(bytes, endian, offset + 40, 8),
                field_at(bytes, endian, offset + 48, 8),
            ),
        };
        if file_size > memory_size {
            Err(ParseError::LoadExceedsMemory)
        } else if alignment > 1 && (!is_pow2(alignment) || virtual_address % alignment
            != file_offset % alignment) {
            Err(ParseError::InvalidLoadAlignment)
        } else {
            match range_error(file_offset as u64, file_size as u64, bytes.len()) {
                Some(e) => Err(e),
                None => Ok(
                    Some(
                        (
                            LoadSegment {
                                virtual_address: virtual_address as u64,
                                memory_size: memory_size as u64,
                                executable: flags % 2 == 1,
                            },
                            aligned_down(virtual_address, alignment),
                        ),
                    ),
                ),
            }
        }
    }
}

/// The lower of an optional base and a segment start.
pub open spec fn lower_base(base: Option<u64>, start: nat) -> Option<u64> {
    match base {
        None => Some(start as u64),
        Some(b) => Some(if b <= start { b } else { start as u64 }),
    }
}

/// The load image of the first `n` program headers of a table, or the
/// first error among them.
pub open spec fn load_scan(
    bytes: Seq<u8>,
    endian: Endian,
    class: Class,
    table_offset: int,
    entry_size: int,
    n: nat,
) -> Result<(Option<u64>, Seq<LoadSegment>), ParseError>
    decreases n,
{
    if n == 0 {
        Ok((None, Seq::empty()))
    } else {
        match load_scan(bytes, endian, class, table_offset, entry_size, (n - 1) as nat) {
            Err(e) => Err(e),
            Ok((base, segments)) => match load_entry(
                bytes,
                endian,
                class,
                table_offset + (n - 1) * entry_size,
            ) {
                Err(e) => Err(e),
                Ok(None) => Ok((base, segments)),
                Ok(Some((segment, start))) => Ok((lower_base(base, start), segments.push(segment))),
            },
        }
    }
}

/// The load image described by a program header table, or why it is
/// invalid.
pub open spec fn load_image_of(
    bytes: Seq<u8>,
    endian: Endian,
    class: Class,
    table_offset: u64,
    entry_size: usize,
    entry_count: usize,
) -> Result<(Option<u64>, Seq<LoadSegment>), ParseError> {
    if entry_count == 0 {
        Ok((None, Seq::empty()))
    } else if table_offset == 0 {
        Err(ParseError::ProgramTableMissing)
    } else if entry_size < min_program_entry(class) {
        Err(ParseError::InvalidProgramEntrySize)
    } else if entry_size * entry_count > usize::MAX {
        Err(ParseError::ProgramTableTooLarge)
    } else {
        match range_error(table_offset, (entry_size * entry_count) as u64, bytes.len()) {
            Some(e) => Err(e),
            None => load_scan(bytes, endian, class, table_offset as int, entry_size as int, entry_count as nat),
        }
    }
}

proof fn lemma_load_scan_error(
    bytes: Seq<u8>,
    endian: Endian,
    class: Class,
    table_offset: int,
    entry_size: int,
    i: nat,
    j: nat,
)
    requires
        i <= j,
        load_scan(bytes, endian, class, table_offset, entry_size, i) is Err,
    ensures
        load_scan(bytes, endian, class, table_offset, entry_size, j) == load_scan(
            bytes,
            endian,
            class,
            table_offset,
            entry_size,
            i,
        ),
    decreases j - i,
{
    if i < j {
        lemma_load_scan_error(bytes, endian, class, table_offset, entry_size, i, (j - 1) as nat);
    }
}

proof fn lemma_entry_in_table(index: int, count: int, size: int)
    by (nonlinear_arith)
    requires
        0 <= index < count,
        0 <= size,
    ensures
        0 <= index * size,
        index * size + size <= count * size,
        index * size + size <= size * count,
{
}

/// A read of a range within the bytes succeeds with the bytes' value.
pub proof fn lemma_field_in_range(bytes: Seq<u8>, endian: Endian, offset: u64, width: u64)
    requires
        offset + width <= bytes.len(),
        bytes.len() <= usize::MAX,
    ensures
        field(bytes, endian, offset, width) == Ok::<nat, ParseError>(
            field_at(bytes, endian, offset as int, width as int),
        ),
{
}

proof fn lemma_odd_flag(flags: u32)
    ensures
        (flags & 1u32 != 0) == (flags % 2 == 1),
{
    assert((flags & 1u32 != 0) == (flags % 2 == 1)) by (bit_vector);
}

/// The contribution of the program header at `offset` (see `load_entry`).
fn load_entry_at(reader: &Reader<'_>, class: Class, offset: u64) -> (r: Result<Option<(LoadSegment, u64)>, ParseError>)
    requires
        offset + min_program_entry(class) <= reader.bytes@.len(),
    ensures
        load_entry(reader.bytes@, reader.endian, class, offset as int) == match r {
            Ok(None) => Ok::<Option<(LoadSegment, nat)>, ParseError>(None),
            Ok(Some((segment, start))) => Ok(Some((segment, start as nat))),
            Err(e) => Err(e),
        },
{
    let len = reader.bytes.len();
    let ghost bytes = reader.bytes@;
    let ghost endian = reader.endian;
    let ghost o = offset as int;
    proof {
        lemma_field_in_range(bytes, endian, offset, 4);
    }
    let kind = reader.u32(offset)?;
    if kind != PT_LOAD {
        return Ok(None);
    }
    let (flags, file_offset, virtual_address, file_size, memory_size, alignment) = match class {
        Class::Elf32 => {
            proof {
                lemma_field_in_range(bytes, endian, (o + 24) as u64, 4);
                lemma_field_in_range(bytes, endian, (o + 4) as u64, 4);
                lemma_field_in_range(bytes, endian, (o + 8) as u64, 4);
                lemma_field_in_range(bytes, endian, (o + 16) as u64, 4);
                lemma_field_in_range(bytes, endian, (o + 20) as u64, 4);
                lemma_field_in_range(bytes, endian, (o + 28) as u64, 4);
            }
            (
                reader.u32(offset + 24)?,
                reader.u32(offset + 4)? as u64,
                reader.u32(offset + 8)? as u64,
                reader.u32(offset + 16)? as u64,
                reader.u32(offset + 20)? as u64,
                reader.u32(offset + 28)? as u64,
            )
        },
        Class::Elf64 => {
            proof {
                lemma_field_in_range(bytes, endian, (o + 4) as u64, 4);
                lemma_field_in_range(bytes, endian, (o + 8) as u64, 8);
                lemma_field_in_range(bytes, endian, (o + 16) as u64, 8);
                lemma_field_in_range(bytes, endian, (o + 32) as u64, 8);
                lemma_field_in_range(bytes, endian, (o + 40) as u64, 8);
                lemma_field_in_range(bytes, endian, (o + 48) as u64, 8);
            }
            (
                reader.u32(offset + 4)?,
                reader.u64(offset + 8)?,
                reader.u64(offset + 16)?,
                reader.u64(offset + 32)?,
                reader.u64(offset + 40)?,
                reader.u64(offset + 48)?,
            )
        },
    };
    if file_size > memory_size {
        return Err(ParseError::LoadExceedsMemory);
    }
    if alignment > 1 && (!is_power_of_two(alignment) || virtual_address % alignment
        != file_offset % alignment) {
        return Err(ParseError::InvalidLoadAlignment);
    }
    reader.range(file_offset, file_size)?;
    let segment_base = if alignment > 1 {
        assert(virtual_address % alignment <= virtual_address) by (nonlinear_arith)
            requires
                alignment > 1,
        ;
        virtual_address - virtual_address % alignment
    } else {
        virtual_address
    };
    proof {
        lemma_odd_flag(flags);
    }
    Ok(Some((LoadSegment { virtual_address, memory_size, executable: flags & PF_X != 0 }, segment_base)))
}

/// Reads the program header table: the loadable segments, checked for a
/// file size within the memory size, a power-of-two alignment that agrees
/// between file and memory, and file contents within the image; and the
/// lowest aligned segment start as the image base.
pub fn parse_load_image(
    reader: &Reader<'_>,
    class: Class,
    table_offset: u64,
    entry_size: usize,
    entry_count: usize,
) -> (r: Result<LoadImage, ParseError>)
    ensures
        match load_image_of(reader.bytes@, reader.endian, class, table_offset, entry_size, entry_count) {
            Ok(v) => r is Ok && r->Ok_0@ == v,
            Err(e) => r is Err && r->Err_0 == e,
        },
{
    if entry_count == 0 {
        return Ok(LoadImage { base: None, segments: Vec::new() });
    }
    if table_offset == 0 {
        return Err(ParseError::ProgramTableMissing);
    }
    let minimum_size: usize = match class {
        Class::Elf32 => 32,
        Class::Elf64 => 56,
    };
    if entry_size < minimum_size {
        return Err(ParseError::InvalidProgramEntrySize);
    }
    let table_size = match entry_size.checked_mul(entry_count) {
        Some(size) => size,
        None => {
            return Err(ParseError::ProgramTableTooLarge);
        },
    };
    reader.range(table_offset, table_size as u64)?;
    let len = reader.bytes.len();
    let ghost bytes = reader.bytes@;
    let ghost endian = reader.endian;

    let mut base: Option<u64> = None;
    let mut segments: Vec<LoadSegment> = Vec::new();
    let mut index: usize = 0;
    while index < entry_count
        invariant
            index <= entry_count,
            minimum_size == min_program_entry(class),
            minimum_size <= entry_size,
            table_size == entry_size * entry_count,
            table_offset + table_size <= len,
            len == bytes.len(),
            bytes == reader.bytes@,
            endian == reader.endian,
            load_image_of(bytes, endian, class, table_offset, entry_size, entry_count) == load_scan(
                bytes,
                endian,
                class,
                table_offset as int,
                entry_size as int,
                entry_count as nat,
            ),
            load_scan(bytes, endian, class, table_offset as int, entry_size as int, index as nat)
                == Ok::<(Option<u64>, Seq<LoadSegment>), ParseError>((base, segments@)),
        decreases entry_count - index,
    {
        proof {
            lemma_entry_in_table(index as int, entry_count as int, entry_size as int);
        }
        let offset = table_offset + (index * entry_size) as u64;
        proof {
            let n = (index + 1) as nat;
            assert((n - 1) * entry_size == index * entry_size);
            assert(table_offset + (n - 1) * entry_size == offset as int);
        }
        match load_entry_at(reader, class, offset) {
            Err(e) => {
                proof {
                    lemma_load_scan_error(bytes, endian, class, table_offset as int, entry_size as int, (index + 1) as nat, entry_count as nat);
                }
                return Err(e);
            },
            Ok(None) => {},
            Ok(Some((segment, segment_base))) => {
                base = match base {
                    None => Some(segment_base),
                    Some(existing) => Some(if existing <= segment_base { existing } else { segment_base }),
                };
                segments.push(segment);
            },
        }
        index = index + 1;
    }
    Ok(LoadImage { base, segments })
}

/// A section header: its type, where its contents lie, its linked section
/// and the size of its entries.
#[derive(Clone, Copy, Debug, PartialEq, Eq, Structural)]
pub struct Section {
    pub kind: u32,
    pub offset: u64,
    pub size: u64,
    pub link: usize,
    pub entry_size: u64,
}

/// The smallest section header entry of a class.
pub open spec fn min_section_entry(class: Class) -> nat {
    match class {
        Class::Elf32 => 40,
        Class::Elf64 => 64,
    }
}

/// The field of `width` bytes at position `offset`, where a position past
/// the largest offset lies beyond any image and reads as truncated data.
pub open spec fn field_beyond(bytes: Seq<u8>, endian: Endian, offset: int, width: u64) -> Result<nat, ParseError> {
    if offset > u64::MAX {
        Err(ParseError::Truncated)
    } else {
        field(bytes, endian, offset as u64, width)
    }
}

/// The section header at `offset`, read field by field in the order of the
/// format (type, offset, size, link, entry size); the first failing read's
/// error.
pub open spec fn section_fields(bytes: Seq<u8>, endian: Endian, class: Class, offset: int) -> Result<
    Section,
    ParseError,
> {
    let (o_offset, o_size, o_link, o_entry, w) = match class {
        Class::Elf32 => (16int, 20int, 24int, 36int, 4u64),
        Class::Elf64 => (24int, 32int, 40int, 56int, 8u64),
    };
    match field(bytes, endian, (offset + 4) as u64, 4) {
        Err(e) => Err(e),
        Ok(kind) => match field_beyond(bytes, endian, offset + o_offset, w) {
            Err(e) => Err(e),
            Ok(section_offset) => match field_beyond(bytes, endian, offset + o_size, w) {
                Err(e) => Err(e),
                Ok(size) => match field_beyond(bytes, endian, offset + o_link, 4) {
                    Err(e) => Err(e),
                    Ok(link) => match field_beyond(bytes, endian, offset + o_entry, w) {
                        Err(e) => Err(e),
                        Ok(entry_size) => Ok(
                            Section {
                                kind: kind as u32,
                                offset: section_offset as u64,
                                size: size as u64,
                                link: link as usize,
                                entry_size: entry_size as u64,
                            },
                        ),
                    },
                },
            },
        },
    }
}

/// The position `distance` bytes after `offset`, or, past the largest
/// offset, the error of a read beyond the image.
fn field_position(offset: u64, distance: u64) -> (r: Result<u64, ParseError>)
    ensures
        match r {
            Ok(p) => p == offset + distance,
            Err(e) => offset + distance > u64::MAX && e == ParseError::Truncated,
        },
{
    match offset.checked_add(distance) {
        Some(p) => Ok(p),
        None => Err(ParseError::Truncated),
    }
}

/// The section header at position `index` of a table, or why it cannot be
/// read.
pub open spec fn section_of(
    bytes: Seq<u8>,
    endian: Endian,
    class: Class,
    table_offset: u64,
    entry_size: usize,
    index: usize,
) -> Result<Section, ParseError> {
    if entry_size < min_section_entry(class) {
        Err(ParseError::InvalidSectionEntrySize)
    } else if index * entry_size > usize::MAX || table_offset + index * entry_size > u64::MAX {
        Err(ParseError::SectionOffsetOverflow)
    } else {
        section_fields(bytes, endian, class, table_offset + index * entry_size)
    }
}

/// Reads the section header at position `index` of a table.
pub fn section_at(
    reader: &Reader<'_>,
    class: Class,
    table_offset: u64,
    entry_size: usize,
    index: usize,
) -> (r: Result<Section, ParseError>)
    requires
        min_section_entry(class) <= entry_size && index * entry_size <= usize::MAX && table_offset
            + index * entry_size <= u64::MAX ==> table_offset + index * entry_size + 4 <= u64::MAX,
    ensures
        r == section_of(reader.bytes@, reader.endian, class, table_offset, entry_size, index),
{
    let minimum_size: usize = match class {
        Class::Elf32 => 40,
        Class::Elf64 => 64,
    };
    if entry_size < minimum_size {
        return Err(ParseError::InvalidSectionEntrySize);
    }
    let relative_offset = match index.checked_mul(entry_size) {
        Some(v) => v,
        None => {
            return Err(ParseError::SectionOffsetOverflow);
        },
    };
    let offset = match table_offset.checked_add(relative_offset as u64) {
        Some(v) => v,
        None => {
            return Err(ParseError::SectionOffsetOverflow);
        },
    };
    match class {
        Class::Elf32 => {
            let kind = reader.u32(offset + 4)?;
            let section_offset = reader.u32(field_position(offset, 16)?)? as u64;
            let size = reader.u32(field_position(offset, 20)?)? as u64;
            let link = reader.u32(field_position(offset, 24)?)? as usize;
            let entry_size = reader.u32(field_position(offset, 36)?)? as u64;
            Ok(Section { kind, offset: section_offset, size, link, entry_size })
        },
        Class::Elf64 => {
            let kind = reader.u32(offset + 4)?;
            let section_offset = reader.u64(field_position(offset, 24)?)?;
            let size = reader.u64(field_position(offset, 32)?)?;
            let link = reader.u32(field_position(offset, 40)?)? as usize;
            let entry_size = reader.u64(field_position(offset, 56)?)?;
            Ok(Section { kind, offset: section_offset, size, link, entry_size })
        },
    }
}

/// Whether the zero byte at `end` is the first zero byte of `s`.
pub open spec fn terminated_at(s: Seq<u8>, end: int) -> bool {
    &&& 0 <= end < s.len()
    &&& s[end] == 0
    &&& forall|j: int| 0 <= j < end ==> s[j] != 0
}

/// The bytes from `offset` up to the next zero byte; nothing when `offset`
/// lies beyond the end or no zero byte follows it.
pub open spec fn c_string(bytes: Seq<u8>, offset: int) -> Option<Seq<u8>> {
    let tail = bytes.subrange(offset, bytes.len() as int);
    if 0 <= offset <= bytes.len() && exists|end: int| terminated_at(tail, end) {
        Some(tail.take(choose|end: int| terminated_at(tail, end)))
    } else {
        None
    }
}

/// The string at `offset` of a string table: its bytes, when they are
/// terminated and valid UTF-8.
pub open spec fn string_at(bytes: Seq<u8>, offset: int) -> Option<Seq<u8>> {
    match c_string(bytes, offset) {
        Some(s) => if valid_utf8(s) {
            Some(s)
        } else {
            None
        },
        None => None,
    }
}

/// `std::str::from_utf8`: the bytes as a string slice when they are valid
/// UTF-8 (the slice then holds exactly those bytes), else nothing.
#[verifier::external_body]
fn utf8_str(bytes: &[u8]) -> (r: Option<&str>)
    ensures
        r is Some <==> valid_utf8(bytes@),
        r matches Some(s) ==> s.spec_bytes() == bytes@ && s@ == decode_utf8(bytes@),
{
    std::str::from_utf8(bytes).ok()
}

proof fn lemma_terminated_unique(s: Seq<u8>, a: int, b: int)
    requires
        terminated_at(s, a),
        terminated_at(s, b),
    ensures
        a == b,
{
    if a < b {
        assert(s[a] != 0);
    } else if b < a {
        assert(s[b] != 0);
    }
}

/// The zero-terminated, UTF-8 string at `offset` of a string table.
pub fn read_string(bytes: &[u8], offset: usize) -> (r: Option<&str>)
    ensures
        match string_at(bytes@, offset as int) {
            Some(s) => r is Some && r->Some_0.spec_bytes() == s && r->Some_0@ == decode_utf8(s),
            None => r is None,
        },
{
    let len = bytes.len();
    if offset > len {
        return None;
    }
    let tail = &bytes[offset..len];
    let ghost t = bytes@.subrange(offset as int, len as int);
    assert(tail@ == t);
    let mut end: usize = 0;
    while end < tail.len() && tail[end] != 0
        invariant
            end <= tail@.len(),
            tail@ == t,
            forall|j: int| 0 <= j < end ==> t[j] != 0,
        decreases tail@.len() - end,
    {
        end = end + 1;
    }
    if end == tail.len() {
        assert(!exists|e: int| terminated_at(t, e)) by {
            if exists|e: int| terminated_at(t, e) {
                let e = choose|e: int| terminated_at(t, e);
                assert(t[e] != 0);
            }
        }
        return None;
    }
    proof {
        assert(terminated_at(t, end as int));
        let c = choose|e: int| terminated_at(t, e);
        lemma_terminated_unique(t, c, end as int);
    }
    let name = &tail[0..end];
    assert(name@ == t.take(end as int));
    utf8_str(name)
}

/// An exported dynamic symbol: its name, address in the image and size.
#[derive(Clone, Copy, Debug)]
pub struct Symbol<'a> {
    pub name: &'a str,
    pub value: u64,
    pub size: u64,
}

/// A symbol as plain values: the name's bytes, the value and the size.
pub type SymbolView = (Seq<u8>, u64, u64);

impl<'a> View for Symbol<'a> {
    type V = SymbolView;

    open spec fn view(&self) -> SymbolView {
        (self.name.spec_bytes(), self.value, self.size)
    }
}

/// The views of a sequence of symbols.
pub open spec fn symbol_views<'a>(s: Seq<Symbol<'a>>) -> Seq<SymbolView> {
    s.map_values(|x: Symbol<'a>| x@)
}

/// Lexicographic order of byte strings (`<` on `[u8]` and on `str`).
pub open spec fn bytes_lt(a: Seq<u8>, b: Seq<u8>) -> bool
    decreases a.len(),
{
    if a.len() == 0 {
        b.len() > 0
    } else if b.len() == 0 {
        false
    } else if a[0] != b[0] {
        a[0] < b[0]
    } else {
        bytes_lt(a.drop_first(), b.drop_first())
    }
}

/// The order of exports: by value, then by name.
pub open spec fn symbol_lt(a: SymbolView, b: SymbolView) -> bool {
    a.1 < b.1 || (a.1 == b.1 && bytes_lt(a.0, b.0))
}

/// Whether no symbol comes after one that it orders before.
pub open spec fn sorted_by_address(s: Seq<SymbolView>) -> bool {
    forall|i: int, j: int| 0 <= i < j < s.len() ==> !symbol_lt(#[trigger] s[j], #[trigger] s[i])
}

/// Lexicographic order is asymmetric.
pub proof fn lemma_bytes_lt_asymmetric(a: Seq<u8>, b: Seq<u8>)
    ensures
        bytes_lt(a, b) ==> !bytes_lt(b, a),
    decreases a.len(),
{
    if a.len() > 0 && b.len() > 0 && a[0] == b[0] {
        lemma_bytes_lt_asymmetric(a.drop_first(), b.drop_first());
    }
}

/// Lexicographic order is transitive.
pub proof fn lemma_bytes_lt_transitive(a: Seq<u8>, b: Seq<u8>, c: Seq<u8>)
    ensures
        bytes_lt(a, b) && bytes_lt(b, c) ==> bytes_lt(a, c),
    decreases a.len(),
{
    if a.len() > 0 && b.len() > 0 && c.len() > 0 {
        lemma_bytes_lt_transitive(a.drop_first(), b.drop_first(), c.drop_first());
    }
}

/// The order of exports is a strict order.
pub proof fn lemma_symbol_lt_strict(a: SymbolView, b: SymbolView, c: SymbolView)
    ensures
        symbol_lt(a, b) ==> !symbol_lt(b, a),
        symbol_lt(a, b) && symbol_lt(b, c) ==> symbol_lt(a, c),
{
    lemma_bytes_lt_asymmetric(a.0, b.0);
    lemma_bytes_lt_transitive(a.0, b.0, c.0);
}

/// Whether `a` orders before `b` lexicographically.
pub fn bytes_less(a: &[u8], b: &[u8]) -> (r: bool)
    ensures
        r == bytes_lt(a@, b@),
{
    let mut i: usize = 0;
    assert(a@.skip(0) =~= a@ && b@.skip(0) =~= b@);
    while i < a.len() && i < b.len() && a[i] == b[i]
        invariant
            i <= a@.len(),
            i <= b@.len(),
            bytes_lt(a@, b@) == bytes_lt(a@.skip(i as int), b@.skip(i as int)),
        decreases a@.len() - i,
    {
        proof {
            assert(a@.skip(i as int).drop_first() =~= a@.skip(i + 1));
            assert(b@.skip(i as int).drop_first() =~= b@.skip(i + 1));
        }
        i = i + 1;
    }
    if i < a.len() && i < b.len() {
        a[i] < b[i]
    } else {
        i == a.len() && i < b.len()
    }
}

/// Whether `a` orders before `b` among the exports.
pub fn symbol_less(a: &Symbol<'_>, b: &Symbol<'_>) -> (r: bool)
    ensures
        r == symbol_lt(a@, b@),
{
    a.value < b.value || (a.value == b.value && bytes_less(a.name.as_bytes(), b.name.as_bytes()))
}

proof fn lemma_insert_multiset<A>(s: Seq<A>, i: int, a: A)
    requires
        0 <= i <= s.len(),
    ensures
        s.insert(i, a).to_multiset() =~= s.to_multiset().insert(a),
{
    broadcast use vstd::seq_lib::group_to_multiset_ensures;
    let t = s.insert(i, a);
    assert(t.remove(i) =~= s);
    assert(t[i] == a);
}

/// Inserts `symbol` after every export that does not order after it.
fn insert_sorted<'a>(out: &mut Vec<Symbol<'a>>, symbol: Symbol<'a>)
    requires
        sorted_by_address(symbol_views(old(out)@)),
    ensures
        sorted_by_address(symbol_views(final(out)@)),
        symbol_views(final(out)@).to_multiset() =~= symbol_views(old(out)@).to_multiset().insert(symbol@),
{
    let ghost before = symbol_views(out@);
    let mut pos: usize = 0;
    while pos < out.len() && !symbol_less(&symbol, &out[pos])
        invariant
            pos <= out@.len(),
            out@ == old(out)@,
            forall|j: int| 0 <= j < pos ==> !symbol_lt(symbol@, #[trigger] before[j]),
            before == symbol_views(out@),
        decreases out@.len() - pos,
    {
        pos = pos + 1;
    }
    out.insert(pos, symbol);
    proof {
        let after = symbol_views(out@);
        assert(after =~= before.insert(pos as int, symbol@));
        lemma_insert_multiset(before, pos as int, symbol@);
        assert forall|i: int, j: int| 0 <= i < j < after.len() implies !symbol_lt(
            #[trigger] after[j],
            #[trigger] after[i],
        ) by {
            let p = pos as int;
            if j < p {
                assert(after[i] == before[i] && after[j] == before[j]);
            } else if j == p {
                assert(after[i] == before[i]);
            } else if i == p {
                assert(after[j] == before[j - 1]);
                assert(symbol_lt(symbol@, before[p]));
                if p < j - 1 {
                    assert(!symbol_lt(before[j - 1], before[p]));
                }
                lemma_symbol_lt_strict(before[j - 1], symbol@, before[p]);
                lemma_symbol_lt_strict(symbol@, before[p], symbol@);
            } else if i < p {
                assert(after[i] == before[i] && after[j] == before[j - 1]);
            } else {
                assert(after[i] == before[i - 1] && after[j] == before[j - 1]);
            }
        }
    }
}

/// The exports ordered by value, then by name.
pub fn sort_by_address<'a>(symbols: &Vec<Symbol<'a>>) -> (sorted: Vec<Symbol<'a>>)
    ensures
        sorted_by_address(symbol_views(sorted@)),
        symbol_views(sorted@).to_multiset() =~= symbol_views(symbols@).to_multiset(),
{
    broadcast use vstd::seq_lib::group_to_multiset_ensures;
    let mut sorted: Vec<Symbol<'a>> = Vec::new();
    let mut i: usize = 0;
    while i < symbols.len()
        invariant
            i <= symbols@.len(),
            sorted_by_address(symbol_views(sorted@)),
            symbol_views(sorted@).to_multiset() =~= symbol_views(symbols@.take(i as int)).to_multiset(),
        decreases symbols@.len() - i,
    {
        insert_sorted(&mut sorted, symbols[i]);
        proof {
            let prefix = symbol_views(symbols@.take(i as int));
            assert(symbol_views(symbols@.take(i + 1)) =~= prefix.push(symbols@[i as int]@));
            prefix.to_multiset_ensures();
            assert(prefix.push(symbols@[i as int]@).to_multiset() =~= prefix.to_multiset().insert(symbols@[i as int]@));
        }
        i = i + 1;
    }
    proof {
        assert(symbols@.take(i as int) =~= symbols@);
    }
    sorted
}

/// The smallest dynamic symbol entry of a class.
pub open spec fn min_symbol_entry(class: Class) -> nat {
    match class {
        Class::Elf32 => 16,
        Class::Elf64 => 24,
    }
}

/// The export described by the symbol entry at `offset`, when it is a
/// defined function (or indirect function) of global, weak or unique
/// binding with a non-empty name in the string table.
pub open spec fn symbol_entry(
    bytes: Seq<u8>,
    endian: Endian,
    class: Class,
    offset: int,
    strings: Seq<u8>,
) -> Option<SymbolView> {
    let (name_offset, info, section_index, value, size) = match class {
        Class::Elf32 => (
            field_at(bytes, endian, offset, 4),
            field_at(bytes, endian, offset + 12, 1),
            field_at(bytes, endian, offset + 14, 2),
            field_at(bytes, endian, offset + 4, 4),
            field_at(bytes, endian, offset + 8, 4),
        ),
        Class::Elf64 => (
            field_at(bytes, endian, offset, 4),
            field_at(bytes, endian, offset + 4, 1),
            field_at(bytes, endian, offset + 6, 2),
            field_at(bytes, endian, offset + 8, 8),
            field_at(bytes, endian, offset + 16, 8),
        ),
    };
    let binding = info / 16;
    let kind = info % 16;
    if section_index == 0 || !(binding == 1 || binding == 2 || binding == 10) || !(kind == 2 || kind
        == 10) {
        None
    } else {
        match string_at(strings, name_offset as int) {
            Some(name) => if name.len() > 0 {
                Some((name, value as u64, size as u64))
            } else {
                None
            },
            None => None,
        }
    }
}

/// The position of the flags word in a program header of a class.
pub open spec fn flags_position(class: Class) -> int {
    match class {
        Class::Elf32 => 24,
        Class::Elf64 => 4,
    }
}

/// The least significant byte of the 4-byte word at `offset`.
pub open spec fn low_byte(bytes: Seq<u8>, endian: Endian, offset: int) -> u8 {
    match endian {
        Endian::Little => bytes[offset],
        Endian::Big => bytes[offset + 3],
    }
}

proof fn lemma_word_parity(s: Seq<u8>, endian: Endian)
    requires
        s.len() == 4,
    ensures
        uint_value(s, endian) % 2 == (match endian {
            Endian::Little => s[0],
            Endian::Big => s[3],
        }) % 2,
{
    lemma_le4(s);
    let (a, b, c, d) = (s[0] as int, s[1] as int, s[2] as int, s[3] as int);
    assert((a + 256 * b + 65536 * c + 16777216 * d) % 2 == a % 2) by (nonlinear_arith);
    assert((a * 16777216 + b * 65536 + c * 256 + d) % 2 == d % 2) by (nonlinear_arith);
}

/// A loadable segment is executable exactly when bit `PF_X` (the lowest
/// bit) of its flags is set, whatever other flag bits are set.
pub proof fn lemma_load_segment_executable(bytes: Seq<u8>, endian: Endian, class: Class, offset: int)
    requires
        0 <= offset,
        offset + min_program_entry(class) <= bytes.len(),
    ensures
        load_entry(bytes, endian, class, offset) matches Ok(Some((segment, _))) ==> (segment.executable <==> low_byte(
            bytes,
            endian,
            offset + flags_position(class),
        ) & (PF_X as u8) != 0),
{
    let o = offset + flags_position(class);
    let word = bytes.subrange(o, o + 4);
    lemma_word_parity(word, endian);
    let low = low_byte(bytes, endian, o);
    assert(low == (match endian {
        Endian::Little => word[0],
        Endian::Big => word[3],
    }));
    assert((low & 1u8 != 0) <==> (low % 2 == 1)) by (bit_vector);
}

/// The position of the info byte and of the section index in a symbol
/// entry of a class.
pub open spec fn symbol_positions(class: Class) -> (int, int) {
    match class {
        Class::Elf32 => (12, 14),
        Class::Elf64 => (4, 6),
    }
}

/// Whether a symbol entry describes an exported function: defined (its
/// section index is not zero), of global (1), weak (2) or unique (10)
/// binding in the high four bits of its info byte, and of function (2) or
/// indirect function (10) type in the low four bits.
pub open spec fn exported_function(bytes: Seq<u8>, class: Class, offset: int) -> bool {
    let (info_at, section_at) = symbol_positions(class);
    let info = bytes[offset + info_at];
    let binding = info >> 4u8;
    let kind = info & 0x0fu8;
    &&& (bytes[offset + section_at] != 0 || bytes[offset + section_at + 1] != 0)
    &&& (binding == 1 || binding == 2 || binding == 10)
    &&& (kind == 2 || kind == 10)
}

proof fn lemma_half_word_zero(s: Seq<u8>, endian: Endian)
    requires
        s.len() == 2,
    ensures
        (uint_value(s, endian) == 0) <==> (s[0] == 0 && s[1] == 0),
{
    lemma_le2(s);
}

/// A symbol entry is an export exactly when it describes an exported
/// function whose name in the string table is non-empty UTF-8; the export
/// then has that name and the entry's value and size.
pub proof fn lemma_symbol_exported(bytes: Seq<u8>, endian: Endian, class: Class, offset: int, strings: Seq<u8>)
    requires
        0 <= offset,
        offset + min_symbol_entry(class) <= bytes.len(),
    ensures
        symbol_entry(bytes, endian, class, offset, strings) is Some <==> (exported_function(bytes, class, offset)
            && (string_at(strings, field_at(bytes, endian, offset, 4) as int) matches Some(name) && name.len()
            > 0)),
        symbol_entry(bytes, endian, class, offset, strings) matches Some(symbol) ==> symbol.0 == string_at(
            strings,
            field_at(bytes, endian, offset, 4) as int,
        )->Some_0,
{
    let (info_at, section_at) = symbol_positions(class);
    let info = bytes[offset + info_at];
    let one = bytes.subrange(offset + info_at, offset + info_at + 1);
    reveal_with_fuel(le_value, 2);
    reveal_with_fuel(be_value, 2);
    assert(one.drop_first().len() == 0 && one.drop_last().len() == 0);
    assert(uint_value(one, endian) == info);
    let two = bytes.subrange(offset + section_at, offset + section_at + 2);
    lemma_half_word_zero(two, endian);
    assert(two[0] == bytes[offset + section_at] && two[1] == bytes[offset + section_at + 1]);
    assert(info >> 4u8 == info / 16) by (bit_vector);
    assert(info & 0x0fu8 == info % 16) by (bit_vector);
}

/// Every export of a symbol table's first `n` entries is in the scan of
/// them: the entry at position `k` that is an export appears among them.
pub proof fn lemma_export_in_scan(
    bytes: Seq<u8>,
    endian: Endian,
    class: Class,
    table_offset: int,
    entry_size: int,
    n: nat,
    strings: Seq<u8>,
    k: nat,
)
    requires
        k < n,
    ensures
        symbol_entry(bytes, endian, class, table_offset + k * entry_size, strings) matches Some(symbol)
            ==> symbol_scan(bytes, endian, class, table_offset, entry_size, n, strings).contains(symbol),
    decreases n,
{
    let earlier = symbol_scan(bytes, endian, class, table_offset, entry_size, (n - 1) as nat, strings);
    if k < n - 1 {
        lemma_export_in_scan(bytes, endian, class, table_offset, entry_size, (n - 1) as nat, strings, k);
        if let Some(symbol) = symbol_entry(bytes, endian, class, table_offset + k * entry_size, strings) {
            let i = choose|i: int| 0 <= i < earlier.len() && earlier[i] == symbol;
            match symbol_entry(bytes, endian, class, table_offset + (n - 1) * entry_size, strings) {
                Some(last) => assert(earlier.push(last)[i] == symbol),
                None => {},
            }
        }
    } else {
        if let Some(symbol) = symbol_entry(bytes, endian, class, table_offset + k * entry_size, strings) {
            assert(earlier.push(symbol)[earlier.len() as int] == symbol);
        }
    }
}

/// The exports among the first `n` entries of a symbol table, in table
/// order.
pub open spec fn symbol_scan(
    bytes: Seq<u8>,
    endian: Endian,
    class: Class,
    table_offset: int,
    entry_size: int,
    n: nat,
    strings: Seq<u8>,
) -> Seq<SymbolView>
    decreases n,
{
    if n == 0 {
        Seq::empty()
    } else {
        let earlier = symbol_scan(bytes, endian, class, table_offset, entry_size, (n - 1) as nat, strings);
        match symbol_entry(bytes, endian, class, table_offset + (n - 1) * entry_size, strings) {
            Some(symbol) => earlier.push(symbol),
            None => earlier,
        }
    }
}

/// The position of the first dynamic symbol table among the first `n`
/// section headers.
pub open spec fn first_dynsym(
    bytes: Seq<u8>,
    endian: Endian,
    class: Class,
    table_offset: u64,
    entry_size: usize,
    n: nat,
) -> Option<usize>
    decreases n,
{
    if n == 0 {
        None
    } else {
        match first_dynsym(bytes, endian, class, table_offset, entry_size, (n - 1) as nat) {
            Some(i) => Some(i),
            None => match section_of(bytes, endian, class, table_offset, entry_size, (n - 1) as usize) {
                Ok(section) => if section.kind == 11 {
                    Some((n - 1) as usize)
                } else {
                    None
                },
                Err(_) => None,
            },
        }
    }
}

/// The exports described by a section header table, in table order, or why
/// they cannot be read.
pub open spec fn exports_of(
    bytes: Seq<u8>,
    endian: Endian,
    class: Class,
    table_offset: u64,
    entry_size: usize,
    count: usize,
) -> Result<Seq<SymbolView>, ParseError> {
    if count == 0 || table_offset == 0 {
        Ok(Seq::empty())
    } else if entry_size * count > usize::MAX {
        Err(ParseError::SectionTableTooLarge)
    } else if let Some(e) = range_error(table_offset, (entry_size * count) as u64, bytes.len()) {
        Err(e)
    } else if entry_size < min_section_entry(class) {
        Err(ParseError::InvalidSectionEntrySize)
    } else {
        match first_dynsym(bytes, endian, class, table_offset, entry_size, count as nat) {
            None => Ok(Seq::empty()),
            Some(i) => {
                let symbols = section_of(bytes, endian, class, table_offset, entry_size, i)->Ok_0;
                if symbols.link >= count {
                    Err(ParseError::MissingStringTable)
                } else {
                    let strings = section_of(
                        bytes,
                        endian,
                        class,
                        table_offset,
                        entry_size,
                        symbols.link,
                    )->Ok_0;
                    if let Some(e) = range_error(strings.offset, strings.size, bytes.len()) {
                        Err(e)
                    } else if symbols.entry_size < min_symbol_entry(class) || symbols.size
                        % symbols.entry_size != 0 {
                        Err(ParseError::InvalidSymbolEntrySize)
                    } else if let Some(e) = range_error(symbols.offset, symbols.size, bytes.len()) {
                        Err(e)
                    } else if symbols.size / symbols.entry_size > usize::MAX {
                        Err(ParseError::TooManySymbols)
                    } else {
                        Ok(
                            symbol_scan(
                                bytes,
                                endian,
                                class,
                                symbols.offset as int,
                                symbols.entry_size as int,
                                (symbols.size / symbols.entry_size) as nat,
                                bytes.subrange(
                                    strings.offset as int,
                                    strings.offset + strings.size,
                                ),
                            ),
                        )
                    }
                }
            },
        }
    }
}

/// Every header of a table that lies within the bytes, with entries large
/// enough, can be read.
pub proof fn lemma_section_in_table(
    bytes: Seq<u8>,
    endian: Endian,
    class: Class,
    table_offset: u64,
    entry_size: usize,
    count: usize,
    index: usize,
)
    requires
        index < count,
        min_section_entry(class) <= entry_size,
        table_offset + entry_size * count <= bytes.len(),
        bytes.len() <= usize::MAX,
    ensures
        section_of(bytes, endian, class, table_offset, entry_size, index) is Ok,
        index * entry_size + entry_size <= entry_size * count,
{
    lemma_entry_in_table(index as int, count as int, entry_size as int);
}

proof fn lemma_info_fields(info: u8)
    ensures
        info >> 4u8 == info / 16,
        info & 0x0fu8 == info % 16,
{
    assert(info >> 4u8 == info / 16) by (bit_vector);
    assert(info & 0x0fu8 == info % 16) by (bit_vector);
}

/// The export described by the symbol entry at `offset`, if any.
fn symbol_at<'a>(reader: &Reader<'a>, class: Class, offset: u64, strings: &'a [u8]) -> (r: Result<
    Option<Symbol<'a>>,
    ParseError,
>)
    requires
        offset + min_symbol_entry(class) <= reader.bytes@.len(),
    ensures
        r is Ok,
        match symbol_entry(reader.bytes@, reader.endian, class, offset as int, strings@) {
            Some(v) => r->Ok_0 is Some && r->Ok_0->Some_0@ == v,
            None => r->Ok_0 is None,
        },
{
    let len = reader.bytes.len();
    let ghost bytes = reader.bytes@;
    let ghost endian = reader.endian;
    let ghost o = offset as int;
    let (name_offset, info, section_index, value, size) = match class {
        Class::Elf32 => {
            proof {
                lemma_field_in_range(bytes, endian, offset, 4);
                lemma_field_in_range(bytes, endian, (o + 12) as u64, 1);
                lemma_field_in_range(bytes, endian, (o + 14) as u64, 2);
                lemma_field_in_range(bytes, endian, (o + 4) as u64, 4);
                lemma_field_in_range(bytes, endian, (o + 8) as u64, 4);
                reveal_with_fuel(le_value, 2);
                reveal_with_fuel(be_value, 2);
            }
            (
                reader.u32(offset)? as usize,
                reader.u8(offset + 12)?,
                reader.u16(offset + 14)?,
                reader.u32(offset + 4)? as u64,
                reader.u32(offset + 8)? as u64,
            )
        },
        Class::Elf64 => {
            proof {
                lemma_field_in_range(bytes, endian, offset, 4);
                lemma_field_in_range(bytes, endian, (o + 4) as u64, 1);
                lemma_field_in_range(bytes, endian, (o + 6) as u64, 2);
                lemma_field_in_range(bytes, endian, (o + 8) as u64, 8);
                lemma_field_in_range(bytes, endian, (o + 16) as u64, 8);
            }
            (
                reader.u32(offset)? as usize,
                reader.u8(offset + 4)?,
                reader.u16(offset + 6)?,
                reader.u64(offset + 8)?,
                reader.u64(offset + 16)?,
            )
        },
    };
    proof {
        lemma_info_fields(info);
        let s1 = bytes.subrange(o + 12, o + 13);
        let s2 = bytes.subrange(o + 4, o + 5);
        assert(s1.drop_first().len() == 0 && s1.drop_last().len() == 0);
        assert(s2.drop_first().len() == 0 && s2.drop_last().len() == 0);
        reveal_with_fuel(le_value, 2);
        reveal_with_fuel(be_value, 2);
    }
    let binding = info >> 4;
    let symbol_type = info & 0x0f;
    if section_index == 0 || !(binding == 1 || binding == 2 || binding == 10) || !(symbol_type == 2
        || symbol_type == 10) {
        return Ok(None);
    }
    let name = match read_string(strings, name_offset) {
        Some(name) => name,
        None => {
            return Ok(None);
        },
    };
    proof {
        let b = name.spec_bytes();
        if b.len() > 0 {
            assert(decode_utf8(b).len() > 0);
        }
    }
    if name.is_empty() {
        return Ok(None);
    }
    Ok(Some(Symbol { name, value, size }))
}

proof fn lemma_first_dynsym_found(
    bytes: Seq<u8>,
    endian: Endian,
    class: Class,
    table_offset: u64,
    entry_size: usize,
    i: nat,
    j: nat,
)
    requires
        i <= j,
        first_dynsym(bytes, endian, class, table_offset, entry_size, i) is Some,
    ensures
        first_dynsym(bytes, endian, class, table_offset, entry_size, j) == first_dynsym(
            bytes,
            endian,
            class,
            table_offset,
            entry_size,
            i,
        ),
    decreases j - i,
{
    if i < j {
        lemma_first_dynsym_found(bytes, endian, class, table_offset, entry_size, i, (j - 1) as nat);
    }
}

proof fn lemma_symbol_in_table(index: int, count: int, entry_size: int, size: int)
    by (nonlinear_arith)
    requires
        0 <= index < count,
        0 < entry_size,
        count == size / entry_size,
        0 <= size,
    ensures
        0 <= index * entry_size,
        index * entry_size + entry_size <= size,
{
    assert(count * entry_size <= size);
    assert(index * entry_size + entry_size == (index + 1) * entry_size);
    assert((index + 1) * entry_size <= count * entry_size);
}

fn no_exports<'a>() -> (r: Vec<Symbol<'a>>)
    ensures
        symbol_views(r@) == Seq::<SymbolView>::empty(),
        sorted_by_address(symbol_views(r@)),
{
    let r: Vec<Symbol<'a>> = Vec::new();
    assert(symbol_views(r@) =~= Seq::<SymbolView>::empty());
    r
}

/// Reads the exports from the section header table: the first dynamic
/// symbol table, its linked string table, and each defined function of
/// global, weak or unique binding with a non-empty UTF-8 name; ordered by
/// value, then by name.
pub fn parse_exports<'a>(
    reader: &Reader<'a>,
    class: Class,
    table_offset: u64,
    entry_size: usize,
    section_count: usize,
) -> (r: Result<Vec<Symbol<'a>>, ParseError>)
    ensures
        match exports_of(reader.bytes@, reader.endian, class, table_offset, entry_size, section_count) {
            Ok(v) => r is Ok && sorted_by_address(symbol_views(r->Ok_0@)) && symbol_views(
                r->Ok_0@,
            ).to_multiset() =~= v.to_multiset(),
            Err(e) => r is Err && r->Err_0 == e,
        },
{
    if section_count == 0 || table_offset == 0 {
        return Ok(no_exports());
    }
    let table_size = match entry_size.checked_mul(section_count) {
        Some(size) => size,
        None => {
            return Err(ParseError::SectionTableTooLarge);
        },
    };
    reader.range(table_offset, table_size as u64)?;
    let len = reader.bytes.len();
    let ghost bytes = reader.bytes@;
    let ghost endian = reader.endian;

    let mut found: Option<Section> = None;
    let mut index: usize = 0;
    while index < section_count && found.is_none()
        invariant
            index <= section_count,
            section_count != 0,
            table_offset != 0,
            table_size == entry_size * section_count,
            table_offset + table_size <= len,
            len == bytes.len(),
            bytes == reader.bytes@,
            endian == reader.endian,
            index > 0 ==> min_section_entry(class) <= entry_size,
            match found {
                None => first_dynsym(bytes, endian, class, table_offset, entry_size, index as nat) is None,
                Some(section) => index > 0 && first_dynsym(bytes, endian, class, table_offset, entry_size, index as nat)
                    == Some((index - 1) as usize) && section_of(bytes, endian, class, table_offset, entry_size, (index - 1) as usize)
                    == Ok::<Section, ParseError>(section),
            },
        decreases section_count - index,
    {
        proof {
            if min_section_entry(class) <= entry_size {
                lemma_section_in_table(bytes, endian, class, table_offset, entry_size, section_count, index);
            }
        }
        let section = match section_at(reader, class, table_offset, entry_size, index) {
            Ok(section) => section,
            Err(e) => {
                proof {
                    assert(index == 0);
                    assert(e == ParseError::InvalidSectionEntrySize);
                    assert(range_error(table_offset, table_size as u64, bytes.len()) is None);
                }
                return Err(e);
            },
        };
        if section.kind == SHT_DYNSYM {
            found = Some(section);
        }
        index = index + 1;
    }
    let symbols = match found {
        Some(section) => section,
        None => {
            return Ok(no_exports());
        },
    };
    proof {
        lemma_first_dynsym_found(bytes, endian, class, table_offset, entry_size, index as nat, section_count as nat);
    }
    if symbols.link >= section_count {
        return Err(ParseError::MissingStringTable);
    }
    proof {
        lemma_section_in_table(bytes, endian, class, table_offset, entry_size, section_count, symbols.link);
    }
    let strings = section_at(reader, class, table_offset, entry_size, symbols.link)?;
    let string_bytes = reader.range(strings.offset, strings.size)?;
    let minimum_entry_size: u64 = match class {
        Class::Elf32 => 16,
        Class::Elf64 => 24,
    };
    if symbols.entry_size < minimum_entry_size || symbols.size % symbols.entry_size != 0 {
        return Err(ParseError::InvalidSymbolEntrySize);
    }
    let count = symbols.size / symbols.entry_size;
    reader.range(symbols.offset, symbols.size)?;
    if count > usize::MAX as u64 {
        return Err(ParseError::TooManySymbols);
    }
    let mut exports: Vec<Symbol<'a>> = Vec::with_capacity(count as usize);
    let mut index: u64 = 0;
    while index < count
        invariant
            index <= count,
            count == symbols.size / symbols.entry_size,
            minimum_entry_size == min_symbol_entry(class),
            minimum_entry_size <= symbols.entry_size,
            symbols.offset + symbols.size <= len,
            len == bytes.len(),
            bytes == reader.bytes@,
            endian == reader.endian,
            string_bytes@ == bytes.subrange(strings.offset as int, strings.offset + strings.size),
            symbol_views(exports@) == symbol_scan(
                bytes,
                endian,
                class,
                symbols.offset as int,
                symbols.entry_size as int,
                index as nat,
                string_bytes@,
            ),
        decreases count - index,
    {
        proof {
            lemma_symbol_in_table(index as int, count as int, symbols.entry_size as int, symbols.size as int);
            let n = (index + 1) as nat;
            assert((n - 1) * symbols.entry_size == index * symbols.entry_size);
        }
        let offset = symbols.offset + index * symbols.entry_size;
        let entry = symbol_at(reader, class, offset, string_bytes)?;
        match entry {
            Some(symbol) => {
                exports.push(symbol);
            },
            None => {},
        }
        proof {
            assert(symbol_views(exports@) =~= symbol_scan(
                bytes,
                endian,
                class,
                symbols.offset as int,
                symbols.entry_size as int,
                (index + 1) as nat,
                string_bytes@,
            ));
        }
        index = index + 1;
    }
    Ok(sort_by_address(&exports))
}

/// The identity bytes that open every ELF image.
pub const ELF_MAGIC: [u8; 4] = [0x7f, 0x45, 0x4c, 0x46];

/// The decoded ELF header: identity, type, machine, entry point and where
/// the program and section header tables lie.
#[derive(Clone, Copy, Debug, PartialEq, Eq, Structural)]
pub struct ElfHeader {
    pub class: Class,
    pub endian: Endian,
    pub abi: u8,
    pub object_type: u16,
    pub machine: u16,
    pub entry: u64,
    pub program_offset: u64,
    pub program_entry_size: usize,
    pub program_headers: usize,
    pub section_offset: u64,
    pub section_entry_size: usize,
    pub sections: usize,
}

/// Whether the bytes open with the ELF identity bytes.
pub open spec fn has_magic(bytes: Seq<u8>) -> bool {
    &&& bytes.len() >= 4
    &&& bytes[0] == 0x7f
    &&& bytes[1] == 0x45
    &&& bytes[2] == 0x4c
    &&& bytes[3] == 0x46
}

/// The end of the last header field read for a class.
pub open spec fn header_end(class: Class) -> nat {
    match class {
        Class::Elf32 => 50,
        Class::Elf64 => 62,
    }
}

/// The ELF header of the bytes, or why there is none: the identity bytes,
/// the class and byte order, the OS/ABI byte, then every header field must
/// lie within the bytes.
pub open spec fn header_of(bytes: Seq<u8>) -> Result<ElfHeader, ParseError> {
    if !has_magic(bytes) {
        Err(ParseError::MissingMagic)
    } else if bytes.len() <= 4 || !(bytes[4] == 1 || bytes[4] == 2) {
        Err(ParseError::UnsupportedClass)
    } else if bytes.len() <= 5 || !(bytes[5] == 1 || bytes[5] == 2) {
        Err(ParseError::UnsupportedByteOrder)
    } else if bytes.len() <= 7 {
        Err(ParseError::TruncatedIdentity)
    } else {
        let class = if bytes[4] == 1 {
            Class::Elf32
        } else {
            Class::Elf64
        };
        let e = if bytes[5] == 1 {
            Endian::Little
        } else {
            Endian::Big
        };
        if bytes.len() < header_end(class) {
            Err(ParseError::Truncated)
        } else {
            let f = |offset: int, width: int| field_at(bytes, e, offset, width);
            Ok(
                match class {
                    Class::Elf32 => ElfHeader {
                        class,
                        endian: e,
                        abi: bytes[7],
                        object_type: f(16, 2) as u16,
                        machine: f(18, 2) as u16,
                        entry: f(24, 4) as u64,
                        program_offset: f(28, 4) as u64,
                        program_entry_size: f(42, 2) as usize,
                        program_headers: f(44, 2) as usize,
                        section_offset: f(32, 4) as u64,
                        section_entry_size: f(46, 2) as usize,
                        sections: f(48, 2) as usize,
                    },
                    Class::Elf64 => ElfHeader {
                        class,
                        endian: e,
                        abi: bytes[7],
                        object_type: f(16, 2) as u16,
                        machine: f(18, 2) as u16,
                        entry: f(24, 8) as u64,
                        program_offset: f(32, 8) as u64,
                        program_entry_size: f(54, 2) as usize,
                        program_headers: f(56, 2) as usize,
                        section_offset: f(40, 8) as u64,
                        section_entry_size: f(58, 2) as usize,
                        sections: f(60, 2) as usize,
                    },
                },
            )
        }
    }
}

/// Everything that is shown of a vDSO image.
#[derive(Debug)]
pub struct ElfInfo<'a> {
    pub bits: u8,
    pub endian: &'static str,
    pub abi: String,
    pub object_type: String,
    pub machine: String,
    pub entry: u64,
    pub program_headers: usize,
    pub sections: usize,
    pub exports: Vec<Symbol<'a>>,
    pub load_image: LoadImage,
}

/// Whether `info` describes the header `h`, its load image `image` and, in
/// some order by address, the exports `exports`.
pub open spec fn describes<'a>(
    info: ElfInfo<'a>,
    h: ElfHeader,
    image: (Option<u64>, Seq<LoadSegment>),
    exports: Seq<SymbolView>,
) -> bool {
    &&& info.bits == (if h.class == Class::Elf32 { 32u8 } else { 64u8 })
    &&& info.endian@ == (if h.endian == Endian::Little { "little-endian"@ } else { "big-endian"@ })
    &&& info.abi@ == abi_name(h.abi)
    &&& info.object_type@ == object_type_name(h.object_type)
    &&& info.machine@ == machine_name(h.machine)
    &&& info.entry == h.entry
    &&& info.program_headers == h.program_headers
    &&& info.sections == h.sections
    &&& info.load_image@ == image
    &&& sorted_by_address(symbol_views(info.exports@))
    &&& symbol_views(info.exports@).to_multiset() =~= exports.to_multiset()
}

/// Decodes an ELF image: its header, its load image and its exports, or
/// the first reason why it cannot be decoded.
pub fn parse<'a>(bytes: &'a [u8]) -> (r: Result<ElfInfo<'a>, ParseError>)
    ensures
        match header_of(bytes@) {
            Err(e) => r is Err && r->Err_0 == e,
            Ok(h) => match load_image_of(bytes@, h.endian, h.class, h.program_offset, h.program_entry_size, h.program_headers) {
                Err(e) => r is Err && r->Err_0 == e,
                Ok(image) => match exports_of(bytes@, h.endian, h.class, h.section_offset, h.section_entry_size, h.sections) {
                    Err(e) => r is Err && r->Err_0 == e,
                    Ok(exports) => r is Ok && describes(r->Ok_0, h, image, exports),
                },
            },
        },
{
    let len = bytes.len();
    if len < 4 || bytes[0] != ELF_MAGIC[0] || bytes[1] != ELF_MAGIC[1] || bytes[2] != ELF_MAGIC[2]
        || bytes[3] != ELF_MAGIC[3] {
        return Err(ParseError::MissingMagic);
    }
    let class = if len > 4 && bytes[4] == 1 {
        Class::Elf32
    } else if len > 4 && bytes[4] == 2 {
        Class::Elf64
    } else {
        return Err(ParseError::UnsupportedClass);
    };
    let endian = if len > 5 && bytes[5] == 1 {
        Endian::Little
    } else if len > 5 && bytes[5] == 2 {
        Endian::Big
    } else {
        return Err(ParseError::UnsupportedByteOrder);
    };
    let reader = Reader { bytes, endian };
    if len <= 7 {
        return Err(ParseError::TruncatedIdentity);
    }
    let abi = describe_abi(bytes[7]);
    let object_type = describe_type(reader.u16(16)?);
    let machine = describe_machine(reader.u16(18)?);
    let ghost h = header_of(bytes@)->Ok_0;
    let (bits, entry, program_offset, program_entry_size, program_headers, section_offset, section_entry_size, sections) = match class {
        Class::Elf32 => {
            let entry = reader.u32(24)? as u64;
            let program_offset = reader.u32(28)? as u64;
            let program_entry_size = reader.u16(42)? as usize;
            let program_headers = reader.u16(44)? as usize;
            let section_offset = reader.u32(32)? as u64;
            let section_entry_size = reader.u16(46)? as usize;
            let sections = reader.u16(48)? as usize;
            (32u8, entry, program_offset, program_entry_size, program_headers, section_offset, section_entry_size, sections)
        },
        Class::Elf64 => {
            let entry = reader.u64(24)?;
            let program_offset = reader.u64(32)?;
            let program_entry_size = reader.u16(54)? as usize;
            let program_headers = reader.u16(56)? as usize;
            let section_offset = reader.u64(40)?;
            let section_entry_size = reader.u16(58)? as usize;
            let sections = reader.u16(60)? as usize;
            (64u8, entry, program_offset, program_entry_size, program_headers, section_offset, section_entry_size, sections)
        },
    };
    assert(h.program_offset == program_offset && h.program_entry_size == program_entry_size
        && h.program_headers == program_headers && h.section_offset == section_offset
        && h.section_entry_size == section_entry_size && h.sections == sections
        && h.class == class && h.endian == endian);
    let load_image = parse_load_image(&reader, class, program_offset, program_entry_size, program_headers)?;
    let exports = parse_exports(&reader, class, section_offset, section_entry_size, sections)?;
    Ok(ElfInfo {
        bits,
        endian: match endian {
            Endian::Little => "little-endian",
            Endian::Big => "big-endian",
        },
        abi,
        object_type,
        machine,
        entry,
        program_headers,
        sections,
        exports,
        load_image,
    })
}

/// The end of a symbol's extent: a symbol of size 0 still covers one byte.
pub open spec fn symbol_end(value: u64, size: u64) -> int {
    value + if size == 0 { 1 } else { size as int }
}

/// Whether some executable load segment covers the symbol's extent.
pub open spec fn in_executable_segment(segments: Seq<LoadSegment>, value: u64, size: u64) -> bool {
    exists|i: int|
        0 <= i < segments.len() && #[trigger] segments[i].executable && segments[i].virtual_address
            <= value && symbol_end(value, size) <= segments[i].virtual_address
            + segments[i].memory_size && segments[i].virtual_address + segments[i].memory_size
            <= u64::MAX
}

/// Where a symbol lies in a mapping of the image at `mapping_start` of
/// `mapping_size` bytes: its offset from the image base added to the
/// mapping's start, when the symbol lies in an executable load segment, at
/// or above the base and within the mapping.
pub open spec fn runtime_address_of(
    image: (Option<u64>, Seq<LoadSegment>),
    mapping_start: usize,
    mapping_size: usize,
    value: u64,
    size: u64,
) -> Option<int> {
    if symbol_end(value, size) <= u64::MAX && in_executable_segment(image.1, value, size)
        && image.0 is Some && image.0->Some_0 <= value && symbol_end(value, size) - image.0->Some_0
        <= mapping_size && mapping_start + (value - image.0->Some_0) <= usize::MAX {
        Some(mapping_start + (value - image.0->Some_0))
    } else {
        None
    }
}

impl<'a> ElfInfo<'a> {
    /// The run-time address of an exported symbol in the mapping of this
    /// image at `mapping_start` of `mapping_size` bytes; the symbol's
    /// extent then lies within the mapping.
    pub fn runtime_address(&self, mapping_start: usize, mapping_size: usize, symbol: &Symbol<'_>) -> (r:
        Option<usize>)
        ensures
            r matches Some(a) ==> runtime_address_of(self.load_image@, mapping_start, mapping_size, symbol.value, symbol.size) == Some(a as int),
            r is None ==> runtime_address_of(self.load_image@, mapping_start, mapping_size, symbol.value, symbol.size) is None,
            r matches Some(a) ==> mapping_start <= a && a + symbol_end(symbol.value, symbol.size)
                - symbol.value <= mapping_start + mapping_size,
    {
        let extent = if symbol.size == 0 {
            1
        } else {
            symbol.size
        };
        let end = match symbol.value.checked_add(extent) {
            Some(end) => end,
            None => {
                return None;
            },
        };
        let segments = &self.load_image.segments;
        let mut executable = false;
        let mut i: usize = 0;
        while i < segments.len() && !executable
            invariant
                i <= segments@.len(),
                end == symbol_end(symbol.value, symbol.size),
                executable ==> in_executable_segment(segments@, symbol.value, symbol.size),
                !executable ==> forall|j: int|
                    0 <= j < i ==> !(#[trigger] segments@[j].executable && segments@[j].virtual_address
                        <= symbol.value && end <= segments@[j].virtual_address
                        + segments@[j].memory_size && segments@[j].virtual_address
                        + segments@[j].memory_size <= u64::MAX),
            decreases segments@.len() - i,
        {
            let segment = segments[i];
            let limit = match segment.virtual_address.checked_add(segment.memory_size) {
                Some(limit) => limit,
                None => 0,
            };
            if segment.executable && symbol.value >= segment.virtual_address && end <= limit {
                executable = true;
            }
            i = i + 1;
        }
        if !executable {
            return None;
        }
        let base = match self.load_image.base {
            Some(base) => base,
            None => {
                return None;
            },
        };
        let relative = match symbol.value.checked_sub(base) {
            Some(relative) => relative,
            None => {
                return None;
            },
        };
        let relative_end = end - base;
        if relative_end > mapping_size as u64 {
            return None;
        }
        if relative > usize::MAX as u64 {
            return None;
        }
        mapping_start.checked_add(relative as usize)
    }
}

/// The name of an OS/ABI identification byte.
pub open spec fn abi_name(value: u8) -> Seq<char> {
    if value == 0 {
        "System V"@
    } else if value == 3 {
        "Linux"@
    } else if value == 6 {
        "Solaris"@
    } else if value == 9 {
        "FreeBSD"@
    } else if value == 12 {
        "OpenBSD"@
    } else {
        "unknown ("@ + decimal(value as nat) + ")"@
    }
}

/// The name of an object file type.
pub open spec fn object_type_name(value: u16) -> Seq<char> {
    if value == 0 {
        "none"@
    } else if value == 1 {
        "relocatable"@
    } else if value == 2 {
        "executable"@
    } else if value == 3 {
        "shared object"@
    } else if value == 4 {
        "core"@
    } else {
        "processor/OS-specific (0x"@ + hex(value as nat) + ")"@
    }
}

/// The name of a machine identifier.
pub open spec fn machine_name(value: u16) -> Seq<char> {
    if value == 3 {
        "x86"@
    } else if value == 8 {
        "MIPS"@
    } else if value == 20 {
        "PowerPC"@
    } else if value == 21 {
        "PowerPC64"@
    } else if value == 22 {
        "s390"@
    } else if value == 40 {
        "ARM"@
    } else if value == 62 {
        "x86-64"@
    } else if value == 183 {
        "AArch64"@
    } else if value == 243 {
        "RISC-V"@
    } else if value == 258 {
        "LoongArch"@
    } else {
        "machine "@ + decimal(value as nat)
    }
}

/// Describes an OS/ABI identification byte.
pub fn describe_abi(value: u8) -> (name: String)
    ensures
        name@ == abi_name(value),
{
    match value {
        0 => owned("System V"),
        3 => owned("Linux"),
        6 => owned("Solaris"),
        9 => owned("FreeBSD"),
        12 => owned("OpenBSD"),
        _ => {
            let mut name = owned("unknown (");
            push_decimal(&mut name, value as u64);
            push_str(&mut name, ")");
            name
        },
    }
}

/// Describes an object file type.
pub fn describe_type(value: u16) -> (name: String)
    ensures
        name@ == object_type_name(value),
{
    match value {
        0 => owned("none"),
        1 => owned("relocatable"),
        2 => owned("executable"),
        3 => owned("shared object"),
        4 => owned("core"),
        _ => {
            let mut name = owned("processor/OS-specific (0x");
            push_hex(&mut name, value as u64);
            push_str(&mut name, ")");
            name
        },
    }
}

/// Describes a machine identifier.
pub fn describe_machine(value: u16) -> (name: String)
    ensures
        name@ == machine_name(value),
{
    match value {
        3 => owned("x86"),
        8 => owned("MIPS"),
        20 => owned("PowerPC"),
        21 => owned("PowerPC64"),
        22 => owned("s390"),
        40 => owned("ARM"),
        62 => owned("x86-64"),
        183 => owned("AArch64"),
        243 => owned("RISC-V"),
        258 => owned("LoongArch"),
        _ => {
            let mut name = owned("machine ");
            push_decimal(&mut name, value as u64);
            name
        },
    }
}

} // verus!
