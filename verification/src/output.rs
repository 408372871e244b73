//! The text shown for mappings: headers, decoded fields, the hex/ASCII
//! dump with repeated rows collapsed, and sizes in bytes or KiB.

use vstd::prelude::*;
use crate::cli::{Segment, segment_name, expected_kernel_name_of};
use crate::memory::Dump;
use crate::maps::Mapping;
use crate::text::{decimal, digit, digit_char, hex, owned, push_decimal, push_hex, push_padded_decimal, push_space_padded, push_str, space_padded, str_eq, zero_padded};
use crate::elf::{
    ElfHeader, LoadSegment, SymbolView, Symbol, header_of, load_image_of, exports_of, parse,
    parse_error_text, runtime_address_of, sorted_by_address, symbol_views, abi_name, machine_name,
    object_type_name, Class, Endian,
};
use crate::clocks::ClockReading;
use vstd::utf8::decode_utf8;
use vstd::string::StringSliceAdditionalSpecFns;

verus! {

/// Whether escape codes are written, and the codes.
pub struct Palette {
    pub enabled: bool,
}

impl Palette {
    pub const RESET: &'static str = "\x1b[0m";
    pub const BOLD_CYAN: &'static str = "\x1b[1;36m";
    pub const CYAN: &'static str = "\x1b[36m";
    pub const GREEN: &'static str = "\x1b[32m";
    pub const YELLOW: &'static str = "\x1b[33m";
    pub const RED: &'static str = "\x1b[31m";
    pub const DIM: &'static str = "\x1b[2m";

    /// A palette that writes escape codes when `enabled`.
    #[verifier::spinoff_prover]
    pub fn new(enabled: bool) -> (p: Palette)
        ensures
            p.enabled == enabled,
    {
        Palette { enabled }
    }

    /// The code, or nothing when colors are off.
    #[verifier::spinoff_prover]
    pub fn code(&self, code: &'static str) -> (r: &'static str)
        ensures
            r@ == painted(self.enabled, code@),
    {
        proof {
            reveal_strlit("");
        }
        if self.enabled {
            code
        } else {
            ""
        }
    }

    /// The code that ends a color, or nothing when colors are off.
    #[verifier::spinoff_prover]
    pub fn reset(&self) -> (r: &'static str)
        ensures
            r@ == painted(self.enabled, Palette::RESET@),
    {
        self.code(Palette::RESET)
    }
}

/// A code when colors are on, else nothing.
pub open spec fn painted(enabled: bool, code: Seq<char>) -> Seq<char> {
    if enabled {
        code
    } else {
        Seq::empty()
    }
}

/// A size in bytes below 1 KiB, else in KiB rounded to the nearest
/// hundredth (halves up), always with two decimals.
pub open spec fn human_size_text(bytes: nat) -> Seq<char> {
    if bytes < 1024 {
        decimal(bytes) + " B"@
    } else {
        let hundredths = (bytes * 100 + 512) / 1024;
        decimal(hundredths / 100) + "."@ + zero_padded(decimal(hundredths % 100), 2) + " KiB"@
    }
}

/// A size of at least 1 KiB is shown in hundredths of a KiB rounded to the
/// nearest, halves up: the hundredths `h` shown for `bytes` bytes satisfy
/// `h * 1024 - 512 <= bytes * 100 < h * 1024 + 512`.
pub proof fn lemma_human_size_rounding(bytes: nat)
    requires
        bytes >= 1024,
    ensures
        ({
            let h = (bytes * 100 + 512) / 1024;
            &&& h * 1024 - 512 <= bytes * 100 < h * 1024 + 512
            &&& human_size_text(bytes) == decimal(h / 100) + "."@ + zero_padded(decimal(h % 100), 2) + " KiB"@
        }),
{
    let x = bytes * 100 + 512;
    let h = x / 1024;
    assert(h * 1024 <= x < h * 1024 + 1024) by (nonlinear_arith)
        requires
            h == x / 1024,
            x >= 0,
    ;
}

/// Renders a size in bytes or KiB without floating point.
#[verifier::spinoff_prover]
pub fn human_size(bytes: usize) -> (text: String)
    ensures
        text@ == human_size_text(bytes as nat),
{
    if bytes < 1024 {
        let mut text = String::new();
        push_decimal(&mut text, bytes as u64);
        push_str(&mut text, " B");
        proof {
            assert(text@ =~= human_size_text(bytes as nat));
        }
        text
    } else {
        let mut whole = bytes / 1024;
        let mut hundredths = ((bytes % 1024) * 100 + 512) / 1024;
        proof {
            let b = bytes as int;
            let q = b / 1024;
            let r = b % 1024;
            let h = (b * 100 + 512) / 1024;
            assert(b == 1024 * q + r);
            assert(b * 100 + 512 == 1024 * (100 * q) + (100 * r + 512));
            assert(h == 100 * q + (100 * r + 512) / 1024);
            assert((100 * r + 512) / 1024 <= 100);
        }
        if hundredths == 100 {
            whole = whole + 1;
            hundredths = 0;
        }
        let mut text = String::new();
        push_decimal(&mut text, whole as u64);
        push_str(&mut text, ".");
        push_padded_decimal(&mut text, hundredths as u64, 2);
        push_str(&mut text, " KiB");
        proof {
            let h = (bytes as int * 100 + 512) / 1024;
            assert(whole == h / 100);
            assert(hundredths == h % 100);
            assert(text@ =~= human_size_text(bytes as nat));
        }
        text
    }
}

/// The two lower-case hexadecimal digits of a byte.
pub open spec fn hex_byte(byte: u8) -> Seq<char> {
    seq![digit_char((byte / 16) as nat), digit_char((byte % 16) as nat)]
}

/// Appends the two hexadecimal digits of a byte.
#[verifier::spinoff_prover]
pub fn push_hex_byte(output: &mut String, byte: u8)
    ensures
        final(output)@ == old(output)@ + hex_byte(byte),
{
    assert(byte >> 4u8 == byte / 16) by (bit_vector);
    assert(byte & 0x0fu8 == byte % 16) by (bit_vector);
    output.push(digit((byte >> 4) as u64));
    output.push(digit((byte & 0x0f) as u64));
    assert(final(output)@ =~= old(output)@ + hex_byte(byte));
}

/// What switching from the active color to `requested` writes.
pub open spec fn color_switch(active: Seq<char>, requested: Seq<char>) -> Seq<char> {
    if active == requested {
        Seq::empty()
    } else {
        (if active.len() > 0 {
            Palette::RESET@
        } else {
            Seq::empty()
        }) + requested
    }
}

/// Switches the line to a color: nothing when it is already active, else
/// the end of the active color, if any, and the new one.
#[verifier::spinoff_prover]
pub fn set_line_color(
    output: &mut String,
    active: &mut &'static str,
    requested: &'static str,
    palette: &Palette,
)
    ensures
        final(output)@ == old(output)@ + color_switch(old(active)@, painted(palette.enabled, requested@)),
        final(active)@ == painted(palette.enabled, requested@),
{
    let requested = palette.code(requested);
    if str_eq(*active, requested) {
        return;
    }
    if !active.is_empty() {
        push_str(output, Palette::RESET);
    }
    push_str(output, requested);
    *active = requested;
    proof {
        reveal_strlit("");
    }
}

/// Ends the active color, if any.
#[verifier::spinoff_prover]
pub fn reset_line_color(output: &mut String, active: &mut &'static str, palette: &Palette)
    ensures
        final(output)@ == old(output)@ + (if old(active)@.len() > 0 {
            painted(palette.enabled, Palette::RESET@)
        } else {
            Seq::empty()
        }),
        final(active)@ == Seq::<char>::empty(),
{
    proof {
        reveal_strlit("");
    }
    if !active.is_empty() {
        push_str(output, palette.reset());
        *active = "";
    }
}

/// A labelled line of decoded fields.
pub open spec fn field_line(label: Seq<char>, value: Seq<char>, enabled: bool) -> Seq<char> {
    "  "@ + painted(enabled, Palette::CYAN@) + space_padded(label, 18) + painted(enabled, Palette::RESET@)
        + " "@ + painted(enabled, Palette::GREEN@) + value + painted(enabled, Palette::RESET@) + "\n"@
}

/// Writes a labelled line of decoded fields.
#[verifier::spinoff_prover]
pub fn write_field(output: &mut String, label: &str, value: &str, palette: &Palette)
    ensures
        final(output)@ == old(output)@ + field_line(label@, value@, palette.enabled),
{
    push_str(output, "  ");
    push_str(output, palette.code(Palette::CYAN));
    push_space_padded(output, label, 18);
    push_str(output, palette.reset());
    push_str(output, " ");
    push_str(output, palette.code(Palette::GREEN));
    push_str(output, value);
    push_str(output, palette.reset());
    push_str(output, "\n");
    assert(final(output)@ =~= old(output)@ + field_line(label@, value@, palette.enabled));
}

/// The line of a segment that is not mapped.
pub open spec fn missing_line(segment: Segment, enabled: bool) -> Seq<char> {
    painted(enabled, Palette::BOLD_CYAN@) + segment_name(segment) + painted(enabled, Palette::RESET@)
        + "  "@ + expected_kernel_name_of(segment) + "  "@ + painted(enabled, Palette::DIM@)
        + "not present"@ + painted(enabled, Palette::RESET@) + "\n"@
}

/// Writes the line of a segment that is not mapped.
#[verifier::spinoff_prover]
pub fn write_missing(output: &mut String, segment: Segment, palette: &Palette)
    ensures
        final(output)@ == old(output)@ + missing_line(segment, palette.enabled),
{
    push_str(output, palette.code(Palette::BOLD_CYAN));
    push_str(output, segment.name());
    push_str(output, palette.reset());
    push_str(output, "  ");
    push_str(output, segment.expected_kernel_name());
    push_str(output, "  ");
    push_str(output, palette.code(Palette::DIM));
    push_str(output, "not present");
    push_str(output, palette.reset());
    push_str(output, "\n");
    assert(final(output)@ =~= old(output)@ + missing_line(segment, palette.enabled));
}

/// How much of a dump could be read.
pub open spec fn readable_summary_text(len: nat, readable: nat) -> Seq<char> {
    if readable == len {
        "all "@ + human_size_text(readable)
    } else {
        human_size_text(readable) + " of "@ + human_size_text(len) + " ("@ + human_size_text(
            (len - readable) as nat,
        ) + " unavailable)"@
    }
}

/// Describes how much of a dump could be read.
#[verifier::spinoff_prover]
pub fn readable_summary(dump: &Dump) -> (text: String)
    requires
        dump.readable_count <= dump.bytes@.len(),
    ensures
        text@ == readable_summary_text(dump.bytes@.len(), dump.readable_count as nat),
{
    let len = dump.bytes.len();
    let readable = len - dump.unreadable_count();
    if readable == len {
        let mut text = owned("all ");
        let size = human_size(readable);
        push_str(&mut text, size.as_str());
        assert(text@ =~= readable_summary_text(len as nat, readable as nat));
        text
    } else {
        let mut text = human_size(readable);
        push_str(&mut text, " of ");
        push_str(&mut text, human_size(len).as_str());
        push_str(&mut text, " (");
        push_str(&mut text, human_size(dump.unreadable_count()).as_str());
        push_str(&mut text, " unavailable)");
        assert(text@ =~= readable_summary_text(len as nat, readable as nat));
        text
    }
}

/// The number of hexadecimal digits of an address.
pub open spec fn address_width() -> nat {
    (usize::BITS / 4) as nat
}

/// The start of a mapping's header line: its segment, name, range,
/// permissions and size.
pub open spec fn header_start(mapping: Mapping, enabled: bool) -> Seq<char> {
    painted(enabled, Palette::BOLD_CYAN@) + segment_name(mapping.segment) + painted(enabled, Palette::RESET@)
        + "  "@ + mapping.kernel_name@ + "  "@ + range_text(mapping.start, mapping.end, enabled) + "  "@
        + mapping.permissions@ + "  "@ + human_size_text((mapping.end - mapping.start) as nat)
}

/// A colored address range.
pub open spec fn range_text(start: usize, end: usize, enabled: bool) -> Seq<char> {
    painted(enabled, Palette::CYAN@) + "0x"@ + zero_padded(hex(start as nat), address_width()) + "-0x"@
        + zero_padded(hex(end as nat), address_width()) + painted(enabled, Palette::RESET@)
}

/// The note of how much of a mapping was unreadable, when that is known and
/// not nothing.
pub open spec fn unreadable_note(unreadable: Option<nat>, enabled: bool) -> Seq<char> {
    match unreadable {
        Some(n) => if n != 0 {
            "  "@ + painted(enabled, Palette::RED@) + "("@ + human_size_text(n) + " unreadable)"@
                + painted(enabled, Palette::RESET@)
        } else {
            Seq::empty()
        },
        None => Seq::empty(),
    }
}

/// The header line of a mapping.
pub open spec fn header_line(mapping: Mapping, unreadable: Option<nat>, enabled: bool) -> Seq<char> {
    header_start(mapping, enabled) + unreadable_note(unreadable, enabled) + "\n"@
}

#[verifier::spinoff_prover]
fn write_range(output: &mut String, start: usize, end: usize, palette: &Palette)
    ensures
        final(output)@ == old(output)@ + range_text(start, end, palette.enabled),
{
    push_str(output, palette.code(Palette::CYAN));
    push_str(output, "0x");
    push_address(output, start);
    push_str(output, "-0x");
    push_address(output, end);
    push_str(output, palette.reset());
    assert(final(output)@ =~= old(output)@ + range_text(start, end, palette.enabled));
}

#[verifier::spinoff_prover]
fn write_header_start(output: &mut String, mapping: &Mapping, palette: &Palette)
    requires
        mapping.start <= mapping.end,
    ensures
        final(output)@ == old(output)@ + header_start(*mapping, palette.enabled),
{
    push_str(output, palette.code(Palette::BOLD_CYAN));
    push_str(output, mapping.segment.name());
    push_str(output, palette.reset());
    push_str(output, "  ");
    push_str(output, mapping.kernel_name.as_str());
    push_str(output, "  ");
    write_range(output, mapping.start, mapping.end, palette);
    push_str(output, "  ");
    push_str(output, mapping.permissions.as_str());
    push_str(output, "  ");
    let size = human_size(mapping.len());
    push_str(output, size.as_str());
    assert(final(output)@ =~= old(output)@ + header_start(*mapping, palette.enabled));
}

/// Appends `n` in hexadecimal, zero-padded to the width of an address.
#[verifier::spinoff_prover]
pub fn push_address(output: &mut String, n: usize)
    ensures
        final(output)@ == old(output)@ + zero_padded(hex(n as nat), address_width()),
{
    let width = (usize::BITS / 4) as usize;
    let ghost before = output@;
    let digits = hex_len(n as u64);
    if digits < width {
        crate::text::push_zeros(output, width - digits);
    }
    push_hex(output, n as u64);
    assert(output@ =~= before + zero_padded(hex(n as nat), address_width()));
}

/// The number of hexadecimal digits of `n`.
#[verifier::spinoff_prover]
pub fn hex_len(n: u64) -> (len: usize)
    ensures
        len == hex(n as nat).len(),
    decreases n,
{
    proof {
        lemma_u64_hex_len(n);
    }
    if n >= 16 {
        hex_len(n / 16) + 1
    } else {
        1
    }
}

/// Sixteen to the power `k`.
pub open spec fn pow16(k: nat) -> nat
    decreases k,
{
    if k == 0 {
        1
    } else {
        16 * pow16((k - 1) as nat)
    }
}

proof fn lemma_hex_len_bound(n: nat, k: nat)
    requires
        1 <= k,
        n < pow16(k),
    ensures
        hex(n).len() <= k,
    decreases k,
{
    if n >= 16 {
        assert(k > 1) by {
            if k == 1 {
                assert(pow16(1) == 16) by {
                    reveal_with_fuel(pow16, 2);
                }
            }
        }
        lemma_hex_len_bound(n / 16, (k - 1) as nat);
    }
}

/// Every `u64` has at most sixteen hexadecimal digits.
pub proof fn lemma_u64_hex_len(n: u64)
    ensures
        hex(n as nat).len() <= 16,
{
    assert(pow16(16) == 18446744073709551616nat) by {
        reveal_with_fuel(pow16, 17);
    }
    lemma_hex_len_bound(n as nat, 16);
}

/// Writes the header line of a mapping, with how much of it was unreadable
/// when a dump is given.
#[verifier::spinoff_prover]
pub fn write_mapping_header(output: &mut String, mapping: &Mapping, dump: Option<&Dump>, palette: &Palette)
    requires
        mapping.start <= mapping.end,
        dump matches Some(d) ==> d.readable_count <= d.bytes@.len(),
    ensures
        final(output)@ == old(output)@ + header_line(
            *mapping,
            match dump {
                Some(d) => Some((d.bytes@.len() - d.readable_count) as nat),
                None => None,
            },
            palette.enabled,
        ),
{
    let ghost before = output@;
    write_header_start(output, mapping, palette);
    let ghost middle = output@;
    let ghost unreadable = match dump {
        Some(d) => Some((d.bytes@.len() - d.readable_count) as nat),
        None => None,
    };
    match dump {
        Some(dump) => {
            let unreadable = dump.unreadable_count();
            if unreadable != 0 {
                push_str(output, "  ");
                push_str(output, palette.code(Palette::RED));
                push_str(output, "(");
                let size = human_size(unreadable);
                push_str(output, size.as_str());
                push_str(output, " unreadable)");
                push_str(output, palette.reset());
            }
        },
        None => {},
    }
    assert(output@ =~= middle + unreadable_note(unreadable, palette.enabled));
    push_str(output, "\n");
    assert(output@ =~= before + header_line(*mapping, unreadable, palette.enabled));
}

/// Whether a byte is shown as itself in the ASCII column: a graphic ASCII
/// character or a space.
pub open spec fn is_shown(byte: u8) -> bool {
    (0x21 <= byte <= 0x7e) || byte == 0x20
}

/// The end of the row that starts at `offset`.
pub open spec fn row_end(offset: int, width: int, len: int) -> int {
    if offset + width < len {
        offset + width
    } else {
        len
    }
}

/// A piece of a dump line: the color it is written in (none: after the
/// active color ends) and its text.
pub type Cell = (Option<Seq<char>>, Seq<char>);

/// What ending the active color writes.
pub open spec fn color_end(active: Seq<char>, enabled: bool) -> Seq<char> {
    if active.len() > 0 {
        painted(enabled, Palette::RESET@)
    } else {
        Seq::empty()
    }
}

/// What writing a cell after the active color writes, and the color then
/// active.
pub open spec fn cell_step(active: Seq<char>, cell: Cell, enabled: bool) -> (Seq<char>, Seq<char>) {
    match cell.0 {
        Some(color) => (color_switch(active, color) + cell.1, color),
        None => (color_end(active, enabled) + cell.1, Seq::empty()),
    }
}

/// The text of cells written from no active color, and the color active
/// after them.
pub open spec fn paint(cells: Seq<Cell>, enabled: bool) -> (Seq<char>, Seq<char>)
    decreases cells.len(),
{
    if cells.len() == 0 {
        (Seq::empty(), Seq::empty())
    } else {
        let (text, active) = paint(cells.drop_last(), enabled);
        let (more, now) = cell_step(active, cells.last(), enabled);
        (text + more, now)
    }
}

/// The hex column cell of position `index` of a row ending at `end`.
pub open spec fn hex_cell(bytes: Seq<u8>, readable: Seq<bool>, index: int, end: int, enabled: bool) -> Cell {
    if index >= end {
        (None, "   "@)
    } else if !readable[index] {
        (Some(painted(enabled, Palette::RED@)), "?? "@)
    } else {
        let b = bytes[index];
        let color = if b == 0 {
            Palette::DIM@
        } else if is_shown(b) {
            Palette::GREEN@
        } else {
            Palette::YELLOW@
        };
        (Some(painted(enabled, color)), hex_byte(b) + " "@)
    }
}

/// The ASCII column cell of position `index`.
pub open spec fn ascii_cell(bytes: Seq<u8>, readable: Seq<bool>, index: int, enabled: bool) -> Cell {
    if readable[index] {
        let b = bytes[index];
        let c = if is_shown(b) {
            b as char
        } else {
            '.'
        };
        (Some(painted(enabled, if c == '.' { Palette::DIM@ } else { Palette::GREEN@ })), seq![c])
    } else {
        (Some(painted(enabled, Palette::RED@)), "?"@)
    }
}

/// An unreadable byte is shown as `??` in the hex column and as `?` in the
/// ASCII column, whatever value it holds.
pub proof fn lemma_unreadable_shown_as_unknown(
    bytes: Seq<u8>,
    other: Seq<u8>,
    readable: Seq<bool>,
    index: int,
    end: int,
    enabled: bool,
)
    requires
        0 <= index < end,
        index < readable.len(),
        !readable[index],
    ensures
        hex_cell(bytes, readable, index, end, enabled).1 == "?? "@,
        ascii_cell(bytes, readable, index, enabled).1 == "?"@,
        hex_cell(bytes, readable, index, end, enabled) == hex_cell(other, readable, index, end, enabled),
        ascii_cell(bytes, readable, index, enabled) == ascii_cell(other, readable, index, enabled),
{
}

/// The hex column cells of the row at `offset`.
pub open spec fn hex_cells(bytes: Seq<u8>, readable: Seq<bool>, width: int, offset: int, enabled: bool) -> Seq<Cell> {
    Seq::new(
        width as nat,
        |i: int| hex_cell(bytes, readable, offset + i, row_end(offset, width, bytes.len() as int), enabled),
    )
}

/// The ASCII column cells of the row at `offset`.
pub open spec fn ascii_cells(bytes: Seq<u8>, readable: Seq<bool>, width: int, offset: int, enabled: bool) -> Seq<Cell> {
    Seq::new(
        (row_end(offset, width, bytes.len() as int) - offset) as nat,
        |i: int| ascii_cell(bytes, readable, offset + i, enabled),
    )
}

/// The line of the row at `offset`: the address, the hex column padded to
/// the width, and the ASCII column between bars.
#[verifier::opaque]
pub open spec fn row_line(start: int, bytes: Seq<u8>, readable: Seq<bool>, width: int, offset: int, enabled: bool) -> Seq<char> {
    let (hex_text, hex_active) = paint(hex_cells(bytes, readable, width, offset, enabled), enabled);
    let (ascii_text, ascii_active) = paint(ascii_cells(bytes, readable, width, offset, enabled), enabled);
    painted(enabled, Palette::CYAN@) + zero_padded(hex((start + offset) as nat), address_width())
        + painted(enabled, Palette::RESET@) + "  "@ + hex_text + color_end(hex_active, enabled) + " |"@
        + ascii_text + color_end(ascii_active, enabled) + "|\n"@
}

/// Whether the row at `offset` repeats the row before it, bytes and
/// readability alike.
pub open spec fn repeats_previous(bytes: Seq<u8>, readable: Seq<bool>, width: int, offset: int) -> bool {
    let end = row_end(offset, width, bytes.len() as int);
    &&& offset >= width
    &&& end - offset == width
    &&& bytes.subrange(offset - width, offset) == bytes.subrange(offset, end)
    &&& readable.subrange(offset - width, offset) == readable.subrange(offset, end)
}

/// The line that marks elided rows.
pub open spec fn elision_line(enabled: bool) -> Seq<char> {
    painted(enabled, Palette::DIM@) + "*"@ + painted(enabled, Palette::RESET@) + "\n"@
}

/// What the row at `offset` contributes: its line; or, when it repeats the
/// row before, one elision mark for a run of repeated rows.
pub open spec fn row_output(start: int, bytes: Seq<u8>, readable: Seq<bool>, width: int, offset: int, enabled: bool) -> Seq<char> {
    if repeats_previous(bytes, readable, width, offset) {
        if repeats_previous(bytes, readable, width, offset - width) {
            Seq::empty()
        } else {
            elision_line(enabled)
        }
    } else {
        row_line(start, bytes, readable, width, offset, enabled)
    }
}

/// A row whose line is not written (collapsed into a `*` mark, or into
/// the mark of an earlier row) is a full row equal to the row before it, in
/// its bytes and in which of them are readable.
pub proof fn lemma_collapsed_row_repeats(
    start: int,
    bytes: Seq<u8>,
    readable: Seq<bool>,
    width: int,
    offset: int,
    enabled: bool,
)
    requires
        width > 0,
        0 <= offset < bytes.len(),
        readable.len() == bytes.len(),
    ensures
        row_output(start, bytes, readable, width, offset, enabled) != row_line(
            start,
            bytes,
            readable,
            width,
            offset,
            enabled,
        ) ==> {
            &&& offset >= width
            &&& offset + width <= bytes.len()
            &&& forall|i: int| 0 <= i < width ==> bytes[offset - width + i] == #[trigger] bytes[offset + i]
            &&& forall|i: int| 0 <= i < width ==> readable[offset - width + i] == #[trigger] readable[offset + i]
        },
{
    if repeats_previous(bytes, readable, width, offset) {
        let end = row_end(offset, width, bytes.len() as int);
        assert forall|i: int| 0 <= i < width implies bytes[offset - width + i] == #[trigger] bytes[offset + i] by {
            assert(bytes.subrange(offset - width, offset)[i] == bytes.subrange(offset, end)[i]);
        }
        assert forall|i: int| 0 <= i < width implies readable[offset - width + i] == #[trigger] readable[offset + i] by {
            assert(readable.subrange(offset - width, offset)[i] == readable.subrange(offset, end)[i]);
        }
    }
}

/// Every row of a dump is written, or is equal, in its bytes and in which
/// of them are readable, to an earlier row whose line is written: the row
/// at `offset` matches the written row at the returned position, a whole
/// number of rows before it. So every unreadable byte is shown as `??` in
/// a written row that stands for its row.
pub proof fn lemma_row_shown_by_written_row(
    start: int,
    bytes: Seq<u8>,
    readable: Seq<bool>,
    width: int,
    offset: int,
    enabled: bool,
) -> (shown: int)
    requires
        width > 0,
        0 <= offset < bytes.len(),
        offset % width == 0,
        readable.len() == bytes.len(),
    ensures
        0 <= shown <= offset,
        shown % width == 0,
        row_output(start, bytes, readable, width, shown, enabled) == row_line(
            start,
            bytes,
            readable,
            width,
            shown,
            enabled,
        ),
        row_end(shown, width, bytes.len() as int) - shown == row_end(offset, width, bytes.len() as int) - offset,
        forall|i: int|
            0 <= i < row_end(offset, width, bytes.len() as int) - offset ==> bytes[shown + i] == #[trigger] bytes[offset
                + i] && readable[shown + i] == readable[offset + i],
    decreases offset,
{
    if !repeats_previous(bytes, readable, width, offset) {
        offset
    } else {
        let end = row_end(offset, width, bytes.len() as int);
        assert((offset - width) % width == 0) by {
            vstd::arithmetic::div_mod::lemma_mod_sub_multiples_vanish(offset, width);
        }
        let shown = lemma_row_shown_by_written_row(start, bytes, readable, width, offset - width, enabled);
        assert(row_end(offset - width, width, bytes.len() as int) == offset);
        assert forall|i: int| 0 <= i < end - offset implies bytes[shown + i] == #[trigger] bytes[offset + i]
            && readable[shown + i] == readable[offset + i] by {
            assert(bytes.subrange(offset - width, offset)[i] == bytes.subrange(offset, end)[i]);
            assert(readable.subrange(offset - width, offset)[i] == readable.subrange(offset, end)[i]);
            assert(bytes[shown + i] == bytes[offset - width + i]);
            assert(readable[shown + i] == readable[offset - width + i]);
        }
        shown
    }
}

/// The dump of the rows from `offset` on.
pub open spec fn hexdump_from(start: int, bytes: Seq<u8>, readable: Seq<bool>, width: int, offset: int, enabled: bool) -> Seq<char>
    decreases bytes.len() - offset,
{
    if width <= 0 || offset >= bytes.len() {
        Seq::empty()
    } else if offset + width >= bytes.len() {
        row_output(start, bytes, readable, width, offset, enabled)
    } else {
        row_output(start, bytes, readable, width, offset, enabled) + hexdump_from(
            start,
            bytes,
            readable,
            width,
            offset + width,
            enabled,
        )
    }
}

/// Whether two rows of a dump hold the same bytes with the same
/// readability.
#[verifier::spinoff_prover]
fn rows_equal(dump: &Dump, a: usize, a_end: usize, b: usize, b_end: usize) -> (r: bool)
    requires
        a <= a_end <= dump.bytes@.len(),
        b <= b_end <= dump.bytes@.len(),
        dump.readable@.len() == dump.bytes@.len(),
    ensures
        r == (a_end - a == b_end - b && dump.bytes@.subrange(a as int, a_end as int)
            == dump.bytes@.subrange(b as int, b_end as int) && dump.readable@.subrange(a as int, a_end as int)
            == dump.readable@.subrange(b as int, b_end as int)),
{
    if a_end - a != b_end - b {
        return false;
    }
    let n = a_end - a;
    let mut i: usize = 0;
    assert(dump.bytes@.subrange(a as int, a as int) =~= dump.bytes@.subrange(b as int, b as int));
    assert(dump.readable@.subrange(a as int, a as int) =~= dump.readable@.subrange(b as int, b as int));
    while i < n
        invariant
            i <= n,
            n == a_end - a,
            n == b_end - b,
            a_end <= dump.bytes@.len(),
            b_end <= dump.bytes@.len(),
            dump.readable@.len() == dump.bytes@.len(),
            dump.bytes@.subrange(a as int, a + i) == dump.bytes@.subrange(b as int, b + i),
            dump.readable@.subrange(a as int, a + i) == dump.readable@.subrange(b as int, b + i),
        decreases n - i,
    {
        if dump.bytes[a + i] != dump.bytes[b + i] || dump.readable[a + i] != dump.readable[b + i] {
            proof {
                if dump.bytes@[a + i] != dump.bytes@[b + i] {
                    assert(dump.bytes@.subrange(a as int, a_end as int)[i as int] != dump.bytes@.subrange(b as int, b_end as int)[i as int]);
                } else {
                    assert(dump.readable@.subrange(a as int, a_end as int)[i as int] != dump.readable@.subrange(b as int, b_end as int)[i as int]);
                }
            }
            return false;
        }
        proof {
            assert(dump.bytes@.subrange(a as int, a + i + 1) =~= dump.bytes@.subrange(a as int, a + i).push(dump.bytes@[a + i]));
            assert(dump.bytes@.subrange(b as int, b + i + 1) =~= dump.bytes@.subrange(b as int, b + i).push(dump.bytes@[b + i]));
            assert(dump.readable@.subrange(a as int, a + i + 1) =~= dump.readable@.subrange(a as int, a + i).push(dump.readable@[a + i]));
            assert(dump.readable@.subrange(b as int, b + i + 1) =~= dump.readable@.subrange(b as int, b + i).push(dump.readable@[b + i]));
        }
        i = i + 1;
    }
    true
}

proof fn lemma_paint_step(cells: Seq<Cell>, k: int, enabled: bool)
    requires
        0 <= k < cells.len(),
    ensures
        paint(cells.take(k + 1), enabled) == ({
            let (text, active) = paint(cells.take(k), enabled);
            let (more, now) = cell_step(active, cells[k], enabled);
            (text + more, now)
        }),
{
    assert(cells.take(k + 1).drop_last() =~= cells.take(k));
}

/// Writes a hex column cell after the active color.
#[verifier::spinoff_prover]
fn write_hex_cell(line: &mut String, active: &mut &'static str, dump: &Dump, index: usize, end: usize, palette: &Palette)
    requires
        end <= dump.bytes@.len(),
        dump.readable@.len() == dump.bytes@.len(),
    ensures
        ({
            let (more, now) = cell_step(
                old(active)@,
                hex_cell(dump.bytes@, dump.readable@, index as int, end as int, palette.enabled),
                palette.enabled,
            );
            final(line)@ == old(line)@ + more && final(active)@ == now
        }),
{
    proof {
        reveal_strlit("   ");
        reveal_strlit("?? ");
        reveal_strlit(" ");
    }
    if index >= end {
        reset_line_color(line, active, palette);
        push_str(line, "   ");
    } else if !dump.readable[index] {
        set_line_color(line, active, Palette::RED, palette);
        push_str(line, "?? ");
    } else {
        let byte = dump.bytes[index];
        let color = if byte == 0 {
            Palette::DIM
        } else if (0x21 <= byte && byte <= 0x7e) || byte == 0x20 {
            Palette::GREEN
        } else {
            Palette::YELLOW
        };
        let ghost before = line@;
        set_line_color(line, active, color, palette);
        let ghost switched = line@;
        push_hex_byte(line, byte);
        line.push(' ');
        assert(line@ =~= switched + (hex_byte(byte) + " "@));
    }
}

/// Writes an ASCII column cell after the active color.
#[verifier::spinoff_prover]
fn write_ascii_cell(line: &mut String, active: &mut &'static str, dump: &Dump, index: usize, palette: &Palette)
    requires
        index < dump.bytes@.len(),
        dump.readable@.len() == dump.bytes@.len(),
    ensures
        ({
            let (more, now) = cell_step(
                old(active)@,
                ascii_cell(dump.bytes@, dump.readable@, index as int, palette.enabled),
                palette.enabled,
            );
            final(line)@ == old(line)@ + more && final(active)@ == now
        }),
{
    proof {
        reveal_strlit("?");
    }
    if dump.readable[index] {
        let byte = dump.bytes[index];
        let character = if (0x21 <= byte && byte <= 0x7e) || byte == 0x20 {
            byte as char
        } else {
            '.'
        };
        let color = if character == '.' {
            Palette::DIM
        } else {
            Palette::GREEN
        };
        set_line_color(line, active, color, palette);
        let ghost switched = line@;
        line.push(character);
        assert(line@ =~= switched + seq![character]);
    } else {
        set_line_color(line, active, Palette::RED, palette);
        let ghost switched = line@;
        line.push('?');
        assert(line@ =~= switched + "?"@);
    }
}

/// Writes the line of the row at `offset`.
#[verifier::spinoff_prover]
fn write_row(output: &mut String, start: usize, dump: &Dump, width: usize, offset: usize, palette: &Palette)
    requires
        width > 0,
        offset < dump.bytes@.len(),
        dump.readable@.len() == dump.bytes@.len(),
        start + dump.bytes@.len() <= usize::MAX,
        dump.bytes@.len() + width <= usize::MAX,
    ensures
        final(output)@ == old(output)@ + row_line(
            start as int,
            dump.bytes@,
            dump.readable@,
            width as int,
            offset as int,
            palette.enabled,
        ),
{
    let ghost bytes = dump.bytes@;
    let ghost readable = dump.readable@;
    let ghost enabled = palette.enabled;
    let len = dump.bytes.len();
    let end = if offset + width < len {
        offset + width
    } else {
        len
    };
    let mut line = String::new();
    push_str(&mut line, palette.code(Palette::CYAN));
    push_address(&mut line, start + offset);
    push_str(&mut line, palette.reset());
    push_str(&mut line, "  ");
    let ghost head = line@;
    let ghost cells = hex_cells(bytes, readable, width as int, offset as int, enabled);
    let mut active: &'static str = "";
    proof {
        reveal_strlit("");
        assert(cells.take(0) =~= Seq::<Cell>::empty());
        assert(head + paint(cells.take(0), enabled).0 =~= head);
    }
    let mut index = offset;
    while index < offset + width
        invariant
            offset <= index <= offset + width,
            offset + width <= usize::MAX,
            end == row_end(offset as int, width as int, len as int),
            len == bytes.len(),
            bytes == dump.bytes@,
            readable == dump.readable@,
            readable.len() == len,
            enabled == palette.enabled,
            cells == hex_cells(bytes, readable, width as int, offset as int, enabled),
            line@ == head + paint(cells.take(index - offset), enabled).0,
            active@ == paint(cells.take(index - offset), enabled).1,
        decreases offset + width - index,
    {
        let ghost k = index - offset;
        proof {
            lemma_paint_step(cells, k, enabled);
            assert(cells[k] == hex_cell(bytes, readable, index as int, end as int, enabled));
        }
        write_hex_cell(&mut line, &mut active, dump, index, end, palette);
        index = index + 1;
        assert(line@ =~= head + paint(cells.take(index - offset), enabled).0);
    }
    assert(cells.take(width as int) =~= cells);
    reset_line_color(&mut line, &mut active, palette);
    push_str(&mut line, " |");
    let ghost middle = line@;
    let ghost letters = ascii_cells(bytes, readable, width as int, offset as int, enabled);
    proof {
        assert(letters.take(0) =~= Seq::<Cell>::empty());
        assert(middle + paint(letters.take(0), enabled).0 =~= middle);
    }
    let mut index = offset;
    while index < end
        invariant
            offset <= index <= end,
            end == row_end(offset as int, width as int, len as int),
            end <= len,
            len == bytes.len(),
            bytes == dump.bytes@,
            readable == dump.readable@,
            readable.len() == len,
            enabled == palette.enabled,
            letters == ascii_cells(bytes, readable, width as int, offset as int, enabled),
            line@ == middle + paint(letters.take(index - offset), enabled).0,
            active@ == paint(letters.take(index - offset), enabled).1,
        decreases end - index,
    {
        let ghost k = index - offset;
        proof {
            lemma_paint_step(letters, k, enabled);
            assert(letters[k] == ascii_cell(bytes, readable, index as int, enabled));
        }
        write_ascii_cell(&mut line, &mut active, dump, index, palette);
        index = index + 1;
        assert(line@ =~= middle + paint(letters.take(index - offset), enabled).0);
    }
    assert(letters.take(end - offset) =~= letters);
    reset_line_color(&mut line, &mut active, palette);
    push_str(&mut line, "|\n");
    push_str(output, line.as_str());
    proof {
        reveal(row_line);
    }
    assert(final(output)@ =~= old(output)@ + row_line(start as int, bytes, readable, width as int, offset as int, enabled));
}

/// The whole dump of a mapping.
pub open spec fn hexdump_text(start: int, bytes: Seq<u8>, readable: Seq<bool>, width: int, enabled: bool) -> Seq<char> {
    hexdump_from(start, bytes, readable, width, 0, enabled)
}

#[verifier::rlimit(40)]
/// Writes the hex/ASCII dump of a mapping, `width` bytes per row, with
/// unreadable bytes as `??`/`?` and each run of rows that repeat the row
/// before them collapsed into one `*` line.
#[verifier::spinoff_prover]
pub fn write_hexdump(output: &mut String, mapping: &Mapping, dump: &Dump, width: usize, palette: &Palette)
    requires
        width > 0,
        dump.readable@.len() == dump.bytes@.len(),
        mapping.start + dump.bytes@.len() <= usize::MAX,
        dump.bytes@.len() + width <= usize::MAX,
    ensures
        final(output)@ == old(output)@ + hexdump_text(
            mapping.start as int,
            dump.bytes@,
            dump.readable@,
            width as int,
            palette.enabled,
        ),
{
    let ghost bytes = dump.bytes@;
    let ghost readable = dump.readable@;
    let ghost enabled = palette.enabled;
    let ghost start = mapping.start as int;
    let len = dump.bytes.len();
    let mut previous: Option<(usize, usize)> = None;
    let mut eliding = false;
    let mut offset: usize = 0;
    while offset < len
        invariant
            offset <= len,
            len == bytes.len(),
            width > 0,
            bytes == dump.bytes@,
            readable == dump.readable@,
            readable.len() == len,
            enabled == palette.enabled,
            start == mapping.start,
            mapping.start + len <= usize::MAX,
            len + width <= usize::MAX,
            offset < len ==> match previous {
                None => offset == 0,
                Some((p, p_end)) => offset >= width && p == offset - width && p_end == offset,
            },
            offset < len ==> eliding == (offset >= width && repeats_previous(bytes, readable, width as int, offset - width)),
            old(output)@ + hexdump_text(start, bytes, readable, width as int, enabled) == output@
                + hexdump_from(start, bytes, readable, width as int, offset as int, enabled),
        decreases len - offset,
    {
        let end = if width < len - offset {
            offset + width
        } else {
            len
        };
        let repeated = match previous {
            Some((previous_start, previous_end)) => rows_equal(dump, previous_start, previous_end, offset, end),
            None => false,
        };
        proof {
            assert(end == row_end(offset as int, width as int, len as int));
            assert(repeated == repeats_previous(bytes, readable, width as int, offset as int));
            if width < len - offset {
                assert(hexdump_from(start, bytes, readable, width as int, offset as int, enabled)
                    == row_output(start, bytes, readable, width as int, offset as int, enabled)
                    + hexdump_from(start, bytes, readable, width as int, offset + width, enabled));
            } else {
                assert(hexdump_from(start, bytes, readable, width as int, offset as int, enabled)
                    == row_output(start, bytes, readable, width as int, offset as int, enabled));
                assert(hexdump_from(start, bytes, readable, width as int, len as int, enabled)
                    == Seq::<char>::empty());
            }
        }
        previous = Some((offset, end));
        let ghost before = output@;
        if repeated {
            if !eliding {
                push_str(output, palette.code(Palette::DIM));
                push_str(output, "*");
                push_str(output, palette.reset());
                push_str(output, "\n");
            }
            eliding = true;
        } else {
            eliding = false;
            write_row(output, mapping.start, dump, width, offset, palette);
        }
        assert(output@ =~= before + row_output(start, bytes, readable, width as int, offset as int, enabled));
        if width < len - offset {
            offset = offset + width;
        } else {
            offset = len;
            previous = None;
        }
    }
}

/// The line of an export that lies in the mapping: its run-time address,
/// name and size.
pub open spec fn resolved_line(address: int, name: Seq<char>, size: u64, enabled: bool) -> Seq<char> {
    "    "@ + painted(enabled, Palette::YELLOW@) + "0x"@ + zero_padded(hex(address as nat), address_width())
        + painted(enabled, Palette::RESET@) + "  "@ + painted(enabled, Palette::GREEN@) + name + painted(
        enabled,
        Palette::RESET@,
    ) + "  "@ + painted(enabled, Palette::DIM@) + "("@ + decimal(size as nat) + " B)"@ + painted(
        enabled,
        Palette::RESET@,
    ) + "\n"@
}

/// The line of an export that does not lie in an executable part of the
/// mapping: its name, value in the image and size.
pub open spec fn unresolved_line(name: Seq<char>, value: u64, size: u64, enabled: bool) -> Seq<char> {
    "    "@ + painted(enabled, Palette::RED@) + "unresolved"@ + painted(enabled, Palette::RESET@)
        + "          "@ + painted(enabled, Palette::GREEN@) + name + painted(enabled, Palette::RESET@) + "  "@
        + painted(enabled, Palette::DIM@) + "(ELF value 0x"@ + hex(value as nat) + ", "@ + decimal(size as nat)
        + " B)"@ + painted(enabled, Palette::RESET@) + "\n"@
}

/// The line of an export.
pub open spec fn export_line(
    image: (Option<u64>, Seq<LoadSegment>),
    start: usize,
    len: usize,
    symbol: SymbolView,
    enabled: bool,
) -> Seq<char> {
    match runtime_address_of(image, start, len, symbol.1, symbol.2) {
        Some(address) => resolved_line(address, decode_utf8(symbol.0), symbol.2, enabled),
        None => unresolved_line(decode_utf8(symbol.0), symbol.1, symbol.2, enabled),
    }
}

#[verifier::spinoff_prover]
fn write_resolved(output: &mut String, address: usize, name: &str, size: u64, palette: &Palette)
    ensures
        final(output)@ == old(output)@ + resolved_line(address as int, name@, size, palette.enabled),
{
    push_str(output, "    ");
    push_str(output, palette.code(Palette::YELLOW));
    push_str(output, "0x");
    push_address(output, address);
    push_str(output, palette.reset());
    push_str(output, "  ");
    push_str(output, palette.code(Palette::GREEN));
    push_str(output, name);
    push_str(output, palette.reset());
    push_str(output, "  ");
    push_str(output, palette.code(Palette::DIM));
    push_str(output, "(");
    push_decimal(output, size);
    push_str(output, " B)");
    push_str(output, palette.reset());
    push_str(output, "\n");
    assert(final(output)@ =~= old(output)@ + resolved_line(address as int, name@, size, palette.enabled));
}

#[verifier::spinoff_prover]
fn write_unresolved(output: &mut String, name: &str, value: u64, size: u64, palette: &Palette)
    ensures
        final(output)@ == old(output)@ + unresolved_line(name@, value, size, palette.enabled),
{
    push_str(output, "    ");
    push_str(output, palette.code(Palette::RED));
    push_str(output, "unresolved");
    push_str(output, palette.reset());
    push_str(output, "          ");
    push_str(output, palette.code(Palette::GREEN));
    push_str(output, name);
    push_str(output, palette.reset());
    push_str(output, "  ");
    push_str(output, palette.code(Palette::DIM));
    push_str(output, "(ELF value 0x");
    push_hex(output, value);
    push_str(output, ", ");
    push_decimal(output, size);
    push_str(output, " B)");
    push_str(output, palette.reset());
    push_str(output, "\n");
    assert(final(output)@ =~= old(output)@ + unresolved_line(name@, value, size, palette.enabled));
}

/// The lines of the exports, in order.
pub open spec fn export_lines(
    image: (Option<u64>, Seq<LoadSegment>),
    start: usize,
    len: usize,
    exports: Seq<SymbolView>,
    enabled: bool,
) -> Seq<char>
    decreases exports.len(),
{
    if exports.len() == 0 {
        Seq::empty()
    } else {
        export_lines(image, start, len, exports.drop_last(), enabled) + export_line(
            image,
            start,
            len,
            exports.last(),
            enabled,
        )
    }
}

/// The fields of a vDSO header: format, architecture, ABI, tables and
/// entry point.
pub open spec fn vdso_header_fields(h: ElfHeader, enabled: bool) -> Seq<char> {
    field_line(
        "format"@,
        "ELF"@ + decimal(if h.class == Class::Elf32 { 32nat } else { 64nat }) + " "@ + (if h.endian
            == Endian::Little {
            "little-endian"@
        } else {
            "big-endian"@
        }) + ", "@ + object_type_name(h.object_type),
        enabled,
    ) + field_line("architecture"@, machine_name(h.machine), enabled) + field_line("ABI"@, abi_name(h.abi), enabled)
        + field_line(
        "tables"@,
        decimal(h.program_headers as nat) + " program headers, "@ + decimal(h.sections as nat) + " sections"@,
        enabled,
    ) + field_line("entry"@, "0x"@ + hex(h.entry as nat), enabled)
}

/// The line that announces `count` exported functions.
pub open spec fn exports_heading(count: nat, enabled: bool) -> Seq<char> {
    "  "@ + painted(enabled, Palette::CYAN@) + "exports"@ + painted(enabled, Palette::RESET@) + "           "@
        + painted(enabled, Palette::GREEN@) + decimal(count) + " functions"@ + painted(enabled, Palette::RESET@)
        + "\n"@
}

/// The decoded fields of a vDSO image after its purpose: format,
/// architecture, ABI, tables, entry point, and its exports in `order`.
pub open spec fn vdso_fields(
    h: ElfHeader,
    image: (Option<u64>, Seq<LoadSegment>),
    order: Seq<SymbolView>,
    start: usize,
    len: usize,
    enabled: bool,
) -> Seq<char> {
    vdso_header_fields(h, enabled) + exports_heading(order.len(), enabled) + export_lines(
        image,
        start,
        len,
        order,
        enabled,
    )
}

/// Whether the vDSO image `bytes` decodes with at least one export.
pub open spec fn vdso_has_exports(bytes: Seq<u8>) -> bool {
    match header_of(bytes) {
        Err(_) => false,
        Ok(h) => match load_image_of(bytes, h.endian, h.class, h.program_offset, h.program_entry_size, h.program_headers) {
            Err(_) => false,
            Ok(_) => match exports_of(bytes, h.endian, h.class, h.section_offset, h.section_entry_size, h.sections) {
                Err(_) => false,
                Ok(exports) => exports.len() > 0,
            },
        },
    }
}

/// Whether `text` is what is shown of the vDSO image `bytes` mapped at
/// `start` with `len` bytes: its purpose, then its fields with its exports
/// in some order by address, or why it cannot be decoded.
pub open spec fn vdso_output(bytes: Seq<u8>, start: usize, len: usize, enabled: bool, text: Seq<char>) -> bool {
    let purpose = field_line("purpose"@, "kernel-provided userspace system calls"@, enabled);
    let failed = |e: crate::elf::ParseError|
        purpose + field_line("ELF"@, "cannot decode: "@ + parse_error_text(e), enabled);
    match header_of(bytes) {
        Err(e) => text == failed(e),
        Ok(h) => match load_image_of(bytes, h.endian, h.class, h.program_offset, h.program_entry_size, h.program_headers) {
            Err(e) => text == failed(e),
            Ok(image) => match exports_of(bytes, h.endian, h.class, h.section_offset, h.section_entry_size, h.sections) {
                Err(e) => text == failed(e),
                Ok(exports) => exists|order: Seq<SymbolView>|
                    sorted_by_address(order) && order.to_multiset() =~= exports.to_multiset()
                        && text == purpose + vdso_fields(h, image, order, start, len, enabled),
            },
        },
    }
}

/// Writes the line of an export.
#[verifier::spinoff_prover]
fn write_export(output: &mut String, info: &crate::elf::ElfInfo<'_>, mapping: &Mapping, symbol: &Symbol<'_>, palette: &Palette)
    requires
        mapping.start <= mapping.end,
    ensures
        final(output)@ == old(output)@ + export_line(
            info.load_image@,
            mapping.start,
            (mapping.end - mapping.start) as usize,
            symbol@,
            palette.enabled,
        ),
{
    proof {
        vstd::utf8::encode_utf8_decode_utf8(symbol.name@);
    }
    match info.runtime_address(mapping.start, mapping.len(), symbol) {
        Some(address) => write_resolved(output, address, symbol.name, symbol.size, palette),
        None => write_unresolved(output, symbol.name, symbol.value, symbol.size, palette),
    }
}

#[verifier::spinoff_prover]
fn write_vdso_fields(output: &mut String, info: &crate::elf::ElfInfo<'_>, h: Ghost<ElfHeader>, palette: &Palette)
    requires
        info.bits == (if h@.class == Class::Elf32 { 32u8 } else { 64u8 }),
        info.endian@ == (if h@.endian == Endian::Little { "little-endian"@ } else { "big-endian"@ }),
        info.abi@ == abi_name(h@.abi),
        info.object_type@ == object_type_name(h@.object_type),
        info.machine@ == machine_name(h@.machine),
        info.entry == h@.entry,
        info.program_headers == h@.program_headers,
        info.sections == h@.sections,
    ensures
        final(output)@ == old(output)@ + vdso_header_fields(h@, palette.enabled),
{
    let ghost before = output@;
    let mut format = owned("ELF");
    push_decimal(&mut format, info.bits as u64);
    push_str(&mut format, " ");
    push_str(&mut format, info.endian);
    push_str(&mut format, ", ");
    push_str(&mut format, info.object_type.as_str());
    write_field(output, "format", format.as_str(), palette);
    write_field(output, "architecture", info.machine.as_str(), palette);
    write_field(output, "ABI", info.abi.as_str(), palette);
    let mut tables = String::new();
    push_decimal(&mut tables, info.program_headers as u64);
    push_str(&mut tables, " program headers, ");
    push_decimal(&mut tables, info.sections as u64);
    push_str(&mut tables, " sections");
    write_field(output, "tables", tables.as_str(), palette);
    let mut entry = owned("0x");
    push_hex(&mut entry, info.entry);
    write_field(output, "entry", entry.as_str(), palette);
}

/// Writes the line that announces the exports and then one line per export.
#[verifier::spinoff_prover]
fn write_exports(output: &mut String, info: &crate::elf::ElfInfo<'_>, mapping: &Mapping, palette: &Palette)
    requires
        mapping.start <= mapping.end || info.exports@.len() == 0,
    ensures
        final(output)@ == old(output)@ + exports_heading(info.exports@.len() as nat, palette.enabled)
            + export_lines(
            info.load_image@,
            mapping.start,
            (mapping.end - mapping.start) as usize,
            symbol_views(info.exports@),
            palette.enabled,
        ),
{
    let ghost before = output@;
    push_str(output, "  ");
    push_str(output, palette.code(Palette::CYAN));
    push_str(output, "exports");
    push_str(output, palette.reset());
    push_str(output, "           ");
    push_str(output, palette.code(Palette::GREEN));
    push_decimal(output, info.exports.len() as u64);
    push_str(output, " functions");
    push_str(output, palette.reset());
    push_str(output, "\n");
    let ghost head = output@;
    assert(head =~= before + exports_heading(info.exports@.len() as nat, palette.enabled));
    let ghost image = info.load_image@;
    let ghost order = symbol_views(info.exports@);
    let n = info.exports.len();
    let mut i: usize = 0;
    assert(order.take(0) =~= Seq::<SymbolView>::empty());
    while i < n
        invariant
            i <= n,
            n == info.exports@.len(),
            order == symbol_views(info.exports@),
            info.load_image@ == image,
            mapping.start <= mapping.end || n == 0,
            output@ == head + export_lines(
                image,
                mapping.start,
                (mapping.end - mapping.start) as usize,
                order.take(i as int),
                palette.enabled,
            ),
        decreases n - i,
    {
        write_export(output, info, mapping, &info.exports[i], palette);
        proof {
            assert(order.take(i + 1).drop_last() =~= order.take(i as int));
            assert(order.take(i + 1).last() == info.exports@[i as int]@);
        }
        i = i + 1;
    }
    assert(order.take(n as int) =~= order);
}

#[verifier::spinoff_prover]
fn write_vdso_info(
    output: &mut String,
    info: &crate::elf::ElfInfo<'_>,
    mapping: &Mapping,
    h: Ghost<ElfHeader>,
    palette: &Palette,
)
    requires
        mapping.start <= mapping.end || info.exports@.len() == 0,
        info.bits == (if h@.class == Class::Elf32 { 32u8 } else { 64u8 }),
        info.endian@ == (if h@.endian == Endian::Little { "little-endian"@ } else { "big-endian"@ }),
        info.abi@ == abi_name(h@.abi),
        info.object_type@ == object_type_name(h@.object_type),
        info.machine@ == machine_name(h@.machine),
        info.entry == h@.entry,
        info.program_headers == h@.program_headers,
        info.sections == h@.sections,
    ensures
        final(output)@ == old(output)@ + vdso_fields(
            h@,
            info.load_image@,
            symbol_views(info.exports@),
            mapping.start,
            (mapping.end - mapping.start) as usize,
            palette.enabled,
        ),
{
    let ghost before = output@;
    write_vdso_fields(output, info, h, palette);
    let ghost mid = output@;
    write_exports(output, info, mapping, palette);
    proof {
        let order = symbol_views(info.exports@);
        assert(order.len() == info.exports@.len());
        assert(output@ =~= before + vdso_fields(
            h@,
            info.load_image@,
            order,
            mapping.start,
            (mapping.end - mapping.start) as usize,
            palette.enabled,
        ));
    }
}

#[verifier::spinoff_prover]
#[verifier::rlimit(40)]
/// Writes what is decoded of the vDSO: its purpose, format, architecture,
/// ABI, tables, entry point and each export with its run-time address; or
/// why the image cannot be decoded.
pub fn write_decoded_vdso(output: &mut String, mapping: &Mapping, dump: &Dump, palette: &Palette)
    requires
        mapping.start <= mapping.end || !vdso_has_exports(dump.bytes@),
    ensures
        exists|text: Seq<char>|
            final(output)@ == old(output)@ + text && vdso_output(
                dump.bytes@,
                mapping.start,
                (mapping.end - mapping.start) as usize,
                palette.enabled,
                text,
            ),
{
    let ghost before = output@;
    let ghost purpose = field_line("purpose"@, "kernel-provided userspace system calls"@, palette.enabled);
    write_field(output, "purpose", "kernel-provided userspace system calls", palette);
    let parsed = parse(dump.bytes.as_slice());
    let ghost bytes = dump.bytes@;
    let info = match parsed {
        Ok(info) => info,
        Err(error) => {
            let mut message = owned("cannot decode: ");
            push_str(&mut message, error.message());
            write_field(output, "ELF", message.as_str(), palette);
            let ghost text = purpose + field_line("ELF"@, "cannot decode: "@ + parse_error_text(error), palette.enabled);
            assert(output@ =~= before + text);
            assert(vdso_output(bytes, mapping.start, (mapping.end - mapping.start) as usize, palette.enabled, text));
            return;
        },
    };
    let ghost h = header_of(bytes)->Ok_0;
    proof {
        let image = load_image_of(bytes, h.endian, h.class, h.program_offset, h.program_entry_size, h.program_headers);
        let exports = exports_of(bytes, h.endian, h.class, h.section_offset, h.section_entry_size, h.sections)->Ok_0;
        vstd::seq_lib::to_multiset_len(symbol_views(info.exports@));
        vstd::seq_lib::to_multiset_len(exports);
        assert(symbol_views(info.exports@).len() == info.exports@.len());
    }
    write_vdso_info(output, &info, mapping, Ghost(h), palette);
    let ghost order = symbol_views(info.exports@);
    let ghost text = purpose + vdso_fields(h, info.load_image@, order, mapping.start, (mapping.end - mapping.start) as usize, palette.enabled);
    assert(output@ =~= before + text);
    assert(vdso_output(bytes, mapping.start, (mapping.end - mapping.start) as usize, palette.enabled, text));
}

/// The start of a clock's line: its name and value.
pub open spec fn clock_head(clock: ClockReading, enabled: bool) -> Seq<char> {
    "    "@ + painted(enabled, Palette::CYAN@) + space_padded(clock.name@, 18) + painted(enabled, Palette::RESET@)
        + " "@ + painted(enabled, Palette::GREEN@) + clock.value@ + painted(enabled, Palette::RESET@)
}

/// The end of a clock's line: in dim text its note and resolution.
pub open spec fn clock_note(clock: ClockReading, enabled: bool) -> Seq<char> {
    "  "@ + painted(enabled, Palette::DIM@) + "("@ + clock.note@ + resolution_suffix(clock.resolution) + ")"@
        + painted(enabled, Palette::RESET@) + "\n"@
}

/// The resolution of a clock after its note, when it is known.
pub open spec fn resolution_suffix(resolution: Option<String>) -> Seq<char> {
    match resolution {
        Some(r) => ", resolution "@ + r@,
        None => Seq::empty(),
    }
}

/// The line of a clock: its name, value, and in dim text its note and
/// resolution.
pub open spec fn clock_line(clock: ClockReading, enabled: bool) -> Seq<char> {
    clock_head(clock, enabled) + clock_note(clock, enabled)
}

/// The lines of the clocks, in order.
pub open spec fn clock_lines(clocks: Seq<ClockReading>, enabled: bool) -> Seq<char>
    decreases clocks.len(),
{
    if clocks.len() == 0 {
        Seq::empty()
    } else {
        clock_lines(clocks.drop_last(), enabled) + clock_line(clocks.last(), enabled)
    }
}

/// An optional labelled line: the line when there is a value, else nothing.
pub open spec fn optional_field(label: Seq<char>, value: Option<Seq<char>>, enabled: bool) -> Seq<char> {
    match value {
        Some(v) => field_line(label, v, enabled),
        None => Seq::empty(),
    }
}

/// The fields of the vvar mapping before its clocks: purpose, how much
/// was readable, its layout note, the current clock source when known, and
/// the heading of the clock values.
pub open spec fn vvar_fields(len: nat, readable: nat, clocksource: Option<Seq<char>>, enabled: bool) -> Seq<char> {
    field_line("purpose"@, "kernel timekeeping data consumed by vDSO"@, enabled) + field_line(
        "readable"@,
        readable_summary_text(len, readable),
        enabled,
    ) + field_line("layout"@, "kernel-private; use --hex for exact fields"@, enabled) + optional_field(
        "clocksource"@,
        clocksource,
        enabled,
    ) + clock_values_heading(enabled)
}

/// The heading of the clock values.
pub open spec fn clock_values_heading(enabled: bool) -> Seq<char> {
    "  "@ + painted(enabled, Palette::CYAN@) + "clock values"@ + painted(enabled, Palette::RESET@) + "\n"@
}

/// What is shown of the vvar mapping: its fields, then one line per clock.
pub open spec fn vvar_output(
    len: nat,
    readable: nat,
    clocksource: Option<Seq<char>>,
    clocks: Seq<ClockReading>,
    enabled: bool,
) -> Seq<char> {
    vvar_fields(len, readable, clocksource, enabled) + clock_lines(clocks, enabled)
}

/// What is shown of the vvar-clock mapping: purpose, how much was readable,
/// its layout note, the current and available clock sources when known,
/// and a status line when nothing at all could be read.
pub open spec fn vvar_clock_output(
    len: nat,
    readable: nat,
    current: Option<Seq<char>>,
    available: Option<Seq<char>>,
    enabled: bool,
) -> Seq<char> {
    field_line("purpose"@, "architecture or hypervisor clock acceleration"@, enabled) + field_line(
        "readable"@,
        readable_summary_text(len, readable),
        enabled,
    ) + field_line("layout"@, "architecture-private; use --hex for exact bytes"@, enabled) + optional_field(
        "current source"@,
        current,
        enabled,
    ) + optional_field("available"@, available, enabled) + (if readable == 0 {
        field_line("status"@, "mapping present, but no pages are readable here"@, enabled)
    } else {
        Seq::empty()
    })
}

/// The view of an optional string.
pub open spec fn text_of(value: Option<&str>) -> Option<Seq<char>> {
    match value {
        Some(v) => Some(v@),
        None => None,
    }
}

/// Writes a labelled line when there is a value.
#[verifier::spinoff_prover]
fn write_optional_field(output: &mut String, label: &str, value: Option<&str>, palette: &Palette)
    ensures
        final(output)@ == old(output)@ + optional_field(label@, text_of(value), palette.enabled),
{
    match value {
        Some(v) => write_field(output, label, v, palette),
        None => {
            assert(output@ =~= old(output)@ + optional_field(label@, text_of(value), palette.enabled));
        },
    }
}

#[verifier::spinoff_prover]
fn write_clock_head(output: &mut String, clock: &ClockReading, palette: &Palette)
    ensures
        final(output)@ == old(output)@ + clock_head(*clock, palette.enabled),
{
    push_str(output, "    ");
    push_str(output, palette.code(Palette::CYAN));
    push_space_padded(output, clock.name, 18);
    push_str(output, palette.reset());
    push_str(output, " ");
    push_str(output, palette.code(Palette::GREEN));
    push_str(output, clock.value.as_str());
    push_str(output, palette.reset());
    assert(output@ =~= old(output)@ + clock_head(*clock, palette.enabled));
}

#[verifier::spinoff_prover]
fn write_clock_note(output: &mut String, clock: &ClockReading, palette: &Palette)
    ensures
        final(output)@ == old(output)@ + clock_note(*clock, palette.enabled),
{
    push_str(output, "  ");
    push_str(output, palette.code(Palette::DIM));
    push_str(output, "(");
    push_str(output, clock.note);
    let ghost middle = output@;
    match &clock.resolution {
        Some(r) => {
            push_str(output, ", resolution ");
            push_str(output, r.as_str());
        },
        None => {},
    }
    assert(output@ =~= middle + resolution_suffix(clock.resolution));
    push_str(output, ")");
    push_str(output, palette.reset());
    push_str(output, "\n");
    assert(output@ =~= old(output)@ + clock_note(*clock, palette.enabled));
}

/// Writes the line of a clock.
#[verifier::spinoff_prover]
fn write_clock(output: &mut String, clock: &ClockReading, palette: &Palette)
    ensures
        final(output)@ == old(output)@ + clock_line(*clock, palette.enabled),
{
    write_clock_head(output, clock, palette);
    write_clock_note(output, clock, palette);
    assert(output@ =~= old(output)@ + clock_line(*clock, palette.enabled));
}

#[verifier::spinoff_prover]
fn write_vvar_fields(output: &mut String, dump: &Dump, clocksource: Option<&str>, palette: &Palette)
    requires
        dump.readable_count <= dump.bytes@.len(),
    ensures
        final(output)@ == old(output)@ + vvar_fields(
            dump.bytes@.len(),
            dump.readable_count as nat,
            text_of(clocksource),
            palette.enabled,
        ),
{
    let ghost before = output@;
    write_field(output, "purpose", "kernel timekeeping data consumed by vDSO", palette);
    let summary = readable_summary(dump);
    write_field(output, "readable", summary.as_str(), palette);
    write_field(output, "layout", "kernel-private; use --hex for exact fields", palette);
    write_optional_field(output, "clocksource", clocksource, palette);
    let ghost middle = output@;
    push_str(output, "  ");
    push_str(output, palette.code(Palette::CYAN));
    push_str(output, "clock values");
    push_str(output, palette.reset());
    push_str(output, "\n");
    assert(output@ =~= middle + clock_values_heading(palette.enabled));
    assert(output@ =~= before + vvar_fields(
        dump.bytes@.len(),
        dump.readable_count as nat,
        text_of(clocksource),
        palette.enabled,
    ));
}

/// Writes what is decoded of the vvar mapping, with the current clock
/// source and the clocks as they were read.
#[verifier::spinoff_prover]
pub fn write_decoded_vvar(
    output: &mut String,
    dump: &Dump,
    clocksource: Option<&str>,
    clocks: &Vec<ClockReading>,
    palette: &Palette,
)
    requires
        dump.readable_count <= dump.bytes@.len(),
    ensures
        final(output)@ == old(output)@ + vvar_output(
            dump.bytes@.len(),
            dump.readable_count as nat,
            text_of(clocksource),
            clocks@,
            palette.enabled,
        ),
{
    let ghost before = output@;
    write_vvar_fields(output, dump, clocksource, palette);
    let ghost head = output@;
    let mut i: usize = 0;
    assert(clocks@.take(0) =~= Seq::<ClockReading>::empty());
    while i < clocks.len()
        invariant
            i <= clocks@.len(),
            output@ == head + clock_lines(clocks@.take(i as int), palette.enabled),
        decreases clocks@.len() - i,
    {
        write_clock(output, &clocks[i], palette);
        assert(clocks@.take(i + 1).drop_last() =~= clocks@.take(i as int));
        i = i + 1;
    }
    assert(clocks@.take(clocks@.len() as int) =~= clocks@);
    assert(output@ =~= before + vvar_output(
        dump.bytes@.len(),
        dump.readable_count as nat,
        text_of(clocksource),
        clocks@,
        palette.enabled,
    ));
}

/// Writes what is decoded of the vvar-clock mapping, with the current and
/// available clock sources when they are known.
#[verifier::spinoff_prover]
pub fn write_decoded_vvar_clock(
    output: &mut String,
    dump: &Dump,
    current: Option<&str>,
    available: Option<&str>,
    palette: &Palette,
)
    requires
        dump.readable_count <= dump.bytes@.len(),
    ensures
        final(output)@ == old(output)@ + vvar_clock_output(
            dump.bytes@.len(),
            dump.readable_count as nat,
            text_of(current),
            text_of(available),
            palette.enabled,
        ),
{
    let ghost before = output@;
    write_field(output, "purpose", "architecture or hypervisor clock acceleration", palette);
    let summary = readable_summary(dump);
    write_field(output, "readable", summary.as_str(), palette);
    write_field(output, "layout", "architecture-private; use --hex for exact bytes", palette);
    write_optional_field(output, "current source", current, palette);
    write_optional_field(output, "available", available, palette);
    let ghost middle = output@;
    if dump.unreadable_count() == dump.bytes.len() {
        write_field(output, "status", "mapping present, but no pages are readable here", palette);
    }
    assert(output@ =~= before + vvar_clock_output(
        dump.bytes@.len(),
        dump.readable_count as nat,
        text_of(current),
        text_of(available),
        palette.enabled,
    ));
}

/// Whether `text` is what is decoded of a mapping, by its segment: the
/// vDSO's ELF contents, or the vvar or vvar-clock fields with the clock
/// sources and clocks that were read.
pub open spec fn decoded_output(
    mapping: Mapping,
    dump: Dump,
    clocksource: Option<Seq<char>>,
    available: Option<Seq<char>>,
    clocks: Seq<ClockReading>,
    enabled: bool,
    text: Seq<char>,
) -> bool {
    match mapping.segment {
        Segment::Vdso => vdso_output(
            dump.bytes@,
            mapping.start,
            (mapping.end - mapping.start) as usize,
            enabled,
            text,
        ),
        Segment::Vvar => text == vvar_output(
            dump.bytes@.len(),
            dump.readable_count as nat,
            clocksource,
            clocks,
            enabled,
        ),
        Segment::VvarClock => text == vvar_clock_output(
            dump.bytes@.len(),
            dump.readable_count as nat,
            clocksource,
            available,
            enabled,
        ),
    }
}

/// Writes what is decoded of a mapping, by its segment: the vDSO's ELF
/// contents, or the vvar or vvar-clock fields with the clock sources and
/// clocks that were read.
#[verifier::spinoff_prover]
pub fn write_decoded(
    output: &mut String,
    mapping: &Mapping,
    dump: &Dump,
    clocksource: Option<&str>,
    available: Option<&str>,
    clocks: &Vec<ClockReading>,
    palette: &Palette,
)
    requires
        mapping.segment == Segment::Vdso ==> mapping.start <= mapping.end || !vdso_has_exports(dump.bytes@),
        dump.readable_count <= dump.bytes@.len(),
    ensures
        exists|text: Seq<char>|
            final(output)@ == old(output)@ + text && decoded_output(
                *mapping,
                *dump,
                text_of(clocksource),
                text_of(available),
                clocks@,
                palette.enabled,
                text,
            ),
{
    let ghost before = output@;
    match mapping.segment {
        Segment::Vdso => write_decoded_vdso(output, mapping, dump, palette),
        Segment::Vvar => {
            write_decoded_vvar(output, dump, clocksource, clocks, palette);
            let ghost text = vvar_output(
                dump.bytes@.len(),
                dump.readable_count as nat,
                text_of(clocksource),
                clocks@,
                palette.enabled,
            );
            assert(decoded_output(*mapping, *dump, text_of(clocksource), text_of(available), clocks@, palette.enabled, text));
        },
        Segment::VvarClock => {
            write_decoded_vvar_clock(output, dump, clocksource, available, palette);
            let ghost text = vvar_clock_output(
                dump.bytes@.len(),
                dump.readable_count as nat,
                text_of(clocksource),
                text_of(available),
                palette.enabled,
            );
            assert(decoded_output(*mapping, *dump, text_of(clocksource), text_of(available), clocks@, palette.enabled, text));
        },
    }
}

} // verus!
