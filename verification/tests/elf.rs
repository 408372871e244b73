use lib::cli::Segment;
use lib::maps::Mapping;
use lib::memory::Dump;
use lib::output::{write_decoded_vdso, Palette};
use lib::elf::{
    describe_abi, describe_machine, describe_type, parse, read_string, section_at, sort_by_address, Class, Endian,
    ParseError,
    Reader, Symbol, ELF_MAGIC, PF_X, PT_LOAD, SHT_DYNSYM,
};

fn minimal_elf64_with_load(base: u64, flags: u32) -> Vec<u8> {
    let mut bytes = vec![0; 128];
    let file_size = bytes.len() as u64;
    bytes[..4].copy_from_slice(&ELF_MAGIC);
    bytes[4] = 2;
    bytes[5] = 1;
    bytes[6] = 1;
    bytes[16..18].copy_from_slice(&3_u16.to_le_bytes());
    bytes[18..20].copy_from_slice(&62_u16.to_le_bytes());
    bytes[24..32].copy_from_slice(&(base + 0x20).to_le_bytes());
    bytes[32..40].copy_from_slice(&64_u64.to_le_bytes());
    bytes[52..54].copy_from_slice(&64_u16.to_le_bytes());
    bytes[54..56].copy_from_slice(&56_u16.to_le_bytes());
    bytes[56..58].copy_from_slice(&1_u16.to_le_bytes());
    bytes[58..60].copy_from_slice(&64_u16.to_le_bytes());

    bytes[64..68].copy_from_slice(&PT_LOAD.to_le_bytes());
    bytes[68..72].copy_from_slice(&flags.to_le_bytes());
    bytes[80..88].copy_from_slice(&base.to_le_bytes());
    bytes[96..104].copy_from_slice(&file_size.to_le_bytes());
    bytes[104..112].copy_from_slice(&file_size.to_le_bytes());
    bytes[112..120].copy_from_slice(&0x1000_u64.to_le_bytes());
    bytes
}

/// An executable image at `base` that exports `zeta` (16 bytes at
/// `base + 0x60`) and `alpha` (8 bytes at `base + 0x40`), listed in that
/// order, beside a local symbol and an undefined one.
fn elf64_with_exports(base: u64) -> Vec<u8> {
    let mut bytes = minimal_elf64_with_load(base, PF_X);
    bytes.resize(512, 0);
    let file_size = bytes.len() as u64;
    bytes[96..104].copy_from_slice(&file_size.to_le_bytes());
    bytes[104..112].copy_from_slice(&file_size.to_le_bytes());
    bytes[40..48].copy_from_slice(&320_u64.to_le_bytes());
    bytes[60..62].copy_from_slice(&3_u16.to_le_bytes());

    // Symbols at 128, 24 bytes each: null, zeta, alpha, a local and an undefined one.
    let symbols: [(u32, u8, u16, u64, u64); 4] = [
        (1, 0x12, 1, base + 0x60, 16),
        (6, 0x12, 1, base + 0x40, 8),
        (12, 0x02, 1, base + 0x50, 4),
        (18, 0x12, 0, 0, 0),
    ];
    for (index, (name, info, section, value, size)) in symbols.iter().enumerate() {
        let at = 128 + 24 * (index + 1);
        bytes[at..at + 4].copy_from_slice(&name.to_le_bytes());
        bytes[at + 4] = *info;
        bytes[at + 6..at + 8].copy_from_slice(&section.to_le_bytes());
        bytes[at + 8..at + 16].copy_from_slice(&value.to_le_bytes());
        bytes[at + 16..at + 24].copy_from_slice(&size.to_le_bytes());
    }
    let strings = b"\0zeta\0alpha\0local\0undef\0";
    bytes[128 + 24 * 5..128 + 24 * 5 + strings.len()].copy_from_slice(strings);

    // Section headers at 320: null, the symbols, the strings.
    let dynsym = 320 + 64;
    bytes[dynsym + 4..dynsym + 8].copy_from_slice(&SHT_DYNSYM.to_le_bytes());
    bytes[dynsym + 24..dynsym + 32].copy_from_slice(&128_u64.to_le_bytes());
    bytes[dynsym + 32..dynsym + 40].copy_from_slice(&(24_u64 * 5).to_le_bytes());
    bytes[dynsym + 40..dynsym + 44].copy_from_slice(&2_u32.to_le_bytes());
    bytes[dynsym + 56..dynsym + 64].copy_from_slice(&24_u64.to_le_bytes());
    let dynstr = 320 + 128;
    bytes[dynstr + 4..dynstr + 8].copy_from_slice(&3_u32.to_le_bytes());
    bytes[dynstr + 24..dynstr + 32].copy_from_slice(&((128 + 24 * 5) as u64).to_le_bytes());
    bytes[dynstr + 32..dynstr + 40].copy_from_slice(&(strings.len() as u64).to_le_bytes());
    bytes
}

#[test]
fn rejects_non_elf_data() {
    assert_eq!(parse(b"not ELF").unwrap_err().message(), "missing ELF magic");
}

#[test]
fn reads_strings_safely() {
    assert_eq!(read_string(b"\0hello\0", 1), Some("hello"));
    assert_eq!(read_string(b"unterminated", 0), None);
    assert_eq!(read_string(b"\0", 2), None);
}

#[test]
fn rejects_strings_that_are_not_utf8() {
    assert_eq!(read_string(b"ok\xff\0", 0), None);
    assert_eq!(read_string(b"\xc3\xa9t\xc3\xa9\0", 0), Some("\u{e9}t\u{e9}"));
    assert_eq!(read_string(b"abc\0", 3), Some(""));
}

#[test]
fn resolves_runtime_addresses_from_the_load_image_base() {
    let bytes = minimal_elf64_with_load(0x4000, PF_X);
    let info = parse(&bytes).unwrap();
    let symbol = Symbol { name: "function", value: 0x4020, size: 8 };

    assert_eq!(info.runtime_address(0x7000, 128, &symbol), Some(0x7020));
    assert_eq!(info.runtime_address(0x7000, 0x20, &symbol), None);
}

#[test]
fn rejects_runtime_addresses_outside_executable_load_segments() {
    let bytes = minimal_elf64_with_load(0x4000, 4);
    let info = parse(&bytes).unwrap();
    let symbol = Symbol { name: "data", value: 0x4020, size: 8 };

    assert_eq!(info.runtime_address(0x7000, 128, &symbol), None);
}

#[test]
fn rejects_truncated_program_header_tables() {
    let mut bytes = minimal_elf64_with_load(0x4000, PF_X);
    bytes.truncate(96);

    assert_eq!(parse(&bytes).unwrap_err().message(), "truncated ELF data");
}

#[test]
fn decodes_the_header_fields() {
    let bytes = minimal_elf64_with_load(0x4000, PF_X);
    let info = parse(&bytes).unwrap();
    assert_eq!(info.bits, 64);
    assert_eq!(info.endian, "little-endian");
    assert_eq!(info.abi, "System V");
    assert_eq!(info.object_type, "shared object");
    assert_eq!(info.machine, "x86-64");
    assert_eq!(info.entry, 0x4020);
    assert_eq!(info.program_headers, 1);
    assert_eq!(info.sections, 0);
    assert!(info.exports.is_empty());
    assert_eq!(info.load_image.base, Some(0x4000));
    assert_eq!(info.load_image.segments.len(), 1);
    assert!(info.load_image.segments[0].executable);
}

#[test]
fn lists_exported_functions_by_address() {
    let bytes = elf64_with_exports(0x4000);
    let info = parse(&bytes).unwrap();
    let names: Vec<&str> = info.exports.iter().map(|symbol| symbol.name).collect();
    assert_eq!(names, vec!["alpha", "zeta"]);
    assert_eq!(info.exports[0].value, 0x4040);
    assert_eq!(info.exports[0].size, 8);
    assert_eq!(info.exports[1].value, 0x4060);
    assert_eq!(info.sections, 3);
    assert_eq!(info.runtime_address(0x7000, 512, &info.exports[1]), Some(0x7060));
}

#[test]
fn reports_each_header_error() {
    assert_eq!(parse(b"\x7fELF").unwrap_err(), ParseError::UnsupportedClass);
    assert_eq!(parse(b"\x7fELF\x03").unwrap_err().message(), "unsupported ELF class");
    assert_eq!(parse(b"\x7fELF\x02\x03").unwrap_err().message(), "unsupported ELF byte order");
    assert_eq!(parse(b"\x7fELF\x02\x01\x01").unwrap_err().message(), "truncated ELF identity");

    let mut bytes = minimal_elf64_with_load(0x4000, PF_X);
    bytes[32..40].copy_from_slice(&0_u64.to_le_bytes());
    assert_eq!(parse(&bytes).unwrap_err().message(), "ELF program header table is missing");

    let mut bytes = minimal_elf64_with_load(0x4000, PF_X);
    bytes[54..56].copy_from_slice(&40_u16.to_le_bytes());
    assert_eq!(parse(&bytes).unwrap_err().message(), "invalid ELF program header entry size");

    let mut bytes = minimal_elf64_with_load(0x4000, PF_X);
    bytes[96..104].copy_from_slice(&256_u64.to_le_bytes());
    assert_eq!(parse(&bytes).unwrap_err().message(), "ELF load segment exceeds its memory size");

    let mut bytes = minimal_elf64_with_load(0x4000, PF_X);
    bytes[112..120].copy_from_slice(&0x1001_u64.to_le_bytes());
    assert_eq!(parse(&bytes).unwrap_err().message(), "invalid ELF load segment alignment");

    let mut bytes = elf64_with_exports(0x4000);
    bytes[58..60].copy_from_slice(&32_u16.to_le_bytes());
    assert_eq!(parse(&bytes).unwrap_err().message(), "invalid ELF section entry size");

    let mut bytes = elf64_with_exports(0x4000);
    bytes[384 + 40..384 + 44].copy_from_slice(&7_u32.to_le_bytes());
    assert_eq!(parse(&bytes).unwrap_err().message(), "dynamic symbol string table is missing");

    let mut bytes = elf64_with_exports(0x4000);
    bytes[384 + 56..384 + 64].copy_from_slice(&16_u64.to_le_bytes());
    assert_eq!(parse(&bytes).unwrap_err().message(), "invalid dynamic symbol entry size");
}

#[test]
fn reads_integers_in_either_byte_order() {
    let bytes = [1u8, 2, 3, 4, 5, 6, 7, 8];
    let little = Reader { bytes: &bytes, endian: Endian::Little };
    let big = Reader { bytes: &bytes, endian: Endian::Big };
    assert_eq!(little.u8(1), Ok(2));
    assert_eq!(little.u16(0), Ok(0x0201));
    assert_eq!(big.u16(0), Ok(0x0102));
    assert_eq!(little.u32(4), Ok(0x0807_0605));
    assert_eq!(big.u32(4), Ok(0x0506_0708));
    assert_eq!(little.u64(0), Ok(0x0807_0605_0403_0201));
    assert_eq!(big.u64(0), Ok(0x0102_0304_0506_0708));
    assert_eq!(little.u32(6), Err(ParseError::Truncated));
    assert_eq!(little.range(2, 3), Ok(&bytes[2..5]));
    assert_eq!(little.range(u64::MAX, 2).unwrap_err(), ParseError::RangeOverflow);
}

#[test]
fn describes_identification_values() {
    assert_eq!(describe_abi(3), "Linux");
    assert_eq!(describe_abi(99), "unknown (99)");
    assert_eq!(describe_type(2), "executable");
    assert_eq!(describe_type(0xfe00), "processor/OS-specific (0xfe00)");
    assert_eq!(describe_machine(183), "AArch64");
    assert_eq!(describe_machine(7), "machine 7");
}

#[test]
fn sorts_symbols_by_address_then_name() {
    let symbols = vec![
        Symbol { name: "b", value: 2, size: 0 },
        Symbol { name: "c", value: 1, size: 0 },
        Symbol { name: "a", value: 2, size: 0 },
    ];
    let sorted = sort_by_address(&symbols);
    let order: Vec<(&str, u64)> = sorted.iter().map(|symbol| (symbol.name, symbol.value)).collect();
    assert_eq!(order, vec![("c", 1), ("a", 2), ("b", 2)]);
}

#[test]
fn decodes_a_vdso_image_with_its_exports() {
    let bytes = elf64_with_exports(0x4000);
    let mapping = Mapping {
        segment: Segment::Vdso,
        kernel_name: "[vdso]".into(),
        permissions: "r-xp".into(),
        start: 0x7000,
        end: 0x7050,
    };
    let dump = Dump::complete(bytes);
    let mut output = String::new();
    write_decoded_vdso(&mut output, &mapping, &dump, &Palette::new(false));
    assert_eq!(
        output,
        "  purpose            kernel-provided userspace system calls\n\
         \x20 format             ELF64 little-endian, shared object\n\
         \x20 architecture       x86-64\n\
         \x20 ABI                System V\n\
         \x20 tables             1 program headers, 3 sections\n\
         \x20 entry              0x4020\n\
         \x20 exports           2 functions\n\
         \x20   0x0000000000007040  alpha  (8 B)\n\
         \x20   unresolved          zeta  (ELF value 0x4060, 16 B)\n"
    );
}

#[test]
fn reports_section_headers_past_the_image_as_truncated() {
    let bytes = [0u8; 16];
    let reader = Reader { bytes: &bytes, endian: Endian::Little };
    assert_eq!(section_at(&reader, Class::Elf64, u64::MAX - 30, 64, 0).unwrap_err(), ParseError::Truncated);
    assert_eq!(section_at(&reader, Class::Elf64, u64::MAX - 6, 64, 0).unwrap_err(), ParseError::RangeOverflow);
    assert_eq!(section_at(&reader, Class::Elf32, 0, 16, 0).unwrap_err(), ParseError::InvalidSectionEntrySize);
    assert_eq!(section_at(&reader, Class::Elf64, u64::MAX, 64, 1).unwrap_err(), ParseError::SectionOffsetOverflow);
}
