use lib::cli::Segment;
use lib::clocks::ClockReading;
use lib::maps::Mapping;
use lib::memory::Dump;
use lib::output::{
    human_size, push_hex_byte, readable_summary, reset_line_color, set_line_color, write_decoded,
    write_decoded_vdso, write_decoded_vvar, write_decoded_vvar_clock, write_field, write_hexdump,
    write_mapping_header, write_missing, Palette,
};

fn mapping(segment: Segment, kernel_name: &str, start: usize, end: usize) -> Mapping {
    Mapping { segment, kernel_name: kernel_name.into(), permissions: "r--p".into(), start, end }
}

#[test]
fn renders_unreadable_bytes() {
    let mapping = Mapping {
        segment: Segment::Vvar,
        kernel_name: "[vvar]".into(),
        permissions: "r--p".into(),
        start: 0x1000,
        end: 0x1002,
    };
    let dump = Dump { bytes: vec![b'A', 0], readable: vec![true, false], readable_count: 1 };
    let mut output = String::new();

    write_hexdump(&mut output, &mapping, &dump, 2, &Palette::new(false));

    assert!(output.contains("41 ??  |A?|"));
}

#[test]
fn collapses_repeated_rows() {
    let mapping = Mapping {
        segment: Segment::VvarClock,
        kernel_name: "[vvar_vclock]".into(),
        permissions: "r--p".into(),
        start: 0x1000,
        end: 0x100c,
    };
    let dump = Dump { bytes: vec![0; 12], readable: vec![false; 12], readable_count: 0 };
    let mut output = String::new();

    write_hexdump(&mut output, &mapping, &dump, 4, &Palette::new(false));

    assert_eq!(output.lines().count(), 2);
    assert!(output.ends_with("*\n"));
}

#[test]
fn reports_human_sizes_without_floating_point() {
    assert_eq!(human_size(0), "0 B");
    assert_eq!(human_size(1024), "1.00 KiB");
    assert_eq!(human_size(1536), "1.50 KiB");
    assert_eq!(human_size(2047), "2.00 KiB");
}

#[test]
fn rounds_sizes_to_the_nearest_hundredth() {
    assert_eq!(human_size(1023), "1023 B");
    assert_eq!(human_size(1029), "1.00 KiB");
    assert_eq!(human_size(1030), "1.01 KiB");
    assert_eq!(human_size(16384), "16.00 KiB");
}

#[test]
fn writes_full_hexdump_lines() {
    let mapping = mapping(Segment::Vvar, "[vvar]", 0x1000, 0x1003);
    let dump = Dump::complete(vec![b'A', 0, 0xff]);
    let mut output = String::new();
    write_hexdump(&mut output, &mapping, &dump, 4, &Palette::new(false));
    assert_eq!(output, "0000000000001000  41 00 ff     |A..|\n");
}

#[test]
fn elides_only_runs_of_repeated_rows() {
    let mapping = mapping(Segment::Vvar, "[vvar]", 0, 10);
    let dump = Dump::complete(vec![1, 1, 1, 1, 1, 1, 2, 2, 1, 1]);
    let mut output = String::new();
    write_hexdump(&mut output, &mapping, &dump, 2, &Palette::new(false));
    assert_eq!(
        output,
        "0000000000000000  01 01  |..|\n*\n0000000000000006  02 02  |..|\n0000000000000008  01 01  |..|\n"
    );
}

#[test]
fn colors_cells_when_enabled() {
    let mapping = mapping(Segment::Vvar, "[vvar]", 0, 2);
    let dump = Dump { bytes: vec![b'A', 0], readable: vec![true, false], readable_count: 1 };
    let mut output = String::new();
    write_hexdump(&mut output, &mapping, &dump, 2, &Palette::new(true));
    assert_eq!(
        output,
        "\x1b[36m0000000000000000\x1b[0m  \x1b[32m41 \x1b[0m\x1b[31m?? \x1b[0m |\x1b[32mA\x1b[0m\x1b[31m?\x1b[0m|\n"
    );
}

#[test]
fn writes_mapping_headers() {
    let mapping = mapping(Segment::Vvar, "[vvar]", 0x1000, 0x5000);
    let mut output = String::new();
    write_mapping_header(&mut output, &mapping, None, &Palette::new(false));
    assert_eq!(output, "vvar  [vvar]  0x0000000000001000-0x0000000000005000  r--p  16.00 KiB\n");

    let dump = Dump { bytes: vec![0; 0x4000], readable: vec![false; 0x4000], readable_count: 0x3000 };
    let mut output = String::new();
    write_mapping_header(&mut output, &mapping, Some(&dump), &Palette::new(false));
    assert_eq!(
        output,
        "vvar  [vvar]  0x0000000000001000-0x0000000000005000  r--p  16.00 KiB  (4.00 KiB unreadable)\n"
    );
}

#[test]
fn writes_missing_segments() {
    let mut output = String::new();
    write_missing(&mut output, Segment::VvarClock, &Palette::new(false));
    assert_eq!(output, "vvar-clock  [vvar_vclock]  not present\n");
    let mut output = String::new();
    write_missing(&mut output, Segment::Vdso, &Palette::new(true));
    assert_eq!(output, "\x1b[1;36mvdso\x1b[0m  [vdso]  \x1b[2mnot present\x1b[0m\n");
}

#[test]
fn writes_fields_and_summaries() {
    let mut output = String::new();
    write_field(&mut output, "layout", "kernel-private", &Palette::new(false));
    assert_eq!(output, "  layout             kernel-private\n");
    assert_eq!(readable_summary(&Dump::complete(vec![0; 2048])), "all 2.00 KiB");
    let partial = Dump { bytes: vec![0; 2048], readable: vec![false; 2048], readable_count: 1024 };
    assert_eq!(readable_summary(&partial), "1.00 KiB of 2.00 KiB (1.00 KiB unavailable)");
}

#[test]
fn switches_line_colors_only_on_change() {
    let palette = Palette::new(true);
    let mut output = String::new();
    let mut active: &'static str = "";
    set_line_color(&mut output, &mut active, Palette::GREEN, &palette);
    set_line_color(&mut output, &mut active, Palette::GREEN, &palette);
    set_line_color(&mut output, &mut active, Palette::RED, &palette);
    reset_line_color(&mut output, &mut active, &palette);
    reset_line_color(&mut output, &mut active, &palette);
    assert_eq!(output, "\x1b[32m\x1b[0m\x1b[31m\x1b[0m");
    assert_eq!(Palette::new(false).code(Palette::GREEN), "");
    assert_eq!(palette.reset(), "\x1b[0m");
    let mut bytes = String::new();
    push_hex_byte(&mut bytes, 0xa5);
    push_hex_byte(&mut bytes, 0x07);
    assert_eq!(bytes, "a507");
}

#[test]
fn decodes_vvar_fields_and_clocks() {
    let dump = Dump::complete(vec![0; 4096]);
    let clocks = vec![
        ClockReading {
            name: "realtime",
            value: "1970-01-01T00:00:00.000000000Z".into(),
            resolution: Some("1 ns".into()),
            note: "wall clock (UTC)",
        },
        ClockReading { name: "tai", value: "unavailable (x)".into(), resolution: None, note: "International Atomic Time" },
    ];
    let mut output = String::new();
    write_decoded_vvar(&mut output, &dump, Some("tsc"), &clocks, &Palette::new(false));
    assert_eq!(
        output,
        "  purpose            kernel timekeeping data consumed by vDSO\n\
         \x20 readable           all 4.00 KiB\n\
         \x20 layout             kernel-private; use --hex for exact fields\n\
         \x20 clocksource        tsc\n\
         \x20 clock values\n\
         \x20   realtime           1970-01-01T00:00:00.000000000Z  (wall clock (UTC), resolution 1 ns)\n\
         \x20   tai                unavailable (x)  (International Atomic Time)\n"
    );
}

#[test]
fn decodes_vvar_clock_fields() {
    let dump = Dump { bytes: vec![0; 4096], readable: vec![false; 4096], readable_count: 0 };
    let mut output = String::new();
    write_decoded_vvar_clock(&mut output, &dump, Some("kvm-clock"), None, &Palette::new(false));
    assert_eq!(
        output,
        "  purpose            architecture or hypervisor clock acceleration\n\
         \x20 readable           0 B of 4.00 KiB (4.00 KiB unavailable)\n\
         \x20 layout             architecture-private; use --hex for exact bytes\n\
         \x20 current source     kvm-clock\n\
         \x20 status             mapping present, but no pages are readable here\n"
    );
}

#[test]
fn explains_undecodable_vdso_images() {
    let mapping = mapping(Segment::Vdso, "[vdso]", 0x7000, 0x7004);
    let dump = Dump::complete(b"junk".to_vec());
    let mut output = String::new();
    write_decoded_vdso(&mut output, &mapping, &dump, &Palette::new(false));
    assert_eq!(
        output,
        "  purpose            kernel-provided userspace system calls\n\
         \x20 ELF                cannot decode: missing ELF magic\n"
    );
}

#[test]
fn dispatches_decoding_by_segment() {
    let dump = Dump::complete(vec![0; 16]);
    let mut output = String::new();
    write_decoded(
        &mut output,
        &mapping(Segment::VvarClock, "[vvar_vclock]", 0, 16),
        &dump,
        None,
        Some("tsc hpet"),
        &Vec::new(),
        &Palette::new(false),
    );
    assert!(output.starts_with("  purpose            architecture or hypervisor clock acceleration\n"));
    assert!(output.ends_with("  available          tsc hpet\n"));
}

#[test]
fn explains_undecodable_images_of_any_range() {
    let mapping = mapping(Segment::Vdso, "[vdso]", 0x8000, 0x7000);
    let dump = Dump::complete(b"junk".to_vec());
    let mut output = String::new();
    write_decoded_vdso(&mut output, &mapping, &dump, &Palette::new(false));
    assert!(output.ends_with("  ELF                cannot decode: missing ELF magic\n"));
}
