use lib::cli::{ColorChoice, Config, OutputMode, Segment};
use lib::clocks::ClockReading;
use lib::error::AppError;
use lib::maps::{parse_maps, Mapping};
use lib::memory::Dump;
use lib::output::Palette;
use lib::session::{
    color_enabled, missing_mapping_error, raw_dump_check, raw_mapping, select_mappings, write_entry, write_listing,
};

fn mappings() -> Vec<Mapping> {
    parse_maps(
        "\
7ffff7fc6000-7ffff7fca000 r--p 00000000 00:00 0 [vvar]
7ffff7fcc000-7ffff7fce000 r-xp 00000000 00:00 0 [vdso]
7ffff7fd0000-7ffff7fd2000 r-xp 00000000 00:00 0 [vdso]
",
    )
    .unwrap()
}

#[test]
fn selects_the_first_mapping_of_each_segment() {
    let mappings = mappings();
    let config = Config::parse(Vec::new()).unwrap();
    let selected = select_mappings(&config, &mappings).unwrap();
    assert_eq!(selected.len(), 3);
    assert_eq!(selected[0].0, Segment::Vdso);
    assert_eq!(selected[0].1.unwrap().start, 0x7fff_f7fc_c000);
    assert_eq!(selected[1].0, Segment::Vvar);
    assert_eq!(selected[1].1.unwrap().start, 0x7fff_f7fc_6000);
    assert_eq!(selected[2].0, Segment::VvarClock);
    assert!(selected[2].1.is_none());
}

#[test]
fn reports_requested_segments_that_are_not_mapped() {
    let mappings = mappings();
    let config = Config::parse(vec!["vdso".into(), "vvar-clock".into()]).unwrap();
    let error = select_mappings(&config, &mappings).unwrap_err();
    assert_eq!(error.message(), "vvar-clock is not present in /proc/self/maps (expected [vvar_vclock])");
    assert_eq!(
        missing_mapping_error(Segment::Vdso).message(),
        "vdso is not present in /proc/self/maps (expected [vdso])"
    );
}

#[test]
fn decides_colors() {
    assert!(color_enabled(ColorChoice::Always, false, true));
    assert!(!color_enabled(ColorChoice::Never, true, false));
    assert!(color_enabled(ColorChoice::Auto, true, false));
    assert!(!color_enabled(ColorChoice::Auto, true, true));
    assert!(!color_enabled(ColorChoice::Auto, false, false));
}

#[test]
fn refuses_or_warns_about_incomplete_raw_dumps() {
    let complete = Dump::complete(vec![1, 2]);
    assert!(matches!(raw_dump_check(Segment::Vdso, &complete, true), Ok(None)));

    let partial = Dump { bytes: vec![0; 8], readable: vec![true, true, true, true, true, false, false, false], readable_count: 5 };
    match raw_dump_check(Segment::Vvar, &partial, true) {
        Err(AppError::Message(message)) => {
            assert_eq!(message, "vvar contains 3 unreadable bytes; refusing an incomplete raw dump")
        }
        other => panic!("unexpected {other:?}"),
    }
    match raw_dump_check(Segment::Vvar, &partial, false) {
        Ok(Some(warning)) => assert_eq!(warning, "vdump: warning: 3 unreadable bytes in vvar replaced with zeroes"),
        other => panic!("unexpected {other:?}"),
    }
}

#[test]
fn finds_the_raw_mapping() {
    let mappings = mappings();
    let config = Config::parse(vec!["--raw".into(), "vvar".into()]).unwrap();
    let selected = select_mappings(&config, &mappings).unwrap();
    assert_eq!(raw_mapping(&selected).unwrap().kernel_name, "[vvar]");

    let absent: Vec<(Segment, Option<&Mapping>)> = vec![(Segment::VvarClock, None)];
    assert_eq!(
        raw_mapping(&absent).unwrap_err().message(),
        "vvar-clock is not present in /proc/self/maps (expected [vvar_vclock])"
    );
}

#[test]
fn lists_selected_segments() {
    let mappings = mappings();
    let config = Config::parse(vec!["--list".into()]).unwrap();
    let selected = select_mappings(&config, &mappings).unwrap();
    let mut output = String::new();
    write_listing(&mut output, &selected, &Palette::new(false));
    assert_eq!(
        output,
        "vdso  [vdso]  0x00007ffff7fcc000-0x00007ffff7fce000  r-xp  8.00 KiB\n\
         vvar  [vvar]  0x00007ffff7fc6000-0x00007ffff7fca000  r--p  16.00 KiB\n\
         vvar-clock  [vvar_vclock]  not present\n"
    );
}

#[test]
fn writes_entries_with_separators() {
    let mappings = mappings();
    let dump = Dump::complete(vec![0x41; 4]);
    let clocks: Vec<ClockReading> = Vec::new();
    let palette = Palette::new(false);
    let mut output = String::new();
    write_entry(&mut output, true, OutputMode::Hex, 16, Segment::Vvar, Some((&mappings[0], &dump)), None, None, &clocks, &palette);
    write_entry(&mut output, false, OutputMode::Hex, 16, Segment::VvarClock, None, None, None, &clocks, &palette);
    let expected = format!(
        "vvar  [vvar]  0x00007ffff7fc6000-0x00007ffff7fca000  r--p  16.00 KiB\n\
         00007ffff7fc6000  41 41 41 41{}|AAAA|\n\
         \n\
         vvar-clock  [vvar_vclock]  not present\n",
        " ".repeat(38)
    );
    assert_eq!(output, expected);
}
