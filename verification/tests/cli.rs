use lib::cli::{ColorChoice, Config, OutputMode, Segment};

#[test]
fn accepts_clock_aliases_and_deduplicates() {
    let config = Config::parse(vec![
        "vvar-clock".into(),
        "vvar_vclock".into(),
        "[vvar_clock]".into(),
    ])
    .unwrap();

    assert_eq!(config.segments, vec![Segment::VvarClock]);
    assert!(config.explicit_segments);
}

#[test]
fn defaults_to_all_segments() {
    let config = Config::parse(Vec::<String>::new()).unwrap();

    assert_eq!(config.segments, Segment::ALL);
    assert!(!config.explicit_segments);
    assert_eq!(config.width, 16);
}

#[test]
fn validates_raw_options() {
    let error = Config::parse(vec!["--raw".into()]).unwrap_err();
    assert_eq!(error.message(), "--raw requires exactly one segment");

    let error = Config::parse(vec!["--strict".into(), "vdso".into()]).unwrap_err();
    assert_eq!(error.message(), "--strict requires --raw");

    let error = Config::parse(vec!["--hex".into(), "--list".into()]).unwrap_err();
    assert_eq!(error.message(), "--hex, --raw, and --list cannot be combined");

    let config = Config::parse(vec!["--hex".into(), "vdso".into()]).unwrap();
    assert_eq!(config.output, OutputMode::Hex);
}

#[test]
fn segment_names_round_trip() {
    for segment in Segment::ALL {
        assert_eq!(Segment::parse(segment.name()), Some(segment));
        assert_eq!(Segment::from_kernel_name(segment.expected_kernel_name()), Some(segment));
    }
    assert_eq!(Segment::parse("vvar_clock"), Some(Segment::VvarClock));
    assert_eq!(Segment::parse("[vdso]"), Some(Segment::Vdso));
    assert_eq!(Segment::parse("heap"), None);
}

#[test]
fn parses_color_choices() {
    assert_eq!(ColorChoice::parse("auto"), Some(ColorChoice::Auto));
    assert_eq!(ColorChoice::parse("always"), Some(ColorChoice::Always));
    assert_eq!(ColorChoice::parse("never"), Some(ColorChoice::Never));
    assert_eq!(ColorChoice::parse("sometimes"), None);

    let config = Config::parse(vec!["--color=never".into()]).unwrap();
    assert_eq!(config.color, ColorChoice::Never);
    let config = Config::parse(vec!["--color".into(), "always".into()]).unwrap();
    assert_eq!(config.color, ColorChoice::Always);
}

#[test]
fn reads_widths_and_rejects_bad_ones() {
    let config = Config::parse(vec!["--hex".into(), "--width".into(), "8".into()]).unwrap();
    assert_eq!(config.width, 8);
    let config = Config::parse(vec!["--width=32".into()]).unwrap();
    assert_eq!(config.width, 32);
    assert_eq!(
        Config::parse(vec!["--width=0".into()]).unwrap_err().message(),
        "width must be between 1 and 64 bytes"
    );
    assert_eq!(
        Config::parse(vec!["--width=65".into()]).unwrap_err().message(),
        "width must be between 1 and 64 bytes"
    );
    assert_eq!(Config::parse(vec!["-w".into(), "wide".into()]).unwrap_err().message(), "invalid width 'wide'");
    assert_eq!(Config::parse(vec!["--width".into()]).unwrap_err().message(), "--width requires a value");
    assert_eq!(Config::parse(vec!["--color".into()]).unwrap_err().message(), "--color requires a value");
    assert_eq!(
        Config::parse(vec!["--color=pink".into()]).unwrap_err().message(),
        "invalid color mode 'pink'; expected auto, always, or never"
    );
}

#[test]
fn rejects_unknown_segments_and_options() {
    assert_eq!(
        Config::parse(vec!["heap".into()]).unwrap_err().message(),
        "unknown segment 'heap'; expected vdso, vvar, or vvar-clock"
    );
    assert_eq!(
        Config::parse(vec!["--bogus".into()]).unwrap_err().message(),
        "unknown option '--bogus' (try --help)"
    );
}

#[test]
fn selects_raw_and_list_modes() {
    let config = Config::parse(vec!["--raw".into(), "--strict".into(), "vdso".into()]).unwrap();
    assert_eq!(config.output, OutputMode::Raw);
    assert!(config.strict);
    assert_eq!(config.segments, vec![Segment::Vdso]);

    let config = Config::parse(vec!["--list".into()]).unwrap();
    assert_eq!(config.output, OutputMode::List);
}
