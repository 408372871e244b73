use lib::clocks::{
    civil_from_days, format_elapsed, format_resolution, format_time, format_wall_time, read_all, trimmed,
    ClockSample, DisplayKind, Timespec, CLOCK_COUNT,
};

#[test]
fn formats_epoch_as_utc() {
    assert_eq!(format_wall_time(0, 123, "Z"), "1970-01-01T00:00:00.000000123Z");
    assert_eq!(format_wall_time(946_684_800, 0, "Z"), "2000-01-01T00:00:00.000000000Z");
}

#[test]
fn formats_elapsed_time_and_resolution() {
    assert_eq!(format_elapsed(90_061, 42), "1d 01:01:01.000000042");
    assert_eq!(format_resolution(Timespec { seconds: 0, nanoseconds: 4_000_000 }), "4 ms");
}

#[test]
fn converts_days_to_civil_dates() {
    assert_eq!(civil_from_days(0), (1970, 1, 1));
    assert_eq!(civil_from_days(-1), (1969, 12, 31));
    assert_eq!(civil_from_days(10_957), (2000, 1, 1));
    assert_eq!(civil_from_days(11_016), (2000, 2, 29));
    assert_eq!(civil_from_days(19_782), (2024, 2, 29));
}

#[test]
fn formats_times_before_the_epoch() {
    assert_eq!(format_wall_time(-1, 0, "Z"), "1969-12-31T23:59:59.000000000Z");
    assert_eq!(format_elapsed(59, 5), "00:00:59.000000005");
    assert_eq!(format_elapsed(-3_661, 0), "-01:01:01.000000000");
}

#[test]
fn formats_resolutions_by_unit() {
    assert_eq!(format_resolution(Timespec { seconds: 0, nanoseconds: 1 }), "1 ns");
    assert_eq!(format_resolution(Timespec { seconds: 0, nanoseconds: 1_000 }), "1 µs");
    assert_eq!(format_resolution(Timespec { seconds: 2, nanoseconds: 0 }), "2.000000000 s");
    assert_eq!(format_resolution(Timespec { seconds: 0, nanoseconds: 1_500 }), "1500 ns");
}

#[test]
fn formats_by_display_kind() {
    let time = Timespec { seconds: 0, nanoseconds: 0 };
    assert_eq!(format_time(time, DisplayKind::Utc), "1970-01-01T00:00:00.000000000Z");
    assert_eq!(format_time(time, DisplayKind::Elapsed), "00:00:00.000000000");
    assert_eq!(format_time(time, DisplayKind::Tai), "1970-01-01T00:00:00.000000000 TAI");
}

#[test]
fn reads_every_clock_in_order() {
    let mut samples = Vec::new();
    for index in 0..CLOCK_COUNT {
        if index == 1 {
            samples.push(ClockSample { time: Err("Invalid argument (os error 22)".to_string()), resolution: None });
        } else {
            samples.push(ClockSample {
                time: Ok(Timespec { seconds: 0, nanoseconds: 0 }),
                resolution: Some(Timespec { seconds: 0, nanoseconds: 1 }),
            });
        }
    }
    let readings = read_all(&samples);
    assert_eq!(readings.len(), CLOCK_COUNT);
    assert_eq!(readings[0].name, "realtime");
    assert_eq!(readings[0].value, "1970-01-01T00:00:00.000000000Z");
    assert_eq!(readings[0].resolution.as_deref(), Some("1 ns"));
    assert_eq!(readings[0].note, "wall clock (UTC)");
    assert_eq!(readings[1].name, "monotonic");
    assert_eq!(readings[1].value, "unavailable (Invalid argument (os error 22))");
    assert_eq!(readings[1].resolution, None);
    assert_eq!(readings[6].name, "tai");
}

#[test]
fn trims_system_file_contents() {
    assert_eq!(trimmed("tsc\n").as_deref(), Some("tsc"));
    assert_eq!(trimmed("  kvm-clock tsc hpet acpi_pm \n").as_deref(), Some("kvm-clock tsc hpet acpi_pm"));
    assert_eq!(trimmed(" \n\t"), None);
    assert_eq!(trimmed(""), None);
}
