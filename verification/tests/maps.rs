use lib::cli::Segment;
use lib::maps::parse_maps;

#[test]
fn parses_supported_mappings() {
    let maps = "\
00400000-00401000 r--p 00000000 08:01 1 /usr/bin/vdump
7ffff7fc6000-7ffff7fca000 r--p 00000000 00:00 0 [vvar]
7ffff7fca000-7ffff7fcc000 r--p 00000000 00:00 0 [vvar_vclock]
7ffff7fcc000-7ffff7fce000 r-xp 00000000 00:00 0 [vdso]
";
    let mappings = parse_maps(maps).unwrap();

    assert_eq!(mappings.len(), 3);
    assert_eq!(mappings[0].segment, Segment::Vvar);
    assert_eq!(mappings[0].len(), 0x4000);
    assert_eq!(mappings[1].segment, Segment::VvarClock);
    assert_eq!(mappings[2].segment, Segment::Vdso);
    assert_eq!(mappings[2].permissions, "r-xp");
}

#[test]
fn keeps_addresses_and_kernel_names() {
    let mappings = parse_maps("7ffff7fcc000-7ffff7fce000 r-xp 00000000 00:00 0 [vdso]\r\n").unwrap();
    assert_eq!(mappings.len(), 1);
    assert_eq!(mappings[0].start, 0x7fff_f7fc_c000);
    assert_eq!(mappings[0].end, 0x7fff_f7fc_e000);
    assert_eq!(mappings[0].kernel_name, "[vdso]");
    assert_eq!(mappings[0].len(), 0x2000);
}

#[test]
fn skips_other_and_short_lines() {
    let maps = "\
00400000-00401000 r--p 00000000 08:01 1 /usr/bin/vdump
7ffff7fc6000-7ffff7fca000 r--p
7ffff7ffd000-7ffff7fff000 rw-p 00000000 00:00 0
";
    assert!(parse_maps(maps).unwrap().is_empty());
    assert!(parse_maps("").unwrap().is_empty());
}

#[test]
fn rejects_malformed_mapping_lines() {
    let error = parse_maps("zzzz-1000 r-xp 00000000 00:00 0 [vdso]\n").unwrap_err();
    assert_eq!(error.message(), "malformed address in /proc/self/maps: 'zzzz'");
    let error = parse_maps("1000-xyz r-xp 00000000 00:00 0 [vdso]\n").unwrap_err();
    assert_eq!(error.message(), "malformed address in /proc/self/maps: 'xyz'");
    let error = parse_maps("2000-1000 r-xp 00000000 00:00 0 [vdso]\n").unwrap_err();
    assert_eq!(error.message(), "invalid range in /proc/self/maps: '2000-1000'");
    let error = parse_maps("2000 r-xp 00000000 00:00 0 [vdso]\n").unwrap_err();
    assert_eq!(error.message(), "malformed range in /proc/self/maps: '2000'");
}
