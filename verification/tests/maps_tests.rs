use memsearch::errors::SearchError;
use memsearch::filter::is_region_scannable;
use memsearch::maps::{parse_maps_line, parse_memory_maps, MemoryRegion};

fn bv(s: &str) -> Vec<u8> {
    s.as_bytes().to_vec()
}

#[test]
fn parses_a_full_map_line() {
    let line = bv("400000-401000 r-xp 00000000 00:00 0  /usr/bin/foo");
    let r = parse_maps_line(&line).unwrap();
    assert_eq!(r.start, 0x400000);
    assert_eq!(r.end, 0x401000);
    assert_eq!(r.permissions, bv("r-xp"));
    assert_eq!(r.pathname, Some(bv("/usr/bin/foo")));
}

#[test]
fn parses_a_line_without_pathname() {
    let line = bv("7f0000000000-7f0000021000 rw-p 00000000 00:00 0");
    let r = parse_maps_line(&line).unwrap();
    assert_eq!(r.start, 0x7f0000000000);
    assert_eq!(r.end, 0x7f0000021000);
    assert_eq!(r.permissions, bv("rw-p"));
    assert_eq!(r.pathname, None);
}

#[test]
fn joins_pathname_fields_with_single_spaces() {
    let line = bv("1000-2000 r--p 00000000 08:01 42 /tmp/with space  name");
    let r = parse_maps_line(&line).unwrap();
    assert_eq!(r.pathname, Some(bv("/tmp/with space name")));
}

#[test]
fn parses_bracketed_pseudo_names() {
    let line = bv("ffffffffff600000-ffffffffff601000 r-xp 00000000 00:00 0 [vdso]");
    let r = parse_maps_line(&line).unwrap();
    assert_eq!(r.pathname, Some(bv("[vdso]")));
}

#[test]
fn rejects_malformed_hex_with_the_offending_value() {
    let line = bv("40zz00-401000 r-xp 00000000 00:00 0");
    match parse_maps_line(&line) {
        Err(SearchError::ParseInt { val }) => assert_eq!(val, bv("40zz00")),
        other => panic!("expected ParseInt, got {other:?}"),
    }
    let line2 = bv("400000-40100g r-xp 00000000 00:00 0");
    match parse_maps_line(&line2) {
        Err(SearchError::ParseInt { val }) => assert_eq!(val, bv("40100g")),
        other => panic!("expected ParseInt, got {other:?}"),
    }
}

#[test]
fn rejects_hex_that_overflows_an_address() {
    let line = bv("10000000000000000-10000000000000001 r--p 0 0 0");
    assert!(matches!(
        parse_maps_line(&line),
        Err(SearchError::ParseInt { .. })
    ));
}

#[test]
fn rejects_lines_without_the_expected_shape() {
    assert!(matches!(
        parse_maps_line(&bv("")),
        Err(SearchError::ParseLine)
    ));
    assert!(matches!(
        parse_maps_line(&bv("400000-401000")),
        Err(SearchError::ParseLine)
    ));
    assert!(matches!(
        parse_maps_line(&bv("400000 r-xp 0 0 0")),
        Err(SearchError::ParseLine)
    ));
    // An empty address range breaks the region invariant.
    assert!(matches!(
        parse_maps_line(&bv("401000-400000 r-xp 0 0 0")),
        Err(SearchError::ParseLine)
    ));
}

#[test]
fn parses_whole_map_in_order_and_stops_at_first_error() {
    let lines = vec![
        bv("1000-2000 r--p 0 0 0"),
        bv("3000-4000 rw-p 0 0 0 [heap]"),
    ];
    let regions = parse_memory_maps(&lines).unwrap();
    assert_eq!(regions.len(), 2);
    assert_eq!(regions[0].start, 0x1000);
    assert_eq!(regions[1].pathname, Some(bv("[heap]")));

    let bad = vec![
        bv("1000-2000 r--p 0 0 0"),
        bv("nonsense"),
        bv("3000-4000 rw-p 0 0 0"),
    ];
    assert!(matches!(
        parse_memory_maps(&bad),
        Err(SearchError::ParseLine)
    ));
}

fn region(perms: &str, path: Option<&str>) -> MemoryRegion {
    MemoryRegion {
        start: 0x1000,
        end: 0x2000,
        permissions: bv(perms),
        pathname: path.map(bv),
    }
}

#[test]
fn filter_excludes_unreadable_regions() {
    assert!(!is_region_scannable(&region("---p", None)));
    assert!(!is_region_scannable(&region("-w-p", Some("/usr/lib/x"))));
    assert!(is_region_scannable(&region("r--p", None)));
}

#[test]
fn filter_excludes_vdso_even_though_readable() {
    assert!(!is_region_scannable(&region("r-xp", Some("[vdso]"))));
    assert!(!is_region_scannable(&region("r--p", Some("[vvar]"))));
    assert!(!is_region_scannable(&region("r--p", Some("[vvar_vclock]"))));
    assert!(is_region_scannable(&region("r-xp", Some("[heap]"))));
}

#[test]
fn filter_excludes_shared_dri_device_mappings() {
    assert!(!is_region_scannable(&region("rw-s", Some("/dev/dri/card0"))));
    // Another permission pattern on the same device is kept.
    assert!(is_region_scannable(&region("rw-p", Some("/dev/dri/card0"))));
    // The exact pattern elsewhere is kept.
    assert!(is_region_scannable(&region("rw-s", Some("/dev/shm/x"))));
}
