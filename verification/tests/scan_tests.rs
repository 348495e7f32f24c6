use memsearch::dedup::SeenMatches;
use memsearch::entropy::ENTROPY_SCALE;
use memsearch::extract::{extract_runs, is_ascii_printable};
use memsearch::maps::MemoryRegion;
use memsearch::scan::{scan_buffer, scan_snapshot, Match};

fn bv(s: &str) -> Vec<u8> {
    s.as_bytes().to_vec()
}

#[test]
fn printable_ascii_is_the_closed_range_20_to_7e() {
    assert!(!is_ascii_printable(0x1f));
    assert!(is_ascii_printable(0x20));
    assert!(is_ascii_printable(b'A'));
    assert!(is_ascii_printable(0x7e));
    assert!(!is_ascii_printable(0x7f));
    assert!(!is_ascii_printable(0x00));
    assert!(!is_ascii_printable(0xff));
}

#[test]
fn extract_finds_maximal_runs_with_offsets() {
    let mut buf = vec![0u8];
    buf.extend_from_slice(b"abcdefgh");
    buf.push(1);
    buf.extend_from_slice(b"xyz");
    let runs = extract_runs(&buf, 3);
    assert_eq!(runs.len(), 2);
    assert_eq!((runs[0].offset, runs[0].len), (1, 8));
    assert_eq!((runs[1].offset, runs[1].len), (10, 3));
}

#[test]
fn extract_drops_runs_shorter_than_minimum() {
    // A run of 7 printable bytes is never produced with minimum 8.
    let mut buf = bv("short_7");
    assert_eq!(buf.len(), 7);
    buf.push(0);
    buf.extend_from_slice(b"long_enough");
    let runs = extract_runs(&buf, 8);
    assert_eq!(runs.len(), 1);
    assert_eq!((runs[0].offset, runs[0].len), (8, 11));
}

#[test]
fn extract_entire_printable_buffer_is_one_run() {
    let runs = extract_runs(&bv("ABCDEFGH"), 8);
    assert_eq!(runs.len(), 1);
    assert_eq!((runs[0].offset, runs[0].len), (0, 8));
}

#[test]
fn zero_entropy_run_is_rejected_when_threshold_positive() {
    // 16 identical bytes reach the length minimum but score 0.0.
    let buf = bv("AAAAAAAAAAAAAAAA");
    let ms = scan_buffer(&buf, 8, 1, 0, &bv("p"), 0);
    assert_eq!(ms.len(), 0);
}

#[test]
fn zero_entropy_run_is_reported_when_threshold_disabled() {
    let buf = bv("AAAAAAAAAAAAAAAA");
    let ms = scan_buffer(&buf, 8, 0, 7, &bv("proc"), 0x400000);
    assert_eq!(ms.len(), 1);
    assert_eq!(ms[0].val, bv("AAAAAAAAAAAAAAAA"));
    assert_eq!(ms[0].pid, 7);
    assert_eq!(ms[0].pname, bv("proc"));
    assert_eq!(ms[0].addr, 0x400000);
    assert_eq!(ms[0].entropy, 0);
}

#[test]
fn short_runs_never_match_whatever_their_entropy() {
    // 7 high-entropy bytes, minimum length 8: nothing is reported.
    let ms = scan_buffer(&bv("aZ3$kQ9"), 8, 0, 1, &bv("p"), 0);
    assert_eq!(ms.len(), 0);
}

#[test]
fn match_address_is_region_start_plus_offset() {
    let mut buf = vec![0u8; 5];
    buf.extend_from_slice(b"AB AB AB");
    let ms = scan_buffer(&buf, 8, 0, 1, &bv("p"), 0x1000);
    assert_eq!(ms.len(), 1);
    assert_eq!(ms[0].addr, 0x1000 + 5);
    assert_eq!(ms[0].entropy, calc_expected_ab_space_entropy());
}

fn calc_expected_ab_space_entropy() -> u64 {
    // "AB AB AB": A three times, B three times, space twice, length 8.
    let p3 = 3.0f64 / 8.0;
    let p2 = 2.0f64 / 8.0;
    let h = -(2.0 * p3 * p3.log2() + p2 * p2.log2());
    let got = memsearch::entropy::calculate_entropy(&b"AB AB AB".to_vec());
    assert!((got as f64 / ENTROPY_SCALE as f64 - h).abs() < 1e-5);
    got
}

#[test]
fn scanning_the_same_snapshot_twice_gives_identical_matches() {
    let buf = bv("x\x01secret_tok3n!\x02noise\x03AB AB ABAB");
    let first = scan_buffer(&buf, 8, 0, 1, &bv("p"), 64);
    let second = scan_buffer(&buf, 8, 0, 1, &bv("p"), 64);
    assert_eq!(first.len(), second.len());
    for (a, b) in first.iter().zip(second.iter()) {
        assert_eq!(a.val, b.val);
        assert_eq!(a.pid, b.pid);
        assert_eq!(a.pname, b.pname);
        assert_eq!(a.addr, b.addr);
        assert_eq!(a.entropy, b.entropy);
    }
    assert!(!first.is_empty());
}

fn region(start: u64, end: u64, perms: &str, path: Option<&str>) -> MemoryRegion {
    MemoryRegion {
        start,
        end,
        permissions: bv(perms),
        pathname: path.map(bv),
    }
}

#[test]
fn snapshot_scan_skips_excluded_regions() {
    // Same bytes behind a readable anonymous region and a vdso region:
    // only the first is scanned.
    let payload = bv("AAAABBBBCCCCDDDD");
    let regions = vec![
        region(0x1000, 0x1010, "r-xp", None),
        region(0x2000, 0x2010, "r-xp", Some("[vdso]")),
        region(0x3000, 0x3010, "---p", None),
    ];
    let bufs = vec![Some(payload.clone()), Some(payload.clone()), Some(payload.clone())];
    let ms = scan_snapshot(&regions, &bufs, 8, 0, 1, &bv("p"));
    assert_eq!(ms.len(), 1);
    assert_eq!(ms[0].addr, 0x1000);
}

#[test]
fn snapshot_scan_tolerates_failed_reads() {
    let regions = vec![
        region(0x1000, 0x1010, "r--p", None),
        region(0x2000, 0x2010, "r--p", None),
    ];
    let bufs = vec![None, Some(bv("ABCDABCDABCDABCD"))];
    let ms = scan_snapshot(&regions, &bufs, 8, 0, 1, &bv("p"));
    assert_eq!(ms.len(), 1);
    assert_eq!(ms[0].addr, 0x2000);
}

fn sample_matches() -> Vec<Match> {
    scan_buffer(&bv("ABCDEFGH\x00HGFEDCBA"), 8, 0, 1, &bv("p"), 0)
}

#[test]
fn continuous_mode_suppresses_repeats_across_iterations() {
    let mut seen = SeenMatches::new();
    let first = sample_matches();
    let flags1 = seen.process_matches(&first, true);
    assert_eq!(flags1, vec![true, true]);
    // An unchanged snapshot: the second iteration emits nothing.
    let second = sample_matches();
    let flags2 = seen.process_matches(&second, true);
    assert_eq!(flags2, vec![false, false]);
}

#[test]
fn one_shot_mode_never_deduplicates() {
    let mut seen = SeenMatches::new();
    let first = sample_matches();
    assert_eq!(seen.process_matches(&first, false), vec![true, true]);
    let second = sample_matches();
    assert_eq!(seen.process_matches(&second, false), vec![true, true]);
}

#[test]
fn continuous_mode_reports_changed_findings() {
    let mut seen = SeenMatches::new();
    let first = sample_matches();
    seen.process_matches(&first, true);
    // A new finding at another address is not suppressed.
    let moved = scan_buffer(&bv("ABCDEFGH"), 8, 0, 1, &bv("p"), 0x9000);
    assert_eq!(seen.process_matches(&moved, true), vec![true]);
}
