use ghdown::download::{
    bytes_str, checksum_matches, content_range_total, plan_download, proxied_url, range_between,
    range_from, reported_total, restart_needed, download_ok, resume_range, segment_ranges, sha256_checksum, checksum_warning, DownloadPlan,
};
use ghdown::text::{parse_u64, u64_to_decimal};

fn float_bytes(b: u64) -> String {
    if b < 1024 {
        format!("{b} B")
    } else if b < 1024 * 1024 {
        format!("{:.1} KB", b as f64 / 1024.0)
    } else if b < 1024 * 1024 * 1024 {
        format!("{:.1} MB", b as f64 / (1024.0 * 1024.0))
    } else {
        format!("{:.2} GB", b as f64 / (1024.0 * 1024.0 * 1024.0))
    }
}

#[test]
fn bytes_str_examples() {
    assert_eq!(bytes_str(0), "0 B");
    assert_eq!(bytes_str(1023), "1023 B");
    assert_eq!(bytes_str(1024), "1.0 KB");
    assert_eq!(bytes_str(1536), "1.5 KB");
    assert_eq!(bytes_str(1024 * 1024), "1.0 MB");
    assert_eq!(bytes_str(5 * 1024 * 1024 + 512 * 1024), "5.5 MB");
    assert_eq!(bytes_str(1024 * 1024 * 1024), "1.00 GB");
    assert_eq!(bytes_str(1024 * 1024 * 1024 + 256 * 1024 * 1024), "1.25 GB");
}

#[test]
fn bytes_str_ties_round_to_even() {
    // 1.25 KB lies exactly between 1.2 and 1.3
    assert_eq!(bytes_str(1280), float_bytes(1280));
    assert_eq!(bytes_str(1280), "1.2 KB");
    assert_eq!(bytes_str(1792), float_bytes(1792));
}

#[test]
fn bytes_str_agrees_with_float_formatting() {
    let mut b: u64 = 0;
    while b < 3 * 1024 * 1024 {
        assert_eq!(bytes_str(b), float_bytes(b), "b = {b}");
        b += 37;
    }
    for b in 1020u64..1030 {
        assert_eq!(bytes_str(b), float_bytes(b));
    }
    let mut x: u64 = 1;
    for _ in 0..2000 {
        x = x.wrapping_mul(6364136223846793005).wrapping_add(1442695040888963407);
        for shift in [0u32, 8, 16, 24, 30, 34, 40, 50, 53, 54, 60] {
            let b = x >> shift;
            assert_eq!(bytes_str(b), float_bytes(b), "b = {b}");
        }
    }
    for b in [u64::MAX, u64::MAX - 1, 1u64 << 53, (1u64 << 53) + 1, (1u64 << 54) + 3, 9_007_199_254_740_993] {
        assert_eq!(bytes_str(b), float_bytes(b), "b = {b}");
    }
}

#[test]
fn decimal_text_and_parsing() {
    assert_eq!(u64_to_decimal(0), "0");
    assert_eq!(u64_to_decimal(1234567890), "1234567890");
    assert_eq!(u64_to_decimal(u64::MAX), u64::MAX.to_string());
    for s in ["0", "42", "+7", "-7", "", "+", "007", "18446744073709551615", "18446744073709551616", "12a", " 1", "٣"] {
        assert_eq!(parse_u64(s), s.parse::<u64>().ok(), "input {s:?}");
    }
}

#[test]
fn decimal_roundtrip() {
    for n in [0u64, 9, 10, 99, 100, 65535, u64::MAX] {
        assert_eq!(parse_u64(&u64_to_decimal(n)), Some(n));
    }
}

#[test]
fn range_header_values() {
    assert_eq!(range_from(0), "bytes=0-");
    assert_eq!(range_from(12345), "bytes=12345-");
    assert_eq!(range_between(0, 99), "bytes=0-99");
    assert_eq!(range_between(100, 199), "bytes=100-199");
}

#[test]
fn content_range_totals() {
    assert_eq!(content_range_total("bytes 0-99/1234"), Some(1234));
    assert_eq!(content_range_total("bytes 100-199/200"), Some(200));
    assert_eq!(content_range_total("bytes */*"), None);
    assert_eq!(content_range_total("bytes 0-99"), None);
    assert_eq!(content_range_total("a/12/c"), Some(12));
    assert_eq!(content_range_total("a/"), None);
    for s in ["bytes 0-99/1234", "x/+5", "x/5/6", "/", "//", "x/18446744073709551616"] {
        let expected = s.split('/').nth(1).and_then(|p| p.parse::<u64>().ok());
        assert_eq!(content_range_total(s), expected, "input {s:?}");
    }
}

#[test]
fn reported_totals() {
    assert_eq!(reported_total(true, Some("bytes 10-19/20"), Some(10)), 20);
    assert_eq!(reported_total(true, None, Some(10)), 0);
    assert_eq!(reported_total(true, Some("garbage"), Some(10)), 0);
    assert_eq!(reported_total(false, Some("bytes 10-19/20"), Some(10)), 10);
    assert_eq!(reported_total(false, None, None), 0);
}

#[test]
fn resumed_download_restarts_on_a_full_reply() {
    // a partial reply continues the bytes on disk
    assert!(!restart_needed(500, true));
    // the whole file came back: the bytes on disk are dropped
    assert!(restart_needed(500, false));
    // nothing was on disk
    assert!(!restart_needed(0, false));
    assert!(!restart_needed(0, true));
}

#[test]
fn checksum_mismatch_only_warns() {
    let data = b"abc";
    let good = sha256_checksum(data);
    assert_eq!(checksum_warning(data, &good), None);
    let bad = "sha256:0000";
    assert_eq!(
        checksum_warning(data, bad),
        Some(format!("  ⚠ checksum 不匹配，文件可能已损坏\n    期望: {bad}\n    实际: {good}"))
    );
}

#[test]
fn segments_partition_the_file() {
    assert_eq!(segment_ranges(100, 3), vec![(0, 32), (33, 65), (66, 99)]);
    assert_eq!(segment_ranges(10, 1), vec![(0, 9)]);
    assert_eq!(segment_ranges(4, 4), vec![(0, 0), (1, 1), (2, 2), (3, 3)]);
    let total = 52_428_801u64;
    let r = segment_ranges(total, 7);
    assert_eq!(r.len(), 7);
    assert_eq!(r[0].0, 0);
    assert_eq!(r[6].1, total - 1);
    let covered: u64 = r.iter().map(|(s, e)| e - s + 1).sum();
    assert_eq!(covered, total);
    for w in r.windows(2) {
        assert_eq!(w[1].0, w[0].1 + 1);
    }
}

#[test]
fn download_plans() {
    let mib = 1024 * 1024;
    assert_eq!(plan_download(1, Some((100 * mib, true))), DownloadPlan::Sequential { range_unsupported: false });
    assert_eq!(plan_download(4, Some((100 * mib, true))), DownloadPlan::Concurrent { jobs: 4, total_size: 100 * mib });
    assert_eq!(plan_download(16, Some((12 * mib, true))), DownloadPlan::Concurrent { jobs: 2, total_size: 12 * mib });
    assert_eq!(plan_download(4, Some((9 * mib, true))), DownloadPlan::Sequential { range_unsupported: false });
    assert_eq!(plan_download(4, Some((100 * mib, false))), DownloadPlan::Sequential { range_unsupported: true });
    assert_eq!(plan_download(4, Some((1, false))), DownloadPlan::Sequential { range_unsupported: true });
    assert_eq!(plan_download(4, None), DownloadPlan::Sequential { range_unsupported: false });
    assert_eq!(plan_download(2, Some((10 * mib, true))), DownloadPlan::Concurrent { jobs: 2, total_size: 10 * mib });
}

#[test]
fn checksums() {
    let abc = sha256_checksum(b"abc");
    assert_eq!(abc, "sha256:ba7816bf8f01cfea414140de5dae2223b00361a396177a9cb410ff61f20015ad");
    let empty = sha256_checksum(b"");
    assert_eq!(empty, "sha256:e3b0c44298fc1c149afbf4c8996fb92427ae41e4649b934ca495991b7852b855");
    assert!(checksum_matches(b"abc", &abc));
    assert!(!checksum_matches(b"abd", &abc));
    assert!(!checksum_matches(b"abc", "sha256:BA7816BF8F01CFEA414140DE5DAE2223B00361A396177A9CB410FF61F20015AD"));
}

#[test]
fn proxied_urls() {
    assert_eq!(
        proxied_url("https://ghfast.top/", "https://github.com/a/b/releases/download/v1/x.zip"),
        "https://ghfast.top/https://github.com/a/b/releases/download/v1/x.zip"
    );
    assert_eq!(proxied_url("", "u"), "u");
}

#[test]
fn content_range_reads_back_written_numbers() {
    for (a, b, n) in [(0u64, 99u64, 1234u64), (5, 5, 6), (1 << 40, (1 << 41) - 1, u64::MAX)] {
        let header = format!("bytes {}-{}/{}", u64_to_decimal(a), u64_to_decimal(b), u64_to_decimal(n));
        assert_eq!(content_range_total(&header), Some(n));
    }
}

#[test]
fn checksum_shape() {
    for data in [&b""[..], b"x", b"hello world"] {
        let c = sha256_checksum(data);
        assert_eq!(c.len(), 71);
        assert!(c.starts_with("sha256:"));
        assert!(c[7..].chars().all(|ch| ch.is_ascii_digit() || ('a'..='f').contains(&ch)));
    }
}

#[test]
fn download_statuses() {
    assert!(download_ok(200));
    assert!(download_ok(206));
    assert!(download_ok(299));
    assert!(!download_ok(302));
    assert!(!download_ok(416));
}

#[test]
fn resume_ranges() {
    assert_eq!(resume_range(0), None);
    assert_eq!(resume_range(500), Some("bytes=500-".to_string()));
}
