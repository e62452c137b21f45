use ghdown::cli::{display_name, latency_label, output_file_name, status_label, trim};
use ghdown::config::ProxyStatus;
use ghdown::download::sha256_checksum;
use ghdown::upgrade::{
    candidate_asset_names, check_upgrade_digest, is_up_to_date, platform_ext, release_api_urls, select_release, version_of_tag,
    PlatformError, ReleaseAsset, ReleaseInfo,
};

fn s(x: &str) -> String {
    x.to_string()
}

fn asset(name: Option<&str>, url: Option<&str>, digest: Option<&str>) -> ReleaseAsset {
    ReleaseAsset { name: name.map(s), browser_download_url: url.map(s), digest: digest.map(s) }
}

#[test]
fn platform_extensions() {
    assert_eq!(platform_ext("windows"), ".exe");
    assert_eq!(platform_ext("linux"), "");
    assert_eq!(platform_ext("macos"), "");
}

#[test]
fn candidate_names() {
    assert_eq!(candidate_asset_names("x86_64", "linux"), Ok(vec![s("ghdown-x64-linux"), s("ghdown")]));
    assert_eq!(candidate_asset_names("aarch64", "macos"), Ok(vec![s("ghdown-aarch64-mac"), s("ghdown")]));
    assert_eq!(candidate_asset_names("arm", "windows"), Ok(vec![s("ghdown-arm-windows.exe"), s("ghdown.exe")]));
    assert_eq!(candidate_asset_names("riscv64", "linux"), Err(PlatformError::UnsupportedArch(s("riscv64"))));
    assert_eq!(candidate_asset_names("riscv64", "freebsd"), Err(PlatformError::UnsupportedArch(s("riscv64"))));
    assert_eq!(candidate_asset_names("x86_64", "freebsd"), Err(PlatformError::UnsupportedOs(s("freebsd"))));
}

#[test]
fn release_selection() {
    let names = vec![s("ghdown-x64-linux"), s("ghdown")];
    let info = ReleaseInfo {
        tag_name: Some(s("v2.0")),
        assets: Some(vec![
            asset(Some("ghdown"), Some("https://dl/plain"), None),
            asset(Some("ghdown-x64-linux"), Some("https://dl/full"), Some("sha256:aa")),
        ]),
    };
    let c = select_release(&info, &names).unwrap();
    assert_eq!(c.tag, "v2.0");
    assert_eq!(c.asset_name, "ghdown-x64-linux");
    assert_eq!(c.asset_url, "https://dl/full");
    assert_eq!(c.digest, Some(s("sha256:aa")));

    // the first asset of a name decides; an empty url skips the candidate
    let info2 = ReleaseInfo {
        tag_name: Some(s("v2.0")),
        assets: Some(vec![
            asset(Some("ghdown-x64-linux"), None, None),
            asset(Some("ghdown-x64-linux"), Some("https://dl/later"), None),
            asset(None, Some("https://dl/anon"), None),
            asset(Some("ghdown"), Some("https://dl/plain"), None),
        ]),
    };
    let c2 = select_release(&info2, &names).unwrap();
    assert_eq!(c2.asset_name, "ghdown");
    assert_eq!(c2.asset_url, "https://dl/plain");
    assert_eq!(c2.digest, None);

    assert!(select_release(&ReleaseInfo { tag_name: None, assets: info.assets.clone() }, &names).is_none());
    assert!(select_release(&ReleaseInfo { tag_name: Some(s("v1")), assets: None }, &names).is_none());
    assert!(select_release(&ReleaseInfo { tag_name: Some(s("v1")), assets: Some(vec![asset(Some("other"), Some("u"), None)]) }, &names).is_none());
}

#[test]
fn release_api_addresses() {
    let api = "https://api.github.com/repos/anomalyco/ghdown/releases/latest";
    assert_eq!(release_api_urls(&vec![]), vec![s(api)]);
    assert_eq!(
        release_api_urls(&vec![s("https://p1/"), s("https://p2/")]),
        vec![format!("https://p1/{api}"), format!("https://p2/{api}"), s(api)]
    );
}

#[test]
fn versions() {
    assert_eq!(version_of_tag("v1.2.3"), "1.2.3");
    assert_eq!(version_of_tag("vv1"), "1");
    assert_eq!(version_of_tag("1.0"), "1.0");
    assert_eq!(version_of_tag("vvv"), "");
    assert!(is_up_to_date("v2026.06.29.0010", "2026.06.29.0010"));
    assert!(is_up_to_date("2026.06.29.0010", "2026.06.29.0010"));
    assert!(!is_up_to_date("v2026.07.01.0001", "2026.06.29.0010"));
    assert!(!is_up_to_date("V1.0", "1.0"));
}

#[test]
fn trimming_urls() {
    for x in ["  https://a/b \n", "\u{3000}x\u{2028}", "", "   ", "a b", "\u{85}y\u{a0}", "\u{200b}z"] {
        assert_eq!(trim(x), x.trim(), "input {x:?}");
    }
}

#[test]
fn file_names() {
    let url = "https://github.com/o/r/releases/download/v1/tool.tar.gz";
    assert_eq!(display_name(url), "tool.tar.gz");
    assert_eq!(output_file_name(url), "tool.tar.gz");
    assert_eq!(display_name("https://x/dir/"), "");
    assert_eq!(output_file_name("https://x/dir/"), "unknown");
    assert_eq!(display_name("plain"), "plain");
    assert_eq!(output_file_name(""), "unknown");
    for u in [url, "a/b/c", "/", "abc", "x//"] {
        assert_eq!(display_name(u), u.rsplit('/').next().unwrap_or("unknown"));
        assert_eq!(output_file_name(u), u.rsplit('/').next().filter(|s| !s.is_empty()).unwrap_or("unknown"));
    }
}

#[test]
fn table_labels() {
    assert_eq!(status_label(ProxyStatus::Healthy, false), "✓");
    assert_eq!(status_label(ProxyStatus::Healthy, true), "✓");
    assert_eq!(status_label(ProxyStatus::Dead, false), "✗");
    assert_eq!(status_label(ProxyStatus::Dead, true), "✗ 冷却");
    assert_eq!(status_label(ProxyStatus::Unknown, true), "○");
    assert_eq!(latency_label(Some(42)), "42ms");
    assert_eq!(latency_label(Some(0)), "0ms");
    assert_eq!(latency_label(None), "-");
}

#[test]
fn upgrade_digest_is_enforced() {
    let data = b"new binary";
    let good = sha256_checksum(data);
    assert_eq!(check_upgrade_digest(data, &good), Ok(()));
    let bad = "sha256:ffff";
    assert_eq!(
        check_upgrade_digest(data, bad),
        Err(format!("checksum 不匹配，已删除损坏文件\n  期望: {bad}\n  实际: {good}"))
    );
}
