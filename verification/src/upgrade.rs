//! Self-upgrade decisions: which release asset fits this platform, which
//! release answer to use, whether the running version is the latest.

use vstd::prelude::*;
use crate::text::{chars_of, concat, string_from_chars};
use crate::download::{checksum_text, sha256_checksum};
use vstd::string::StringExecFns;

verus! {

/// The file extension of executables on `os` (`std::env::consts::OS`).
pub open spec fn platform_ext_spec(os: Seq<char>) -> Seq<char> {
    if os == seq!['w', 'i', 'n', 'd', 'o', 'w', 's'] {
        seq!['.', 'e', 'x', 'e']
    } else {
        Seq::empty()
    }
}

/// The file extension of executables on `os`: `.exe` on Windows, none
/// elsewhere.
pub fn platform_ext(os: &str) -> (r: String)
    ensures
        r@ == platform_ext_spec(os@),
{
    let w = String::from_str("windows");
    proof {
        reveal_strlit("windows");
        assert("windows"@ =~= seq!['w', 'i', 'n', 'd', 'o', 'w', 's']);
    }
    if String::from_str(os) == w {
        let r = String::from_str(".exe");
        proof {
            reveal_strlit(".exe");
            assert(".exe"@ =~= seq!['.', 'e', 'x', 'e']);
        }
        r
    } else {
        String::new()
    }
}

/// A platform that has no release build.
#[derive(Debug, Clone, PartialEq, Eq)]
pub enum PlatformError {
    /// The processor architecture (`std::env::consts::ARCH`) is not served.
    UnsupportedArch(String),
    /// The operating system (`std::env::consts::OS`) is not served.
    UnsupportedOs(String),
}

/// The architecture part of asset names for `arch`, if it is served.
pub open spec fn arch_label(arch: Seq<char>) -> Option<Seq<char>> {
    if arch == seq!['x', '8', '6', '_', '6', '4'] {
        Some(seq!['x', '6', '4'])
    } else if arch == seq!['a', 'a', 'r', 'c', 'h', '6', '4'] {
        Some(seq!['a', 'a', 'r', 'c', 'h', '6', '4'])
    } else if arch == seq!['a', 'r', 'm'] {
        Some(seq!['a', 'r', 'm'])
    } else {
        None
    }
}

/// The system part of asset names for `os`, if it is served.
pub open spec fn os_label(os: Seq<char>) -> Option<Seq<char>> {
    if os == seq!['w', 'i', 'n', 'd', 'o', 'w', 's'] {
        Some(seq!['w', 'i', 'n', 'd', 'o', 'w', 's'])
    } else if os == seq!['l', 'i', 'n', 'u', 'x'] {
        Some(seq!['l', 'i', 'n', 'u', 'x'])
    } else if os == seq!['m', 'a', 'c', 'o', 's'] {
        Some(seq!['m', 'a', 'c'])
    } else {
        None
    }
}

/// The asset names to look for, best first: `ghdown-<arch>-<os><ext>`, then
/// `ghdown<ext>`.
pub open spec fn candidate_names_spec(arch: Seq<char>, os: Seq<char>) -> Seq<Seq<char>> {
    let base = seq!['g', 'h', 'd', 'o', 'w', 'n'];
    let ext = platform_ext_spec(os);
    seq![
        base + seq!['-'] + arch_label(arch).unwrap() + seq!['-'] + os_label(os).unwrap() + ext,
        base + ext,
    ]
}

/// The asset names of this platform's build (see `candidate_names_spec`);
/// the architecture is checked first.
pub fn candidate_asset_names(arch: &str, os: &str) -> (r: Result<Vec<String>, PlatformError>)
    ensures
        match r {
            Ok(v) => arch_label(arch@).is_some() && os_label(os@).is_some() && v.deep_view()
                == candidate_names_spec(arch@, os@),
            Err(PlatformError::UnsupportedArch(a)) => arch_label(arch@).is_none() && a@ == arch@,
            Err(PlatformError::UnsupportedOs(o)) => arch_label(arch@).is_some() && os_label(
                os@,
            ).is_none() && o@ == os@,
        },
{
    proof {
        reveal_strlit("x86_64");
        reveal_strlit("x64");
        reveal_strlit("aarch64");
        reveal_strlit("arm");
        reveal_strlit("windows");
        reveal_strlit("linux");
        reveal_strlit("macos");
        reveal_strlit("mac");
        reveal_strlit("ghdown");
        reveal_strlit("-");
        assert("x86_64"@ =~= seq!['x', '8', '6', '_', '6', '4']);
        assert("x64"@ =~= seq!['x', '6', '4']);
        assert("aarch64"@ =~= seq!['a', 'a', 'r', 'c', 'h', '6', '4']);
        assert("arm"@ =~= seq!['a', 'r', 'm']);
        assert("windows"@ =~= seq!['w', 'i', 'n', 'd', 'o', 'w', 's']);
        assert("linux"@ =~= seq!['l', 'i', 'n', 'u', 'x']);
        assert("macos"@ =~= seq!['m', 'a', 'c', 'o', 's']);
        assert("mac"@ =~= seq!['m', 'a', 'c']);
        assert("ghdown"@ =~= seq!['g', 'h', 'd', 'o', 'w', 'n']);
        assert("-"@ =~= seq!['-']);
    }
    let a = String::from_str(arch);
    let arch_part: &str = if a == String::from_str("x86_64") {
        "x64"
    } else if a == String::from_str("aarch64") {
        "aarch64"
    } else if a == String::from_str("arm") {
        "arm"
    } else {
        return Err(PlatformError::UnsupportedArch(a));
    };
    let o = String::from_str(os);
    let os_part: &str = if o == String::from_str("windows") {
        "windows"
    } else if o == String::from_str("linux") {
        "linux"
    } else if o == String::from_str("macos") {
        "mac"
    } else {
        return Err(PlatformError::UnsupportedOs(o));
    };
    let ext = platform_ext(os);
    let mut full = String::from_str("ghdown");
    full.append("-");
    full.append(arch_part);
    full.append("-");
    full.append(os_part);
    full.append(ext.as_str());
    let mut short = String::from_str("ghdown");
    short.append(ext.as_str());
    let mut v: Vec<String> = Vec::new();
    v.push(full);
    v.push(short);
    assert(v.deep_view() =~= candidate_names_spec(arch@, os@));
    Ok(v)
}

/// One asset of a release, as the GitHub API describes it (fields that are
/// missing or not strings are `None`).
#[derive(Debug, Clone)]
pub struct ReleaseAsset {
    pub name: Option<String>,
    pub browser_download_url: Option<String>,
    pub digest: Option<String>,
}

/// A release, as the GitHub API describes it (`None` where the field is
/// missing or of another kind).
#[derive(Debug, Clone)]
pub struct ReleaseInfo {
    pub tag_name: Option<String>,
    pub assets: Option<Vec<ReleaseAsset>>,
}

/// The release asset chosen for download.
#[derive(Debug, Clone)]
pub struct ReleaseChoice {
    pub tag: String,
    pub asset_name: String,
    pub asset_url: String,
    pub digest: Option<String>,
}

/// The asset is named `name`.
pub open spec fn named(a: ReleaseAsset, name: Seq<char>) -> bool {
    a.name matches Some(n) && n@ == name
}

/// The position of the first asset named `name`.
pub open spec fn first_named(assets: Seq<ReleaseAsset>, name: Seq<char>) -> Option<int> {
    if exists|i: int| 0 <= i < assets.len() && named(#[trigger] assets[i], name) {
        Some(
            choose|i: int|
                0 <= i < assets.len() && named(#[trigger] assets[i], name) && forall|j: int|
                    0 <= j < i ==> !named(assets[j], name),
        )
    } else {
        None
    }
}

/// The download url of an asset, empty when it has none.
pub open spec fn url_text(a: ReleaseAsset) -> Seq<char> {
    match a.browser_download_url {
        Some(u) => u@,
        None => Seq::empty(),
    }
}

/// The candidate `name` is served: the first asset of that name has a
/// download url.
pub open spec fn serves(assets: Seq<ReleaseAsset>, name: Seq<char>) -> bool {
    first_named(assets, name) matches Some(k) && url_text(assets[k]).len() > 0
}

/// The first candidate (by position) that the assets serve.
pub open spec fn first_served(assets: Seq<ReleaseAsset>, names: Seq<Seq<char>>) -> Option<int> {
    if exists|c: int| 0 <= c < names.len() && serves(assets, #[trigger] names[c]) {
        Some(
            choose|c: int|
                0 <= c < names.len() && serves(assets, #[trigger] names[c]) && forall|d: int|
                    0 <= d < c ==> !serves(assets, names[d]),
        )
    } else {
        None
    }
}

/// What a release answer gives: nothing without a tag or an asset list;
/// else the first candidate name served, with the tag, that asset's url
/// and digest.
pub open spec fn selected(info: ReleaseInfo, names: Seq<Seq<char>>, r: Option<ReleaseChoice>) -> bool {
    match (info.tag_name, info.assets) {
        (Some(tag), Some(assets)) => match first_served(assets@, names) {
            Some(c) => r matches Some(ch) && {
                let k = first_named(assets@, names[c]).unwrap();
                &&& ch.tag@ == tag@
                &&& ch.asset_name@ == names[c]
                &&& ch.asset_url@ == url_text(assets@[k])
                &&& ch.digest == assets@[k].digest
            },
            None => r.is_none(),
        },
        _ => r.is_none(),
    }
}

/// Finds the first asset named `name`.
fn find_named(assets: &Vec<ReleaseAsset>, name: &String) -> (r: Option<usize>)
    ensures
        match r {
            Some(i) => first_named(assets@, name@) == Some(i as int) && i < assets@.len() && named(
                assets@[i as int],
                name@,
            ),
            None => first_named(assets@, name@).is_none(),
        },
{
    let mut i: usize = 0;
    while i < assets.len()
        invariant
            0 <= i <= assets.len(),
            forall|j: int| 0 <= j < i ==> !named(#[trigger] assets@[j], name@),
        decreases assets.len() - i,
    {
        let hit = match &assets[i].name {
            Some(n) => *n == *name,
            None => false,
        };
        if hit {
            proof {
                let k = choose|k: int|
                    0 <= k < assets@.len() && named(#[trigger] assets@[k], name@) && forall|j: int|
                        0 <= j < k ==> !named(assets@[j], name@);
                if k < i {
                    assert(!named(assets@[k], name@));
                } else if k > i {
                    assert(!named(assets@[i as int], name@));
                }
            }
            return Some(i);
        }
        i += 1;
    }
    None
}

/// The asset that serves candidate `name`, with its download url.
fn served_by(assets: &Vec<ReleaseAsset>, name: &String) -> (r: Option<(usize, String)>)
    ensures
        match r {
            Some((k, url)) => serves(assets@, name@) && first_named(assets@, name@) == Some(k as int)
                && k < assets@.len() && url@ == url_text(assets@[k as int]),
            None => !serves(assets@, name@),
        },
{
    match find_named(assets, name) {
        Some(k) => {
            let url = match &assets[k].browser_download_url {
                Some(u) => u.clone(),
                None => String::new(),
            };
            if url.as_str().unicode_len() > 0 {
                Some((k, url))
            } else {
                None
            }
        },
        None => None,
    }
}

/// Picks the asset to download from a release answer (see `selected`).
pub fn select_release(info: &ReleaseInfo, names: &Vec<String>) -> (r: Option<ReleaseChoice>)
    ensures
        selected(*info, names.deep_view(), r),
{
    let tag = match &info.tag_name {
        Some(t) => t,
        None => return None,
    };
    let assets = match &info.assets {
        Some(a) => a,
        None => return None,
    };
    let ghost ns = names.deep_view();
    let mut c: usize = 0;
    while c < names.len()
        invariant
            0 <= c <= names.len(),
            ns == names.deep_view(),
            info.tag_name == Some(*tag),
            info.assets == Some(*assets),
            forall|d: int| 0 <= d < c ==> !serves(assets@, #[trigger] ns[d]),
        decreases names.len() - c,
    {
        assert(ns[c as int] == names@[c as int]@);
        match served_by(assets, &names[c]) {
            Some((k, url)) => {
                proof {
                    lemma_first_served(assets@, ns, c as int);
                }
                let ch = ReleaseChoice {
                    tag: tag.clone(),
                    asset_name: names[c].clone(),
                    asset_url: url,
                    digest: crate::config::clone_opt_string(&assets[k].digest),
                };
                assert(selected(*info, ns, Some(ch)));
                return Some(ch);
            },
            None => {},
        }
        c += 1;
    }
    assert(first_served(assets@, ns).is_none());
    None
}

proof fn lemma_first_served(assets: Seq<ReleaseAsset>, names: Seq<Seq<char>>, c: int)
    requires
        0 <= c < names.len(),
        serves(assets, names[c]),
        forall|d: int| 0 <= d < c ==> !serves(assets, #[trigger] names[d]),
    ensures
        first_served(assets, names) == Some(c),
{
    let f = choose|f: int|
        0 <= f < names.len() && serves(assets, #[trigger] names[f]) && forall|d: int|
            0 <= d < f ==> !serves(assets, names[d]);
    if f < c {
        assert(!serves(assets, names[f]));
    } else if f > c {
        assert(!serves(assets, names[c]));
    }
}

/// The GitHub API address of the latest release.
pub open spec fn release_api_text() -> Seq<char> {
    "https://api.github.com/repos/anomalyco/ghdown/releases/latest"@
}

/// The addresses to ask for the latest release: through each proxy in
/// order, then directly.
pub open spec fn release_api_urls_spec(proxies: Seq<Seq<char>>) -> Seq<Seq<char>> {
    proxies.map_values(|p: Seq<char>| p + release_api_text()) + seq![release_api_text()]
}

/// The addresses to ask for the latest release (see
/// `release_api_urls_spec`).
pub fn release_api_urls(proxies: &Vec<String>) -> (r: Vec<String>)
    ensures
        r.deep_view() == release_api_urls_spec(proxies.deep_view()),
{
    let api = "https://api.github.com/repos/anomalyco/ghdown/releases/latest";
    let mut r: Vec<String> = Vec::new();
    let mut i: usize = 0;
    while i < proxies.len()
        invariant
            0 <= i <= proxies.len(),
            api@ == release_api_text(),
            r.deep_view() == proxies.deep_view().take(i as int).map_values(
                |p: Seq<char>| p + release_api_text(),
            ),
        decreases proxies.len() - i,
    {
        let ghost prev = r.deep_view();
        let u = concat(proxies[i].as_str(), api);
        r.push(u);
        assert(r.deep_view() =~= prev.push(u@));
        assert(r.deep_view() =~= proxies.deep_view().take(i + 1).map_values(
            |p: Seq<char>| p + release_api_text(),
        ));
        i += 1;
    }
    assert(proxies.deep_view().take(proxies.len() as int) =~= proxies.deep_view());
    let ghost prev = r.deep_view();
    r.push(String::from_str(api));
    assert(r.deep_view() =~= prev.push(release_api_text()));
    r
}

/// The error of a downloaded upgrade whose checksum differs from the one
/// the release announces.
pub open spec fn upgrade_mismatch_text(expected: Seq<char>, actual: Seq<char>) -> Seq<char> {
    "checksum 不匹配，已删除损坏文件\n  期望: "@ + expected + "\n  实际: "@ + actual
}

/// Checks a downloaded upgrade against the checksum the release announces,
/// which is enforced: `Ok` when `data` has the checksum `expected`, else the
/// error naming both checksums (the file is then not to be installed).
pub fn check_upgrade_digest(data: &[u8], expected: &str) -> (r: Result<(), String>)
    ensures
        r is Ok <==> checksum_text(data@) == expected@,
        r matches Err(m) ==> m@ == upgrade_mismatch_text(expected@, checksum_text(data@)),
{
    let actual = sha256_checksum(data);
    if actual == String::from_str(expected) {
        Ok(())
    } else {
        let head = concat("checksum 不匹配，已删除损坏文件\n  期望: ", expected);
        let mid = concat(head.as_str(), "\n  实际: ");
        Err(concat(mid.as_str(), actual.as_str()))
    }
}

/// `s` without its leading `c` characters (`trim_start_matches(c)`).
pub open spec fn trim_leading(s: Seq<char>, c: char) -> Seq<char>
    decreases s.len(),
{
    if s.len() > 0 && s[0] == c {
        trim_leading(s.drop_first(), c)
    } else {
        s
    }
}

/// A release tag without its leading `v`s (`v1.2` gives `1.2`).
pub fn version_of_tag(tag: &str) -> (r: String)
    ensures
        r@ == trim_leading(tag@, 'v'),
{
    let v = chars_of(tag);
    let mut i: usize = 0;
    assert(v@.skip(0) =~= v@);
    while i < v.len() && v[i] == 'v'
        invariant
            0 <= i <= v.len(),
            trim_leading(v@.skip(i as int), 'v') == trim_leading(v@, 'v'),
        decreases v.len() - i,
    {
        assert(v@.skip(i as int).drop_first() =~= v@.skip(i + 1));
        i += 1;
    }
    assert(v@.skip(i as int) =~= v@.subrange(i as int, v.len() as int));
    string_from_chars(&v, i, v.len())
}

/// The running version is the latest: the tag without its leading `v`s
/// equals it.
pub fn is_up_to_date(latest_tag: &str, current_version: &str) -> (r: bool)
    ensures
        r == (trim_leading(latest_tag@, 'v') == current_version@),
{
    version_of_tag(latest_tag) == String::from_str(current_version)
}


/// A leading `v` on the release tag does not change whether the running
/// version is the latest.
pub proof fn lemma_v_prefix_ignored(tag: Seq<char>, current: Seq<char>)
    ensures
        (trim_leading(seq!['v'] + tag, 'v') == current) == (trim_leading(tag, 'v') == current),
{
    assert((seq!['v'] + tag).drop_first() =~= tag);
}

} // verus!
