//! Versions and the records exchanged about corpus and application updates.
use vstd::prelude::*;
use std::collections::HashMap;
use crate::text::chars_of;

verus! {

/// The decimal value of a run of digits.
pub open spec fn digits_value(s: Seq<char>) -> int
    decreases s.len(),
{
    if s.len() == 0 {
        0
    } else {
        10 * digits_value(s.drop_last()) + (s.last() as int - '0' as int)
    }
}

pub open spec fn all_digits(s: Seq<char>) -> bool {
    forall|i: int| 0 <= i < s.len() ==> '0' <= #[trigger] s[i] && s[i] <= '9'
}

/// What `str::parse::<u32>` gives: an optional `+`, then one or more digits
/// whose value fits.
pub open spec fn parse_u32_spec(s: Seq<char>) -> Option<u32> {
    let d = if s.len() > 0 && s[0] == '+' {
        s.drop_first()
    } else {
        s
    };
    if d.len() > 0 && all_digits(d) && digits_value(d) <= u32::MAX {
        Some(digits_value(d) as u32)
    } else {
        None
    }
}

/// Parses a `u32` from `s[from..to]` as `str::parse` does.
fn parse_u32_range(s: &Vec<char>, from: usize, to: usize) -> (r: Option<u32>)
    requires
        from <= to <= s@.len(),
    ensures
        r == parse_u32_spec(s@.subrange(from as int, to as int)),
{
    let ghost w = s@.subrange(from as int, to as int);
    let mut start = from;
    if from < to && s[from] == '+' {
        start = from + 1;
    }
    let ghost d = s@.subrange(start as int, to as int);
    assert(d =~= if w.len() > 0 && w[0] == '+' {
        w.drop_first()
    } else {
        w
    });
    if start == to {
        return None;
    }
    let mut v: u64 = 0;
    let mut i = start;
    while i < to
        invariant
            start <= i <= to <= s@.len(),
            w == s@.subrange(from as int, to as int),
            d == s@.subrange(start as int, to as int),
            d == (if w.len() > 0 && w[0] == '+' {
                w.drop_first()
            } else {
                w
            }),
            all_digits(s@.subrange(start as int, i as int)),
            v as int == digits_value(s@.subrange(start as int, i as int)),
            v <= u32::MAX,
        decreases to - i,
    {
        let c = s[i];
        let ghost pre = s@.subrange(start as int, i as int);
        let ghost next = s@.subrange(start as int, i as int + 1);
        assert(next.drop_last() =~= pre);
        assert(next.last() == c);
        assert(next =~= d.take(i - start + 1));
        if c < '0' || c > '9' {
            assert(!all_digits(d)) by {
                assert(d[i - start] == c);
            }
            return None;
        }
        let digit = (c as u32 - '0' as u32) as u64;
        v = v * 10 + digit;
        assert(all_digits(next)) by {
            assert forall|k: int| 0 <= k < next.len() implies '0' <= #[trigger] next[k] && next[k]
                <= '9' by {
                if k < pre.len() {
                    assert(next[k] == pre[k]);
                }
            }
        }
        if v > u32::MAX as u64 {
            proof {
                lemma_digits_grow(d, i - start + 1);
            }
            return None;
        }
        i = i + 1;
    }
    assert(s@.subrange(start as int, to as int) =~= d);
    Some(v as u32)
}

/// Digits only add to the value: a prefix above a bound keeps the whole
/// above it.
proof fn lemma_digits_grow(d: Seq<char>, n: int)
    requires
        0 <= n <= d.len(),
        all_digits(d.take(n)),
        digits_value(d.take(n)) > u32::MAX,
    ensures
        !(all_digits(d) && digits_value(d) <= u32::MAX),
    decreases d.len() - n,
{
    if n < d.len() && all_digits(d) {
        let t = d.take(n + 1);
        assert(t.drop_last() =~= d.take(n));
        assert(all_digits(t)) by {
            assert forall|k: int| 0 <= k < t.len() implies '0' <= #[trigger] t[k] && t[k] <= '9' by {
                assert(t[k] == d[k]);
            }
        }
        assert(d[n] >= '0');
        lemma_digits_grow(d, n + 1);
    } else if n == d.len() {
        assert(d.take(n) =~= d);
    }
}

/// The pieces of `s` between the separators `c` (empty pieces included).
pub open spec fn split_on(s: Seq<char>, c: char) -> Seq<Seq<char>>
    decreases s.len(),
{
    if s.len() == 0 {
        seq![seq![]]
    } else {
        let p = split_on(s.drop_last(), c);
        if s.last() == c {
            p.push(seq![])
        } else {
            p.drop_last().push(p.last().push(s.last()))
        }
    }
}

proof fn lemma_split_nonempty(s: Seq<char>, c: char)
    ensures
        split_on(s, c).len() >= 1,
    decreases s.len(),
{
    if s.len() > 0 {
        lemma_split_nonempty(s.drop_last(), c);
    }
}

/// The text before the first `-`, or all of it.
pub open spec fn before_dash(s: Seq<char>) -> Seq<char> {
    split_on(s, '-')[0]
}

/// A version `major.minor.patch`, with anything from the first `-` ignored.
pub open spec fn version_of(v: Seq<char>) -> Option<(u32, u32, u32)> {
    let parts = split_on(before_dash(v), '.');
    if parts.len() >= 3 {
        match (parse_u32_spec(parts[0]), parse_u32_spec(parts[1]), parse_u32_spec(parts[2])) {
            (Some(a), Some(b), Some(c)) => Some((a, b, c)),
            _ => None,
        }
    } else {
        None
    }
}

/// Where the pieces of `s[0..n]` split on `c` start and end.
fn split_bounds(s: &Vec<char>, n: usize, c: char) -> (r: Vec<(usize, usize)>)
    requires
        n <= s@.len(),
    ensures
        r@.len() == split_on(s@.take(n as int), c).len(),
        r@.len() > 0 && r@[0].0 == 0,
        forall|k: int|
            0 <= k < r@.len() ==> {
                let (a, b) = #[trigger] r@[k];
                a <= b <= n && s@.subrange(a as int, b as int) == split_on(s@.take(n as int), c)[k]
            },
{
    let mut out: Vec<(usize, usize)> = Vec::new();
    let mut start: usize = 0;
    let mut i: usize = 0;
    while i < n
        invariant
            i <= n <= s@.len(),
            start <= i,
            out@.len() > 0 ==> out@[0].0 == 0,
            out@.len() == 0 ==> start == 0,
            out@.len() + 1 == split_on(s@.take(i as int), c).len(),
            s@.subrange(start as int, i as int) == split_on(s@.take(i as int), c).last(),
            forall|k: int|
                0 <= k < out@.len() ==> {
                    let (a, b) = #[trigger] out@[k];
                    a <= b <= i && s@.subrange(a as int, b as int) == split_on(
                        s@.take(i as int),
                        c,
                    )[k]
                },
        decreases n - i,
    {
        let ghost t = s@.take(i as int + 1);
        let ghost p = split_on(s@.take(i as int), c);
        assert(t.drop_last() =~= s@.take(i as int));
        assert(t.last() == s@[i as int]);
        proof {
            lemma_split_nonempty(s@.take(i as int), c);
        }
        if s[i] == c {
            let ghost before = out@;
            out.push((start, i));
            start = i + 1;
            proof {
                assert(s@.subrange(start as int, i as int + 1) =~= Seq::<char>::empty());
                assert forall|k: int| 0 <= k < out@.len() implies {
                    let (a, b) = #[trigger] out@[k];
                    a <= b <= i + 1 && s@.subrange(a as int, b as int) == split_on(t, c)[k]
                } by {
                    if k < before.len() {
                        assert(out@[k] == before[k]);
                    }
                }
            }
        } else {
            proof {
                assert(s@.subrange(start as int, i as int + 1) =~= s@.subrange(
                    start as int,
                    i as int,
                ).push(s@[i as int]));
                assert forall|k: int| 0 <= k < out@.len() implies {
                    let (a, b) = #[trigger] out@[k];
                    a <= b <= i + 1 && s@.subrange(a as int, b as int) == split_on(t, c)[k]
                } by {
                    assert(split_on(t, c)[k] == p[k]);
                }
            }
        }
        i = i + 1;
    }
    let ghost before = out@;
    out.push((start, n));
    proof {
        assert forall|k: int| 0 <= k < out@.len() implies {
            let (a, b) = #[trigger] out@[k];
            a <= b <= n && s@.subrange(a as int, b as int) == split_on(s@.take(n as int), c)[k]
        } by {
            if k < before.len() {
                assert(out@[k] == before[k]);
            }
        }
    }
    out
}

/// Reads `major.minor.patch`, ignoring any `-` suffix.
pub fn parse_version(version: &str) -> (r: Option<(u32, u32, u32)>)
    ensures
        r == version_of(version@),
{
    let cs = chars_of(version);
    let dashes = split_bounds(&cs, cs.len(), '-');
    assert(cs@.take(cs@.len() as int) =~= cs@);
    proof {
        lemma_split_nonempty(cs@, '-');
    }
    let (_, end) = dashes[0];
    let ghost core = cs@.subrange(0, end as int);
    assert(core == before_dash(version@));
    let dots = split_bounds(&cs, end, '.');
    assert(cs@.take(end as int) =~= core);
    if dots.len() < 3 {
        return None;
    }
    let (a0, b0) = dots[0];
    let (a1, b1) = dots[1];
    let (a2, b2) = dots[2];
    let x = parse_u32_range(&cs, a0, b0);
    let y = parse_u32_range(&cs, a1, b1);
    let z = parse_u32_range(&cs, a2, b2);
    match (x, y, z) {
        (Some(a), Some(b), Some(c)) => Some((a, b, c)),
        _ => None,
    }
}

/// `a` is the same version as `b` or a later one.
pub open spec fn version_ge(a: (u32, u32, u32), b: (u32, u32, u32)) -> bool {
    a.0 > b.0 || (a.0 == b.0 && (a.1 > b.1 || (a.1 == b.1 && a.2 >= b.2)))
}

fn version_ge_exec(a: (u32, u32, u32), b: (u32, u32, u32)) -> (r: bool)
    ensures
        r == version_ge(a, b),
{
    a.0 > b.0 || (a.0 == b.0 && (a.1 > b.1 || (a.1 == b.1 && a.2 >= b.2)))
}

/// Whether the application version is at least the minimum; a version that
/// cannot be read is taken as compatible.
pub fn version_meets_minimum(app_version: &str, min_version: &str) -> (r: bool)
    ensures
        r == match (version_of(app_version@), version_of(min_version@)) {
            (Some(a), Some(m)) => version_ge(a, m),
            _ => true,
        },
{
    match (parse_version(app_version), parse_version(min_version)) {
        (Some(a), Some(m)) => version_ge_exec(a, m),
        _ => true,
    }
}

#[derive(Debug, Clone)]
pub struct RemoteFile {
    pub name: String,
    pub hash: String,
    pub size: u64,
}

#[derive(Debug, Clone)]
pub struct RemoteManifest {
    pub corpus_version: String,
    pub schema_version: i64,
    pub min_app_version: String,
    pub built_at: String,
    pub files: Vec<RemoteFile>,
}

#[derive(Debug, Clone)]
pub struct LocalFile {
    pub hash: String,
    pub size: u64,
    pub complete: bool,
}

#[derive(Debug, Clone)]
pub struct LocalManifest {
    pub corpus_version: String,
    pub schema_version: i64,
    pub downloaded_at: String,
    pub files: HashMap<String, LocalFile>,
}

#[derive(Debug, Clone)]
pub struct CorpusStatus {
    pub ready: bool,
    pub local_version: Option<String>,
    pub remote_version: Option<String>,
    pub update_available: bool,
    pub update_required: bool,
    pub missing_files: Vec<String>,
    pub total_download_size: u64,
    pub error: Option<String>,
}

#[derive(Debug, Clone, Copy, PartialEq, Eq, Structural)]
pub enum DownloadState {
    Starting,
    Downloading,
    Verifying,
    Completed,
    Failed,
    Cancelled,
}

#[derive(Debug, Clone)]
pub struct DownloadProgress {
    pub current_file: String,
    pub file_bytes_downloaded: u64,
    pub file_total_bytes: u64,
    pub overall_bytes_downloaded: u64,
    pub overall_total_bytes: u64,
    pub files_completed: usize,
    pub files_total: usize,
    pub state: DownloadState,
}

#[derive(Debug, Clone)]
pub struct PlatformDownloads {
    pub windows: String,
    pub macos: String,
    pub linux: String,
}

/// The operating systems releases are built for.
#[derive(Debug, Clone, Copy, PartialEq, Eq, Structural)]
pub enum Platform {
    Windows,
    Macos,
    Linux,
}

#[derive(Debug, Clone)]
pub struct AppRelease {
    pub version: String,
    pub released_at: String,
    pub required: bool,
    pub notes: String,
    pub downloads: PlatformDownloads,
}

pub open spec fn url_for(d: PlatformDownloads, p: Platform) -> Seq<char> {
    match p {
        Platform::Windows => d.windows@,
        Platform::Macos => d.macos@,
        Platform::Linux => d.linux@,
    }
}

impl AppRelease {
    /// The download URL of this release for the platform the program runs on.
    pub fn download_url_for_current_platform(&self, platform: Platform) -> (r: &str)
        ensures
            r@ == url_for(self.downloads, platform),
    {
        match platform {
            Platform::Windows => self.downloads.windows.as_str(),
            Platform::Macos => self.downloads.macos.as_str(),
            Platform::Linux => self.downloads.linux.as_str(),
        }
    }
}

#[derive(Debug, Clone)]
pub struct AppManifest {
    pub latest_version: String,
    pub min_supported_version: String,
    pub releases: Vec<AppRelease>,
}

#[derive(Debug, Clone)]
pub struct AppUpdateStatus {
    pub current_version: String,
    pub latest_version: String,
    pub min_supported_version: String,
    pub update_required: bool,
    pub update_available: bool,
    pub release_notes: Option<String>,
    pub download_url: Option<String>,
}

/// A release newer than `current` is marked as required.
pub open spec fn required_release_after(releases: Seq<AppRelease>, current: (u32, u32, u32)) -> bool {
    exists|i: int|
        0 <= i < releases.len() && #[trigger] releases[i].required && (version_of(
            releases[i].version@,
        ) matches Some(v) && !version_ge(current, v))
}

/// Compares the running version with the application manifest: an update is
/// required below the minimum or when a newer release is marked required,
/// available when the latest is newer; notes and URL come from the first
/// release.
pub fn check_app_update(current_version: &str, manifest: &AppManifest, platform: Platform) -> (r:
    AppUpdateStatus)
    ensures
        r.current_version@ == current_version@,
        r.latest_version@ == manifest.latest_version@,
        r.min_supported_version@ == manifest.min_supported_version@,
        r.update_required == (match (
            version_of(current_version@),
            version_of(manifest.min_supported_version@),
        ) {
            (Some(c), Some(m)) => !version_ge(c, m),
            _ => false,
        } || match version_of(current_version@) {
            Some(c) => required_release_after(manifest.releases@, c),
            None => false,
        }),
        r.update_available == match (
            version_of(current_version@),
            version_of(manifest.latest_version@),
        ) {
            (Some(c), Some(l)) => !version_ge(c, l),
            _ => false,
        },
        manifest.releases@.len() == 0 ==> r.release_notes is None && r.download_url is None,
        manifest.releases@.len() > 0 ==> (r.release_notes matches Some(n) && n@
            == manifest.releases@[0].notes@) && (r.download_url matches Some(u) && u@ == url_for(
            manifest.releases@[0].downloads,
            platform,
        )),
{
    let current = parse_version(current_version);
    let latest = parse_version(manifest.latest_version.as_str());
    let min = parse_version(manifest.min_supported_version.as_str());
    let below_min = match (current, min) {
        (Some(c), Some(m)) => !version_ge_exec(c, m),
        _ => false,
    };
    let mut newer_required = false;
    match current {
        Some(c) => {
            let mut i: usize = 0;
            while i < manifest.releases.len()
                invariant
                    i <= manifest.releases@.len(),
                    newer_required == exists|k: int|
                        0 <= k < i && #[trigger] manifest.releases@[k].required && (version_of(
                            manifest.releases@[k].version@,
                        ) matches Some(v) && !version_ge(c, v)),
                decreases manifest.releases@.len() - i,
            {
                let rel = &manifest.releases[i];
                if rel.required {
                    match parse_version(rel.version.as_str()) {
                        Some(v) => {
                            if !version_ge_exec(c, v) {
                                newer_required = true;
                            }
                        },
                        None => {},
                    }
                }
                i = i + 1;
            }
        },
        None => {},
    }
    let update_available = match (current, latest) {
        (Some(c), Some(l)) => !version_ge_exec(c, l),
        _ => false,
    };
    let (release_notes, download_url) = if manifest.releases.len() > 0 {
        let first = &manifest.releases[0];
        (
            Some(first.notes.clone()),
            Some(String::from_str(first.download_url_for_current_platform(platform))),
        )
    } else {
        (None, None)
    };
    AppUpdateStatus {
        current_version: String::from_str(current_version),
        latest_version: manifest.latest_version.clone(),
        min_supported_version: manifest.min_supported_version.clone(),
        update_required: below_min || newer_required,
        update_available,
        release_notes,
        download_url,
    }
}

/// The errors the library reports.
#[derive(Debug, Clone)]
pub enum KashshafError {
    Search(String),
    Index(String),
    Database(String),
    NotFound(String),
    InvalidQuery(String),
    Download(String),
    Network(String),
    CorpusNotReady(String),
    Other(String),
}

pub open spec fn error_text(e: KashshafError) -> Seq<char> {
    match e {
        KashshafError::Search(s) => "Search error: "@ + s@,
        KashshafError::Index(s) => "Index error: "@ + s@,
        KashshafError::Database(s) => "Database error: "@ + s@,
        KashshafError::NotFound(s) => "Not found: "@ + s@,
        KashshafError::InvalidQuery(s) => "Invalid query: "@ + s@,
        KashshafError::Download(s) => "Download error: "@ + s@,
        KashshafError::Network(s) => "Network error: "@ + s@,
        KashshafError::CorpusNotReady(s) => "Corpus not ready: "@ + s@,
        KashshafError::Other(s) => s@,
    }
}

impl KashshafError {
    /// The message shown for this error.
    pub fn message(&self) -> (r: String)
        ensures
            r@ == error_text(*self),
    {
        let (head, body) = match self {
            KashshafError::Search(s) => ("Search error: ", s),
            KashshafError::Index(s) => ("Index error: ", s),
            KashshafError::Database(s) => ("Database error: ", s),
            KashshafError::NotFound(s) => ("Not found: ", s),
            KashshafError::InvalidQuery(s) => ("Invalid query: ", s),
            KashshafError::Download(s) => ("Download error: ", s),
            KashshafError::Network(s) => ("Network error: ", s),
            KashshafError::CorpusNotReady(s) => ("Corpus not ready: ", s),
            KashshafError::Other(s) => ("", s),
        };
        let mut out = String::from_str(head);
        out.append(body.as_str());
        proof {
            reveal_strlit("");
        }
        assert(out@ =~= error_text(*self));
        out
    }
}

} // verus!
