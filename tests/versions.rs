use kashshaf::manifest::{
    parse_version, version_meets_minimum, check_app_update, AppManifest, AppRelease,
    PlatformDownloads, Platform, KashshafError,
};

#[test]
fn test_version_parsing() {
    assert_eq!(parse_version("1.0.0"), Some((1, 0, 0)));
    assert_eq!(parse_version("0.1.0-alpha"), Some((0, 1, 0)));
    assert_eq!(parse_version("2.3.4-beta.1"), Some((2, 3, 4)));
}

#[test]
fn test_version_comparison() {
    assert!(version_meets_minimum("1.0.0", "1.0.0"));
    assert!(version_meets_minimum("1.1.0", "1.0.0"));
    assert!(version_meets_minimum("2.0.0", "1.9.9"));
    assert!(!version_meets_minimum("0.9.9", "1.0.0"));
}

#[test]
fn version_parse_rejects_short_and_bad() {
    assert_eq!(parse_version("1.2"), None);
    assert_eq!(parse_version("1.x.3"), None);
    assert_eq!(parse_version(""), None);
    assert_eq!(parse_version("1.2.99999999999"), None);
    assert_eq!(parse_version("+1.2.3"), Some((1, 2, 3)));
    assert_eq!(parse_version("10.20.30.40"), Some((10, 20, 30)));
}

#[test]
fn unreadable_versions_count_as_compatible() {
    assert!(version_meets_minimum("garbage", "1.0.0"));
    assert!(version_meets_minimum("1.0.0", "garbage"));
}

fn release(version: &str, required: bool) -> AppRelease {
    AppRelease {
        version: version.to_string(),
        released_at: "2024-01-01".to_string(),
        required,
        notes: format!("notes {}", version),
        downloads: PlatformDownloads {
            windows: format!("win-{}", version),
            macos: format!("mac-{}", version),
            linux: format!("linux-{}", version),
        },
    }
}

#[test]
fn app_update_required_below_minimum() {
    let m = AppManifest {
        latest_version: "2.0.0".to_string(),
        min_supported_version: "1.5.0".to_string(),
        releases: vec![release("2.0.0", false)],
    };
    let s = check_app_update("1.0.0", &m, Platform::Linux);
    assert!(s.update_required);
    assert!(s.update_available);
    assert_eq!(s.release_notes.as_deref(), Some("notes 2.0.0"));
    assert_eq!(s.download_url.as_deref(), Some("linux-2.0.0"));
    assert_eq!(s.current_version, "1.0.0");
}

#[test]
fn app_update_required_by_newer_release() {
    let m = AppManifest {
        latest_version: "1.3.0".to_string(),
        min_supported_version: "1.0.0".to_string(),
        releases: vec![release("1.3.0", false), release("1.2.0", true), release("1.0.0", true)],
    };
    let s = check_app_update("1.1.0", &m, Platform::Windows);
    assert!(s.update_required);
    assert!(s.update_available);
    assert_eq!(s.download_url.as_deref(), Some("win-1.3.0"));
    let current = check_app_update("1.3.0", &m, Platform::Macos);
    assert!(!current.update_required);
    assert!(!current.update_available);
    assert_eq!(current.download_url.as_deref(), Some("mac-1.3.0"));
}

#[test]
fn app_update_without_releases() {
    let m = AppManifest {
        latest_version: "1.0.0".to_string(),
        min_supported_version: "1.0.0".to_string(),
        releases: vec![],
    };
    let s = check_app_update("1.0.0", &m, Platform::Linux);
    assert!(!s.update_required);
    assert!(!s.update_available);
    assert!(s.release_notes.is_none());
    assert!(s.download_url.is_none());
}

#[test]
fn error_messages() {
    assert_eq!(KashshafError::Search("boom".to_string()).message(), "Search error: boom");
    assert_eq!(KashshafError::InvalidQuery("x".to_string()).message(), "Invalid query: x");
    assert_eq!(
        KashshafError::CorpusNotReady("later".to_string()).message(),
        "Corpus not ready: later"
    );
    assert_eq!(KashshafError::Other("plain".to_string()).message(), "plain");
}
