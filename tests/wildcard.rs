use kashshaf::wildcard::{
    validate_wildcard_query, parse_wildcard_query, wildcard_regex, SearchMode, WildcardType,
    WildcardQueryInfo,
};

fn rejection(q: &str, mode: SearchMode) -> Option<String> {
    validate_wildcard_query(q, mode).err().map(|e| e.message)
}

#[test]
fn wildcard_at_start_is_rejected() {
    assert_eq!(
        rejection("*كتب", SearchMode::Surface).as_deref(),
        Some("Wildcard cannot be at start of word")
    );
}

#[test]
fn wildcard_only_in_surface_mode() {
    assert_eq!(
        rejection("كت*", SearchMode::Lemma).as_deref(),
        Some("Wildcards only supported in Surface mode")
    );
    assert_eq!(
        rejection("كت*", SearchMode::Root).as_deref(),
        Some("Wildcards only supported in Surface mode")
    );
}

#[test]
fn only_one_wildcard() {
    assert_eq!(
        rejection("كت* ال*", SearchMode::Surface).as_deref(),
        Some("Only one wildcard (*) allowed per search term")
    );
}

#[test]
fn internal_wildcard_needs_two_letters() {
    assert_eq!(
        rejection("ك*ب", SearchMode::Surface).as_deref(),
        Some("Internal wildcard requires at least 2 characters before it")
    );
    assert_eq!(
        rejection("ab*c", SearchMode::Surface).as_deref(),
        Some("Internal wildcard requires at least 2 characters before it")
    );
    assert_eq!(rejection("كت*ب", SearchMode::Surface), None);
    assert_eq!(rejection("ك*", SearchMode::Surface), None);
}

#[test]
fn queries_without_wildcard_pass() {
    assert_eq!(rejection("كتاب الله", SearchMode::Lemma), None);
    assert_eq!(rejection("", SearchMode::Root), None);
}

#[test]
fn parse_internal_wildcard() {
    let info = parse_wildcard_query("الله كت*ب");
    assert!(info.has_wildcard);
    assert_eq!(info.wildcard_term_index, 1);
    assert_eq!(info.wildcard_type, WildcardType::Internal);
    assert_eq!(info.prefix, "كت");
    assert_eq!(info.suffix.as_deref(), Some("ب"));
    assert_eq!(info.terms, vec!["الله".to_string(), "كت*ب".to_string()]);
}

#[test]
fn parse_prefix_wildcard() {
    let info = parse_wildcard_query("  اب*  ");
    assert!(info.has_wildcard);
    assert_eq!(info.wildcard_term_index, 0);
    assert_eq!(info.wildcard_type, WildcardType::Prefix);
    assert_eq!(info.prefix, "اب");
    assert_eq!(info.suffix, None);
    assert_eq!(info.terms, vec!["اب*".to_string()]);
}

#[test]
fn parse_without_wildcard() {
    let info = parse_wildcard_query("كتاب الله");
    assert!(!info.has_wildcard);
    assert_eq!(info.wildcard_type, WildcardType::Plain);
    assert_eq!(info.prefix, "");
    assert_eq!(info.terms.len(), 2);
}

#[test]
fn regex_for_wildcards() {
    let info = parse_wildcard_query("كت*ب");
    assert_eq!(wildcard_regex(&info), "كت.*ب");
    let info = parse_wildcard_query("اب*");
    assert_eq!(wildcard_regex(&info), "اب.*");
    let odd = WildcardQueryInfo {
        has_wildcard: true,
        wildcard_term_index: 0,
        wildcard_type: WildcardType::Internal,
        prefix: "a.b".to_string(),
        suffix: Some("(c)".to_string()),
        terms: vec!["a.b*(c)".to_string()],
    };
    assert_eq!(wildcard_regex(&odd), "a\\.b.*\\(c\\)");
}
