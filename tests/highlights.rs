use kashshaf::positions::{positions_for_terms, proximity_positions};
use kashshaf::results::{
    page_with_matches, term_highlight, union_highlight, SearchResult, HIGHLIGHT_CAP,
    WIDE_HIGHLIGHT_CAP, PAGE_HIGHLIGHT_CAP,
};
use kashshaf::tokens::term_fits_wildcard;

fn result() -> SearchResult {
    SearchResult {
        id: 1,
        part_index: 2,
        page_id: 3,
        author_id: Some(4),
        corpus: "c".to_string(),
        author: "a".to_string(),
        title: "t".to_string(),
        death_ah: Some(300),
        century_ah: Some(4),
        genre: None,
        part_label: "p".to_string(),
        page_number: "12".to_string(),
        body: "b".to_string(),
        score_bits: 1.5f32.to_bits(),
        matched_token_indices: vec![],
    }
}

#[test]
fn simple_highlights_capped_at_twenty() {
    let many: Vec<u32> = (0..200).rev().collect();
    let hl = term_highlight(&vec![many], HIGHLIGHT_CAP);
    assert_eq!(hl.len(), 20);
    assert_eq!(hl, (0..20).collect::<Vec<u32>>());
}

#[test]
fn wide_highlights_capped_at_fifty() {
    let a: Vec<u32> = (0..100).map(|i| i * 2).collect();
    let b: Vec<u32> = (0..100).map(|i| i * 2 + 1).collect();
    let hl = proximity_positions(&a, &b, 1, WIDE_HIGHLIGHT_CAP);
    assert_eq!(hl.len(), 50);
    assert_eq!(hl, (0..50).collect::<Vec<u32>>());
    let terms = vec![vec![(0..80).collect::<Vec<u32>>()], vec![(100..180).collect::<Vec<u32>>()]];
    assert_eq!(union_highlight(&terms, WIDE_HIGHLIGHT_CAP).len(), 50);
    assert_eq!(positions_for_terms(&vec![(0..10).collect()], 50).len(), 10);
}

#[test]
fn page_opened_with_matches() {
    let p = page_with_matches(result(), &vec![vec![12, 40], vec![13, 41]]);
    assert_eq!(p.title, "t");
    assert_eq!(p.page_number, "12");
    assert_eq!(p.body, "b");
    assert_eq!(p.matched_token_indices, vec![12, 13, 40, 41]);
    let none = page_with_matches(result(), &vec![]);
    assert!(none.matched_token_indices.is_empty());
    assert_eq!(PAGE_HIGHLIGHT_CAP, 100);
}

#[test]
fn indexed_terms_for_wildcard_words() {
    assert!(term_fits_wildcard("كتاب", "كت", Some("ب")));
    assert!(term_fits_wildcard("كتب", "كت", Some("ب")));
    assert!(!term_fits_wildcard("كتاب", "كت", Some("ة")));
    assert!(term_fits_wildcard("كتابة", "كت", None));
    assert!(!term_fits_wildcard("مكتب", "كت", None));
    assert!(!term_fits_wildcard("ك", "كت", None));
}
