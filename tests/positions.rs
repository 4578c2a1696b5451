use kashshaf::positions::{
    take_smallest, positions_for_terms, phrase_positions, proximity_positions, verify_adjacency,
};
use kashshaf::results::{term_highlight, union_highlight};

#[test]
fn lemma_positions_sorted() {
    // one term occurring at 7 and 3
    assert_eq!(positions_for_terms(&vec![vec![7, 3]], 20), vec![3, 7]);
}

#[test]
fn union_dedups_and_caps() {
    assert_eq!(positions_for_terms(&vec![vec![5, 1, 9], vec![1, 2]], 3), vec![1, 2, 5]);
    assert_eq!(positions_for_terms(&vec![], 5), Vec::<u32>::new());
    assert_eq!(take_smallest(&vec![4, 4, 4], 0), Vec::<u32>::new());
    assert_eq!(take_smallest(&vec![u32::MAX, 0], 5), vec![0, u32::MAX]);
}

#[test]
fn phrase_highlights_consecutive_only() {
    // "كتاب" at 12 and 40, "الله" at 13
    assert_eq!(phrase_positions(&vec![vec![12, 40], vec![13]], 20), vec![12, 13]);
}

#[test]
fn phrase_with_several_occurrences() {
    let lists = vec![vec![1, 5, 9], vec![2, 6, 11], vec![3, 12]];
    assert_eq!(phrase_positions(&lists, 20), vec![1, 2, 3]);
    assert_eq!(phrase_positions(&vec![vec![1, 5], vec![2, 6]], 3), vec![1, 2, 5]);
    assert_eq!(phrase_positions(&vec![vec![4], vec![]], 20), Vec::<u32>::new());
    assert_eq!(phrase_positions(&vec![vec![u32::MAX], vec![0]], 20), Vec::<u32>::new());
}

#[test]
fn proximity_within_distance() {
    assert_eq!(proximity_positions(&vec![10], &vec![13], 5, 50), vec![10, 13]);
    assert_eq!(proximity_positions(&vec![10], &vec![20], 5, 50), Vec::<u32>::new());
    assert_eq!(proximity_positions(&vec![10, 30], &vec![8, 31, 100], 2, 50), vec![8, 10, 30, 31]);
}

#[test]
fn adjacency_windows() {
    assert!(verify_adjacency(&vec![3, 4, 5], 3));
    assert!(verify_adjacency(&vec![1, 7, 8], 2));
    assert!(!verify_adjacency(&vec![1, 3, 5], 2));
    assert!(!verify_adjacency(&vec![], 2));
    assert!(!verify_adjacency(&vec![4], 2));
    assert!(verify_adjacency(&vec![4], 1));
    assert!(verify_adjacency(&vec![], 0));
    assert!(verify_adjacency(&vec![], 1));
}

#[test]
fn term_highlight_by_word_count() {
    assert_eq!(term_highlight(&vec![vec![9, 2]], 20), vec![2, 9]);
    assert_eq!(term_highlight(&vec![vec![2, 9], vec![3]], 20), vec![2, 3]);
}

#[test]
fn union_of_term_highlights_is_capped() {
    let terms = vec![vec![vec![1, 4]], vec![vec![10], vec![11]], vec![vec![4, 30]]];
    assert_eq!(union_highlight(&terms, 50), vec![1, 4, 10, 11, 30]);
    assert_eq!(union_highlight(&terms, 2), vec![1, 4]);
}
