use kashshaf::plan::{
    simple_plan, combined_plan, proximity_plan, name_plan, wildcard_plan, is_phrase_search,
    normalize_term, Leaf, IndexField, QueryPlan, SearchFilters, SearchTerm,
};
use kashshaf::results::{
    sort_by_death, paginate, name_highlight, finish_results, filter_proximity, filter_wildcard,
    check_wildcard_candidate, assemble_results, proximity_results, wildcard_results, fetch_count,
    proximity_fetch_count, wildcard_fetch_count, ProximityCandidate, WildcardCandidate,
    SearchResult,
};
use kashshaf::wildcard::{parse_wildcard_query, SearchMode};

fn page(id: u64, death: Option<u64>) -> SearchResult {
    SearchResult {
        id,
        part_index: 1,
        page_id: id * 10,
        author_id: None,
        corpus: String::new(),
        author: String::new(),
        title: format!("book {}", id),
        death_ah: death,
        century_ah: None,
        genre: None,
        part_label: String::new(),
        page_number: String::new(),
        body: String::new(),
        score_bits: 0,
        matched_token_indices: vec![],
    }
}

fn no_filter() -> SearchFilters {
    SearchFilters {
        author_id: None,
        author: None,
        genre: None,
        corpus: None,
        death_ah_min: None,
        death_ah_max: None,
        century_ah: None,
        book_ids: None,
    }
}

fn books(ids: Vec<u64>) -> SearchFilters {
    let mut f = no_filter();
    f.book_ids = Some(ids);
    f
}

fn term(q: &str, mode: SearchMode) -> SearchTerm {
    SearchTerm { query: q.to_string(), mode }
}

fn leaf_text(l: &Leaf) -> String {
    match l {
        Leaf::Term { field, text } => format!("{:?}:{}", field, text),
        Leaf::Phrase { field, words } => format!("{:?}:\"{}\"", field, words.join(" ")),
        Leaf::Regex { field, pattern } => format!("{:?}:/{}/", field, pattern),
    }
}

fn shape(p: &QueryPlan) -> Vec<Vec<String>> {
    p.must.iter().map(|g| g.iter().map(leaf_text).collect()).collect()
}

#[test]
fn chronological_order_nulls_last() {
    let hits = vec![page(1, Some(900)), page(2, None), page(3, Some(300)), page(4, Some(900))];
    let sorted = sort_by_death(hits);
    let ids: Vec<u64> = sorted.iter().map(|r| r.id).collect();
    assert_eq!(ids, vec![3, 1, 4, 2]);
}

#[test]
fn pagination_windows() {
    let mk = || (1..=5).map(|i| page(i, Some(i))).collect::<Vec<_>>();
    assert_eq!(paginate(mk(), 1, 2).iter().map(|r| r.id).collect::<Vec<_>>(), vec![2, 3]);
    assert_eq!(paginate(mk(), 4, 10).len(), 1);
    assert_eq!(paginate(mk(), 5, 10).len(), 0);
    assert_eq!(paginate(mk(), 9, 10).len(), 0);
    assert_eq!(paginate(mk(), 0, 0).len(), 0);
}

#[test]
fn finish_sorts_then_paginates() {
    let hits = vec![page(1, None), page(2, Some(500)), page(3, Some(100)), page(4, Some(200))];
    let r = finish_results(hits, 1, 2);
    assert_eq!(r.iter().map(|x| x.id).collect::<Vec<_>>(), vec![4, 2]);
}

#[test]
fn combined_order_by_death() {
    let r = assemble_results(
        "x".to_string(),
        SearchMode::Lemma,
        3,
        vec![page(7, None), page(8, Some(241)), page(9, Some(179))],
        0,
        100,
    );
    assert_eq!(r.total_hits, 3);
    assert_eq!(r.results.iter().map(|x| x.id).collect::<Vec<_>>(), vec![9, 8, 7]);
}

#[test]
fn proximity_filter_keeps_close_pages() {
    let cands = vec![
        ProximityCandidate { result: page(1, None), first: vec![10], second: vec![13] },
        ProximityCandidate { result: page(2, None), first: vec![10], second: vec![20] },
        ProximityCandidate { result: page(3, Some(5)), first: vec![1, 50], second: vec![52] },
    ];
    let kept = filter_proximity(cands, 5);
    assert_eq!(kept.len(), 2);
    assert_eq!(kept[0].id, 1);
    assert_eq!(kept[0].matched_token_indices, vec![10, 13]);
    assert_eq!(kept[1].matched_token_indices, vec![50, 52]);
}

#[test]
fn proximity_results_count_passing() {
    let cands = vec![
        ProximityCandidate { result: page(1, None), first: vec![10], second: vec![13] },
        ProximityCandidate { result: page(2, None), first: vec![10], second: vec![20] },
        ProximityCandidate { result: page(3, Some(5)), first: vec![1], second: vec![2] },
    ];
    let r = proximity_results("a ~5 b".to_string(), SearchMode::Surface, cands, 5, 0, 1);
    assert_eq!(r.total_hits, 2);
    assert_eq!(r.results.len(), 1);
    assert_eq!(r.results[0].id, 3);
    assert_eq!(r.results[0].matched_token_indices, vec![1, 2]);
    assert_eq!(r.results[0].title, "book 3");
}

#[test]
fn wildcard_adjacency_filter() {
    // words in order: "كت*ب" then "الله"
    let mut c = WildcardCandidate { result: page(1, None), rows: vec![vec![8, 3], vec![4]] };
    assert!(check_wildcard_candidate(&mut c));
    assert_eq!(c.result.matched_token_indices, vec![3, 4, 8]);
    // consecutive positions in the wrong order do not pass
    let mut wrong = WildcardCandidate { result: page(2, None), rows: vec![vec![4], vec![3]] };
    assert!(!check_wildcard_candidate(&mut wrong));
    let cands = vec![
        WildcardCandidate { result: page(1, None), rows: vec![vec![3], vec![4]] },
        WildcardCandidate { result: page(2, None), rows: vec![vec![3], vec![9]] },
        WildcardCandidate { result: page(3, None), rows: vec![vec![], vec![]] },
        WildcardCandidate { result: page(4, None), rows: vec![vec![5, 6], vec![5]] },
    ];
    let kept = filter_wildcard(cands);
    assert_eq!(kept.iter().map(|r| r.id).collect::<Vec<_>>(), vec![1]);
    let r = wildcard_results(
        "كت*ب الله".to_string(),
        vec![
            WildcardCandidate { result: page(5, Some(9)), rows: vec![vec![0], vec![1]] },
            WildcardCandidate { result: page(6, Some(3)), rows: vec![vec![7], vec![8, 30]] },
            WildcardCandidate { result: page(7, None), rows: vec![vec![1], vec![0]] },
        ],
        0,
        20,
    );
    assert_eq!(r.total_hits, 2);
    assert_eq!(r.results.iter().map(|x| x.id).collect::<Vec<_>>(), vec![6, 5]);
    assert_eq!(r.results[0].matched_token_indices, vec![7, 8, 30]);
}

#[test]
fn fetch_sizes() {
    assert_eq!(fetch_count(10, 20), 30);
    assert_eq!(fetch_count(usize::MAX, 1), usize::MAX);
    assert_eq!(proximity_fetch_count(0, 20), 5000);
    assert_eq!(proximity_fetch_count(100, 200), 6000);
    assert_eq!(wildcard_fetch_count(0, 20, 2), 200);
    assert_eq!(wildcard_fetch_count(0, 20, 1), 20);
}

#[test]
fn simple_plan_term_and_phrase() {
    let p = simple_plan("الله", SearchMode::Lemma, &no_filter());
    assert_eq!(shape(&p), vec![vec!["Lemma:الله".to_string()]]);
    assert!(p.books.is_empty());
    let p = simple_plan("كِتَابُ اللهِ", SearchMode::Surface, &no_filter());
    assert_eq!(shape(&p), vec![vec!["Surface:\"كتاب الله\"".to_string()]]);
    let p = simple_plan("قرأ", SearchMode::Root, &no_filter());
    assert_eq!(shape(&p), vec![vec!["Root:ق.ر.#".to_string()]]);
}

#[test]
fn book_filter_in_plan() {
    let p = simple_plan("الله", SearchMode::Lemma, &books(vec![42]));
    assert_eq!(p.books, vec![42]);
    let p = simple_plan("الله", SearchMode::Lemma, &books(vec![]));
    assert!(p.books.is_empty());
}

#[test]
fn combined_plan_groups() {
    let and = vec![term("الله", SearchMode::Lemma)];
    let or = vec![term("ربي", SearchMode::Lemma), term("الرب", SearchMode::Lemma)];
    let p = combined_plan(&and, &or, &no_filter()).unwrap();
    assert_eq!(
        shape(&p),
        vec![
            vec!["Lemma:الله".to_string()],
            vec!["Lemma:ربي".to_string(), "Lemma:الرب".to_string()],
        ]
    );
    assert!(combined_plan(&vec![], &vec![], &no_filter()).is_none());
    let single = combined_plan(&vec![], &vec![term("علم", SearchMode::Lemma)], &no_filter()).unwrap();
    assert_eq!(shape(&single), vec![vec!["Lemma:علم".to_string()]]);
}

#[test]
fn proximity_plan_both_terms() {
    let p = proximity_plan(
        &term("محمد", SearchMode::Surface),
        &term("علي", SearchMode::Surface),
        &no_filter(),
    );
    assert_eq!(shape(&p), vec![vec!["Surface:محمد".to_string()], vec!["Surface:علي".to_string()]]);
}

#[test]
fn name_plan_forms() {
    let forms = vec![
        vec!["محمد".to_string(), "ومحمد".to_string()],
        vec![],
        vec!["علي".to_string(), "وعلي".to_string(), "ابن علي".to_string()],
    ];
    let p = name_plan(&forms, &no_filter()).unwrap();
    assert_eq!(
        shape(&p),
        vec![
            vec!["Surface:محمد".to_string(), "Surface:ومحمد".to_string()],
            vec![
                "Surface:علي".to_string(),
                "Surface:وعلي".to_string(),
                "Surface:\"ابن علي\"".to_string(),
            ],
        ]
    );
    assert!(name_plan(&vec![vec![], vec![]], &no_filter()).is_none());
}

#[test]
fn wildcard_plan_words() {
    let info = parse_wildcard_query("كت*ب الله");
    let p = wildcard_plan(&info, &no_filter());
    assert_eq!(
        shape(&p),
        vec![vec!["Surface:/كت.*ب/".to_string()], vec!["Surface:الله".to_string()]]
    );
}

#[test]
fn phrase_detection_and_terms() {
    assert!(is_phrase_search(&term("كتاب الله", SearchMode::Surface)));
    assert!(!is_phrase_search(&term(" كتاب ", SearchMode::Surface)));
    assert_eq!(normalize_term("أحمد", SearchMode::Lemma), "أحمد");
    assert_eq!(normalize_term("أحمد", SearchMode::Surface), "احمد");
    assert_eq!(format!("{:?}", IndexField::Root), "Root");
}

#[test]
fn name_highlights_first_form_only() {
    let forms = vec![vec![], vec!["محمد".to_string(), "ابن علي".to_string()], vec!["علي".to_string()]];
    let per_form = vec![
        vec![],
        vec![vec![vec![10]], vec![vec![3, 40], vec![4]]],
        vec![vec![vec![99]]],
    ];
    assert_eq!(name_highlight(&forms, &per_form), vec![3, 4, 10]);
    assert!(name_highlight(&vec![vec![]], &vec![]).is_empty());
}
