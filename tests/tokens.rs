use std::collections::HashMap;
use kashshaf::tokens::{
    decode_token_ids, id_batches, hydrate_tokens, find_positions, wildcard_phrase_positions,
    same_text, LookupTables, PageKey, Token, TokenClitic, TokenDef, TokenField,
};
use kashshaf::cache::TokenCache;
use kashshaf::digest::{digest_matches, file_hash_matches, feature_list};

fn tables() -> LookupTables {
    let mut roots = HashMap::new();
    roots.insert(1i64, "ك.ت.ب".to_string());
    let mut lemmas = HashMap::new();
    lemmas.insert(10i64, "كتاب".to_string());
    lemmas.insert(11i64, "الله".to_string());
    let mut pos_types = HashMap::new();
    pos_types.insert(5i64, "noun".to_string());
    let mut feature_sets = HashMap::new();
    feature_sets.insert(7i64, vec!["sg".to_string(), "m".to_string()]);
    let mut clitic_sets = HashMap::new();
    clitic_sets.insert(8i64, vec![TokenClitic { clitic_type: "proclitic".to_string(), display: "و".to_string() }]);
    LookupTables { roots, lemmas, pos_types, feature_sets, clitic_sets }
}

fn defs() -> HashMap<u32, TokenDef> {
    let mut d = HashMap::new();
    d.insert(100u32, TokenDef { surface: "كِتَابُ".to_string(), lemma_id: 10, root_id: Some(1), pos_id: 5, feature_set_id: 7, clitic_set_id: 8 });
    d.insert(200u32, TokenDef { surface: "اللهِ".to_string(), lemma_id: 11, root_id: None, pos_id: 5, feature_set_id: 99, clitic_set_id: 99 });
    d.insert(300u32, TokenDef { surface: "x".to_string(), lemma_id: 12, root_id: None, pos_id: 5, feature_set_id: 7, clitic_set_id: 8 });
    d
}

fn tok(idx: usize, surface: &str) -> Token {
    Token {
        idx,
        surface: surface.to_string(),
        noclitic_surface: None,
        lemma: surface.to_string(),
        root: None,
        pos: "n".to_string(),
        features: vec![],
        clitics: vec![],
    }
}

#[test]
fn blob_decodes_little_endian() {
    let blob = vec![1, 0, 0, 0, 0x78, 0x56, 0x34, 0x12, 9];
    assert_eq!(decode_token_ids(&blob), vec![1, 0x12345678]);
    assert_eq!(decode_token_ids(&vec![]), Vec::<u32>::new());
}

#[test]
fn id_batches_of_five_hundred() {
    let ids: Vec<u32> = (0..1201).collect();
    let b = id_batches(&ids, 500);
    assert_eq!(b.iter().map(|c| c.len()).collect::<Vec<_>>(), vec![500, 500, 201]);
    assert_eq!(b.concat(), ids);
    assert!(id_batches(&vec![], 500).is_empty());
}

#[test]
fn hydration_joins_tables_and_drops_unknown() {
    let t = tables();
    let toks = hydrate_tokens(&vec![100, 999, 200, 300, 100], &defs(), &t);
    assert_eq!(toks.len(), 3);
    assert_eq!(toks[0].idx, 0);
    assert_eq!(toks[0].lemma, "كتاب");
    assert_eq!(toks[0].root.as_deref(), Some("ك.ت.ب"));
    assert_eq!(toks[0].features, vec!["sg".to_string(), "m".to_string()]);
    assert_eq!(toks[0].clitics[0].display, "و");
    assert_eq!(toks[1].idx, 2);
    assert_eq!(toks[1].root, None);
    assert!(toks[1].features.is_empty());
    assert!(toks[1].clitics.is_empty());
    assert_eq!(toks[2].idx, 4);
}

#[test]
fn field_matching() {
    let mut t = tok(0, "كتاب");
    assert!(TokenField::Surface.matches(&t, "كتاب"));
    assert!(!TokenField::Root.matches(&t, "كتاب"));
    assert_eq!(TokenField::Root.get_value(&t), None);
    t.root = Some("ك.ت.ب".to_string());
    assert_eq!(TokenField::Root.get_value(&t), Some("ك.ت.ب"));
    assert!(TokenField::Root.matches(&t, "ك.ت.ب"));
    assert!(same_text("ab", "ab"));
    assert!(!same_text("ab", "abc"));
}

#[test]
fn positions_of_a_value() {
    let toks = vec![tok(0, "a"), tok(1, "b"), tok(2, "a")];
    assert_eq!(find_positions(&toks, TokenField::Lemma, "a"), vec![0, 2]);
    assert_eq!(find_positions(&toks, TokenField::Root, "a"), Vec::<usize>::new());
}

#[test]
fn wildcard_phrase_on_tokens() {
    let toks = vec![tok(0, "معرفة"), tok(1, "اللهِ"), tok(2, "معرفة"), tok(3, "زيد"), tok(4, "معرفة"), tok(5, "الله")];
    let terms = vec!["معر*فة".to_string(), "الله".to_string()];
    assert_eq!(wildcard_phrase_positions(&toks, "معر", Some("فة"), 0, &terms), vec![0, 1, 4, 5]);
    assert_eq!(wildcard_phrase_positions(&toks, "زي", None, 0, &vec!["زي*".to_string()]), vec![3]);
    assert_eq!(wildcard_phrase_positions(&toks, "معر", Some("فة"), 0, &vec![]), Vec::<u32>::new());
    let same = vec![tok(0, "a"), tok(1, "a"), tok(2, "a"), tok(3, "a")];
    let three = vec!["a*".to_string(), "a".to_string(), "a".to_string()];
    assert_eq!(wildcard_phrase_positions(&same, "a", None, 0, &three), vec![0, 1, 2, 3]);
}

#[test]
fn cache_fill_then_hit() {
    let mut c = TokenCache::new(tables(), 0);
    assert_eq!(c.stats(), (0, 1000));
    let key = PageKey::new(1, 2, 3);
    assert!(c.get(&key).is_none());
    let page = c.fill(&key, &vec![100, 200], &defs());
    assert_eq!(page.len(), 2);
    let hit = c.get(&key).unwrap();
    assert_eq!(hit.len(), 2);
    assert_eq!(c.find_positions(&key, TokenField::Lemma, "الله"), Some(vec![1]));
    let terms = vec!["كت*".to_string(), "الله".to_string()];
    assert_eq!(c.find_wildcard_phrase_positions(&key, "كت", None, 0, &terms), Some(vec![0, 1]));
    assert_eq!(c.find_positions(&PageKey::new(9, 9, 9), TokenField::Lemma, "x"), None);
    assert_eq!(c.stats(), (1, 1000));
    c.clear();
    assert_eq!(c.stats(), (0, 1000));
}

#[test]
fn cache_evicts_when_full() {
    let mut c = TokenCache::new(tables(), 1);
    c.fill(&PageKey::new(1, 0, 1), &vec![100], &defs());
    c.fill(&PageKey::new(1, 0, 2), &vec![200], &defs());
    assert_eq!(c.stats(), (1, 1));
    assert!(c.get(&PageKey::new(1, 0, 1)).is_none());
    assert!(c.get(&PageKey::new(1, 0, 2)).is_some());
}

#[test]
fn digest_hex_comparison() {
    let abc = "ba7816bf8f01cfea414140de5dae2223b00361a396177a9cb410ff61f20015ad";
    assert!(file_hash_matches(&b"abc".to_vec(), abc));
    assert!(file_hash_matches(&b"abc".to_vec(), &format!("sha256:{}", abc)));
    assert!(!file_hash_matches(&b"abd".to_vec(), abc));
    assert!(digest_matches(&vec![0x0f, 0xa0], "0fa0"));
    assert!(!digest_matches(&vec![0x0f, 0xa0], "0FA0"));
    assert!(digest_matches(&vec![], "sha256:"));
}

#[test]
fn feature_json_lists() {
    assert_eq!(feature_list("[\"a\",\"b\"]"), vec!["a".to_string(), "b".to_string()]);
    assert!(feature_list("not json").is_empty());
    assert!(feature_list("[1,2]").is_empty());
}
