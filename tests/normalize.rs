use kashshaf::normalize::{
    normalize_arabic, normalize_for_match, normalize_arabic_for_search, normalize_root_query,
};
use kashshaf::text::split_words;

#[test]
fn surface_folds_hamza_and_alif() {
    assert_eq!(normalize_arabic("أحمد"), "احمد");
    assert_eq!(normalize_arabic("إسلام"), "اسلام");
    assert_eq!(normalize_arabic("آمن"), "امن");
    assert_eq!(normalize_arabic("مؤمن"), "مومن");
    assert_eq!(normalize_arabic("شيئ"), "شيي");
    assert_eq!(normalize_arabic("على"), "علي");
}

#[test]
fn surface_drops_marks() {
    assert_eq!(normalize_arabic("كِتَابٌ"), "كتاب");
    assert_eq!(normalize_arabic("\u{0671}لله"), "لله");
    assert_eq!(normalize_arabic("هٰذا"), "هذا");
}

#[test]
fn surface_folds_persian_letters() {
    assert_eq!(normalize_arabic("کگڭ"), "ككك");
    assert_eq!(normalize_arabic("ی ے"), "ي ي");
    assert_eq!(normalize_arabic("ۀەۃ"), "ههة");
    assert_eq!(normalize_arabic("ٹپچژڤڨ"), "تبجزفق");
}

#[test]
fn surface_keeps_other_text() {
    assert_eq!(normalize_arabic("abc  12"), "abc  12");
    assert_eq!(normalize_arabic(""), "");
}

#[test]
fn surface_normalization_is_idempotent_on_examples() {
    for s in ["أَحْمَدُ بْنُ حَنْبَلٍ", "کتاب", "مؤمنٌ", "plain"] {
        let once = normalize_arabic(s);
        assert_eq!(normalize_arabic(&once), once);
    }
    let r = normalize_root_query("قلم");
    assert_eq!(normalize_root_query(&r).len() > r.len(), true);
}

#[test]
fn match_and_search_forms_agree() {
    assert_eq!(normalize_for_match("أُمّة"), normalize_arabic("أُمّة"));
    assert_eq!(normalize_arabic_for_search("إِلى"), "الي");
}

#[test]
fn root_form_of_a_word() {
    assert_eq!(normalize_root_query("قرأ"), "ق.ر.#");
    assert_eq!(normalize_root_query("كتب"), "ك.ت.ب");
    assert_eq!(normalize_root_query("وعد"), "#.ع.د");
}

#[test]
fn root_form_of_several_words() {
    assert_eq!(normalize_root_query("  قرأ   كتب "), "ق.ر.# ك.ت.ب");
    assert_eq!(normalize_root_query(""), "");
    assert_eq!(normalize_root_query("ء"), "#");
}

#[test]
fn root_shape_has_one_dot_fewer_than_letters() {
    let r = normalize_root_query("استغفر");
    assert_eq!(r.chars().filter(|c| *c == '.').count(), 5);
    assert!(r.chars().all(|c| c == '#' || c == '.' || ('\u{621}'..='\u{64a}').contains(&c)));
}

#[test]
fn words_split_on_unicode_whitespace() {
    let s: Vec<char> = "a\u{3000}bc\t d\u{a0}".chars().collect();
    let w = split_words(&s);
    let got: Vec<String> = w.iter().map(|x| x.iter().collect()).collect();
    assert_eq!(got, vec!["a", "bc", "d"]);
}
