//! Arabic orthographic normalization, applied alike to indexed text and to
//! queries: the surface form and the dotted root form.
use vstd::prelude::*;
use crate::text::{
    is_space, words, join, no_space, char_rows, split_words, join_chars, chars_of, string_of,
    lemma_words_single, lemma_words_shape,
};

verus! {

/// Combining marks U+064B..U+065F, the dagger alif U+0670 and alif wasla U+0671.
pub open spec fn is_dropped_mark(c: char) -> bool {
    ('\u{64b}' <= c && c <= '\u{65f}') || c == '\u{670}' || c == '\u{671}'
}

/// What one character becomes in the surface form: `None` when it is dropped.
pub open spec fn fold_char(c: char) -> Option<char> {
    if is_dropped_mark(c) {
        None
    } else if c == '\u{623}' || c == '\u{625}' || c == '\u{622}' {
        Some('\u{627}')
    } else if c == '\u{624}' {
        Some('\u{648}')
    } else if c == '\u{626}' || c == '\u{649}' || c == '\u{6cc}' || c == '\u{6d2}' {
        Some('\u{64a}')
    } else if c == '\u{6a9}' || c == '\u{6af}' || c == '\u{6ad}' {
        Some('\u{643}')
    } else if c == '\u{6c0}' || c == '\u{6d5}' {
        Some('\u{647}')
    } else if c == '\u{6c3}' {
        Some('\u{629}')
    } else if c == '\u{679}' {
        Some('\u{62a}')
    } else if c == '\u{67e}' {
        Some('\u{628}')
    } else if c == '\u{686}' {
        Some('\u{62c}')
    } else if c == '\u{698}' {
        Some('\u{632}')
    } else if c == '\u{6a4}' {
        Some('\u{641}')
    } else if c == '\u{6a8}' {
        Some('\u{642}')
    } else {
        Some(c)
    }
}

/// The surface form: marks dropped, letter variants folded, all else kept.
pub open spec fn surface_normal(s: Seq<char>) -> Seq<char>
    decreases s.len(),
{
    if s.len() == 0 {
        seq![]
    } else {
        let p = surface_normal(s.drop_last());
        match fold_char(s.last()) {
            Some(c) => p.push(c),
            None => p,
        }
    }
}

/// Waw, ya, alif and hamza: written `#` in the root form.
pub open spec fn is_weak(c: char) -> bool {
    c == '\u{648}' || c == '\u{64a}' || c == '\u{627}' || c == '\u{621}'
}

pub open spec fn root_char(c: char) -> char {
    if is_weak(c) {
        '#'
    } else {
        c
    }
}

/// One word of the root form: each letter, weak ones as `#`, dots between.
pub open spec fn root_word(w: Seq<char>) -> Seq<char>
    decreases w.len(),
{
    if w.len() == 0 {
        seq![]
    } else if w.len() == 1 {
        seq![root_char(w[0])]
    } else {
        root_word(w.drop_last()).push('.').push(root_char(w.last()))
    }
}

/// The root form: surface form, then each word as `root_word`, words joined by
/// one space.
pub open spec fn root_normal(s: Seq<char>) -> Seq<char> {
    join(words(surface_normal(s)).map_values(|w: Seq<char>| root_word(w)), ' ')
}

/// Arabic letters: U+0621..U+064A and U+0671..U+06D3.
pub open spec fn is_arabic_letter(c: char) -> bool {
    ('\u{621}' <= c && c <= '\u{64a}') || ('\u{671}' <= c && c <= '\u{6d3}')
}

pub open spec fn count_of(s: Seq<char>, x: char) -> nat
    decreases s.len(),
{
    if s.len() == 0 {
        0
    } else {
        count_of(s.drop_last(), x) + if s.last() == x {
            1nat
        } else {
            0nat
        }
    }
}

pub fn fold_char_exec(c: char) -> (r: Option<char>)
    ensures
        r == fold_char(c),
{
    if ('\u{64b}' <= c && c <= '\u{65f}') || c == '\u{670}' || c == '\u{671}' {
        None
    } else if c == '\u{623}' || c == '\u{625}' || c == '\u{622}' {
        Some('\u{627}')
    } else if c == '\u{624}' {
        Some('\u{648}')
    } else if c == '\u{626}' || c == '\u{649}' || c == '\u{6cc}' || c == '\u{6d2}' {
        Some('\u{64a}')
    } else if c == '\u{6a9}' || c == '\u{6af}' || c == '\u{6ad}' {
        Some('\u{643}')
    } else if c == '\u{6c0}' || c == '\u{6d5}' {
        Some('\u{647}')
    } else if c == '\u{6c3}' {
        Some('\u{629}')
    } else if c == '\u{679}' {
        Some('\u{62a}')
    } else if c == '\u{67e}' {
        Some('\u{628}')
    } else if c == '\u{686}' {
        Some('\u{62c}')
    } else if c == '\u{698}' {
        Some('\u{632}')
    } else if c == '\u{6a4}' {
        Some('\u{641}')
    } else if c == '\u{6a8}' {
        Some('\u{642}')
    } else {
        Some(c)
    }
}

/// The surface form of a character sequence.
pub fn normalize_chars(s: &Vec<char>) -> (r: Vec<char>)
    ensures
        r@ == surface_normal(s@),
{
    let mut out: Vec<char> = Vec::new();
    let mut i: usize = 0;
    while i < s.len()
        invariant
            i <= s@.len(),
            out@ == surface_normal(s@.take(i as int)),
        decreases s@.len() - i,
    {
        assert(s@.take(i as int + 1).drop_last() =~= s@.take(i as int));
        match fold_char_exec(s[i]) {
            Some(c) => out.push(c),
            None => {},
        }
        i = i + 1;
    }
    assert(s@.take(s@.len() as int) =~= s@);
    out
}

/// Removes diacritics and unifies hamza, alif and Perso-Arabic letter variants.
pub fn normalize_arabic(text: &str) -> (r: String)
    ensures
        r@ == surface_normal(text@),
{
    let cs = chars_of(text);
    let n = normalize_chars(&cs);
    string_of(&n)
}

/// The form in which page surfaces are compared with query words.
pub fn normalize_for_match(text: &str) -> (r: String)
    ensures
        r@ == surface_normal(text@),
{
    normalize_arabic(text)
}

/// The form in which surface queries are looked up in the index.
pub fn normalize_arabic_for_search(text: &str) -> (r: String)
    ensures
        r@ == surface_normal(text@),
{
    normalize_arabic(text)
}

fn root_word_exec(w: &Vec<char>) -> (r: Vec<char>)
    ensures
        r@ == root_word(w@),
{
    let mut out: Vec<char> = Vec::new();
    let mut i: usize = 0;
    while i < w.len()
        invariant
            i <= w@.len(),
            out@ == root_word(w@.take(i as int)),
        decreases w@.len() - i,
    {
        let ghost t = w@.take(i as int + 1);
        assert(t.drop_last() =~= w@.take(i as int));
        if i > 0 {
            out.push('.');
        } else {
            assert(w@.take(0) =~= Seq::<char>::empty());
        }
        let c = w[i];
        let m = if c == '\u{648}' || c == '\u{64a}' || c == '\u{627}' || c == '\u{621}' {
            '#'
        } else {
            c
        };
        out.push(m);
        if i == 0 {
            assert(out@ =~= seq![root_char(t[0])]);
        }
        i = i + 1;
    }
    assert(w@.take(w@.len() as int) =~= w@);
    out
}

/// The root form of a query: surface form, letters split by dots, weak
/// letters written `#`.
pub fn normalize_root_query(query: &str) -> (r: String)
    ensures
        r@ == root_normal(query@),
{
    let cs = chars_of(query);
    let n = normalize_chars(&cs);
    let ws = split_words(&n);
    let mut rooted: Vec<Vec<char>> = Vec::new();
    let mut k: usize = 0;
    while k < ws.len()
        invariant
            k <= ws@.len(),
            char_rows(rooted@) == char_rows(ws@).take(k as int).map_values(
                |w: Seq<char>| root_word(w),
            ),
        decreases ws@.len() - k,
    {
        let ghost before = char_rows(rooted@);
        let rw = root_word_exec(&ws[k]);
        rooted.push(rw);
        assert(char_rows(rooted@) =~= before.push(rw@));
        assert(char_rows(ws@).take(k as int + 1).map_values(|w: Seq<char>| root_word(w))
            =~= char_rows(ws@).take(k as int).map_values(|w: Seq<char>| root_word(w)).push(
            root_word(ws@[k as int]@),
        ));
        k = k + 1;
    }
    assert(char_rows(ws@).take(ws@.len() as int) =~= char_rows(ws@));
    let joined = join_chars(&rooted, ' ');
    string_of(&joined)
}

proof fn lemma_fold_fixed(c: char)
    ensures
        fold_char(c) matches Some(d) ==> fold_char(d) == Some(d),
{
}

/// The surface form of a surface form is itself: normalizing twice changes
/// nothing.
pub proof fn surface_normalize_idempotent(s: Seq<char>)
    ensures
        surface_normal(surface_normal(s)) == surface_normal(s),
    decreases s.len(),
{
    if s.len() > 0 {
        surface_normalize_idempotent(s.drop_last());
        let p = surface_normal(s.drop_last());
        lemma_fold_fixed(s.last());
        match fold_char(s.last()) {
            Some(d) => {
                assert(p.push(d).drop_last() =~= p);
            },
            None => {},
        }
    }
}

proof fn lemma_surface_letters(s: Seq<char>)
    requires
        forall|i: int| 0 <= i < surface_normal(s).len() ==> is_arabic_letter(
            #[trigger] surface_normal(s)[i],
        ),
    ensures
        no_space(surface_normal(s)),
{
}

proof fn lemma_root_word_shape(w: Seq<char>)
    requires
        w.len() > 0,
        forall|i: int| 0 <= i < w.len() ==> is_arabic_letter(#[trigger] w[i]),
    ensures
        count_of(root_word(w), '.') == w.len() - 1,
        forall|i: int|
            0 <= i < root_word(w).len() ==> {
                let c = #[trigger] root_word(w)[i];
                c == '#' || c == '.' || (is_arabic_letter(c) && !is_weak(c))
            },
    decreases w.len(),
{
    if w.len() == 1 {
        let r = seq![root_char(w[0])];
        assert(r.drop_last() =~= Seq::<char>::empty());
        assert(count_of(r.drop_last(), '.') == 0);
    } else {
        let d = w.drop_last();
        assert forall|i: int| 0 <= i < d.len() implies is_arabic_letter(#[trigger] d[i]) by {
            assert(d[i] == w[i]);
        }
        lemma_root_word_shape(d);
        let a = root_word(d);
        let b = a.push('.');
        let r = b.push(root_char(w.last()));
        assert(r.drop_last() =~= b);
        assert(b.drop_last() =~= a);
        assert(count_of(b, '.') == count_of(a, '.') + 1);
        assert(root_char(w.last()) != '.');
        assert(count_of(r, '.') == count_of(b, '.'));
        assert forall|i: int| 0 <= i < r.len() implies {
            let c = #[trigger] r[i];
            c == '#' || c == '.' || (is_arabic_letter(c) && !is_weak(c))
        } by {
            if i < a.len() {
                assert(r[i] == a[i]);
            }
        }
    }
}

/// A one-word root of `n` Arabic letters (after surface normalization) has
/// `n - 1` dots in its root form, and every character of that form is `#`, a
/// dot, or an Arabic letter that is not weak.
pub proof fn root_normalize_shape(w: Seq<char>)
    requires
        surface_normal(w).len() > 0,
        forall|i: int| 0 <= i < surface_normal(w).len() ==> is_arabic_letter(
            #[trigger] surface_normal(w)[i],
        ),
    ensures
        count_of(root_normal(w), '.') == surface_normal(w).len() - 1,
        forall|i: int|
            0 <= i < root_normal(w).len() ==> {
                let c = #[trigger] root_normal(w)[i];
                c == '#' || c == '.' || (is_arabic_letter(c) && !is_weak(c))
            },
{
    let v = surface_normal(w);
    lemma_surface_letters(w);
    lemma_words_single(v);
    assert(seq![v].map_values(|x: Seq<char>| root_word(x)) =~= seq![root_word(v)]);
    lemma_root_word_shape(v);
}

/// Every character is its own surface form.
pub open spec fn all_fixed(s: Seq<char>) -> bool {
    forall|i: int| 0 <= i < s.len() ==> fold_char(#[trigger] s[i]) == Some(s[i])
}

proof fn lemma_surface_output_fixed(s: Seq<char>)
    ensures
        all_fixed(surface_normal(s)),
    decreases s.len(),
{
    if s.len() > 0 {
        lemma_surface_output_fixed(s.drop_last());
        lemma_fold_fixed(s.last());
        let p = surface_normal(s.drop_last());
        match fold_char(s.last()) {
            Some(d) => {
                assert forall|i: int| 0 <= i < p.push(d).len() implies fold_char(
                    #[trigger] p.push(d)[i],
                ) == Some(p.push(d)[i]) by {
                    if i < p.len() {
                        assert(p.push(d)[i] == p[i]);
                    }
                }
            },
            None => {},
        }
    }
}

proof fn lemma_surface_of_fixed(s: Seq<char>)
    requires
        all_fixed(s),
    ensures
        surface_normal(s) == s,
    decreases s.len(),
{
    if s.len() > 0 {
        let d = s.drop_last();
        assert(all_fixed(d)) by {
            assert forall|i: int| 0 <= i < d.len() implies fold_char(#[trigger] d[i]) == Some(d[i]) by {
                assert(d[i] == s[i]);
            }
        }
        lemma_surface_of_fixed(d);
        assert(fold_char(s[s.len() - 1]) == Some(s[s.len() - 1]));
        assert(d.push(s.last()) =~= s);
    }
}

/// The characters of the words of `s` are characters of `s`.
proof fn lemma_word_chars(s: Seq<char>)
    ensures
        forall|k: int, j: int|
            0 <= k < words(s).len() && 0 <= j < words(s)[k].len() ==> s.contains(
                #[trigger] words(s)[k][j],
            ),
    decreases s.len(),
{
    if s.len() > 0 {
        let d = s.drop_last();
        lemma_word_chars(d);
        let p = words(d);
        let c = s.last();
        let q = words(s);
        assert forall|k: int, j: int| 0 <= k < q.len() && 0 <= j < q[k].len() implies s.contains(
            #[trigger] q[k][j],
        ) by {
            if is_space(c) {
                assert(q[k][j] == p[k][j]);
                let i = choose|i: int| 0 <= i < d.len() && d[i] == p[k][j];
                assert(s[i] == d[i]);
            } else if s.len() > 1 && !is_space(s[s.len() - 2]) {
                if k < q.len() - 1 || j < p.last().len() {
                    let kk = if k < q.len() - 1 { k } else { p.len() - 1 };
                    assert(q[k][j] == p[kk][j]);
                    let i = choose|i: int| 0 <= i < d.len() && d[i] == p[kk][j];
                    assert(s[i] == d[i]);
                } else {
                    assert(q[k][j] == c);
                    assert(s[s.len() - 1] == c);
                }
            } else {
                if k < q.len() - 1 {
                    assert(q[k][j] == p[k][j]);
                    let i = choose|i: int| 0 <= i < d.len() && d[i] == p[k][j];
                    assert(s[i] == d[i]);
                } else {
                    assert(q[k][j] == c);
                    assert(s[s.len() - 1] == c);
                }
            }
        }
    }
}

/// Appending a space keeps the words.
proof fn lemma_words_space(a: Seq<char>, c: char)
    requires
        is_space(c),
    ensures
        words(a.push(c)) == words(a),
{
    assert(a.push(c).drop_last() =~= a);
}

/// After a space, a word of `n` characters starts a new word.
proof fn lemma_words_after_space(a: Seq<char>, w: Seq<char>, n: int)
    requires
        1 <= n <= w.len(),
        no_space(w),
    ensures
        words(a.push(' ') + w.take(n)) == words(a).push(w.take(n)),
    decreases n,
{
    let x = a.push(' ') + w.take(n);
    assert(x.drop_last() =~= a.push(' ') + w.take(n - 1));
    assert(x.last() == w[n - 1]);
    assert(!is_space(w[n - 1]));
    if n == 1 {
        assert(a.push(' ') + w.take(0) =~= a.push(' '));
        lemma_words_space(a, ' ');
        assert(x[x.len() - 2] == ' ');
        assert(w.take(1) =~= seq![w[0]]);
    } else {
        lemma_words_after_space(a, w, n - 1);
        assert(x[x.len() - 2] == w[n - 2]);
        assert(!is_space(w[n - 2]));
        let p = words(a).push(w.take(n - 1));
        assert(w.take(n - 1).push(w[n - 1]) =~= w.take(n));
        assert(p.drop_last() =~= words(a));
        assert(p.drop_last().push(p.last().push(w[n - 1])) =~= words(a).push(w.take(n)));
    }
}

/// Joining non-empty, space-free words with spaces and splitting again gives
/// the same words.
proof fn lemma_words_of_join(ws: Seq<Seq<char>>)
    requires
        forall|k: int| 0 <= k < ws.len() ==> (#[trigger] ws[k]).len() > 0 && no_space(ws[k]),
    ensures
        words(join(ws, ' ')) == ws,
    decreases ws.len(),
{
    if ws.len() == 1 {
        lemma_words_single(ws[0]);
        assert(seq![ws[0]] =~= ws);
    } else if ws.len() > 1 {
        let d = ws.drop_last();
        assert forall|k: int| 0 <= k < d.len() implies (#[trigger] d[k]).len() > 0 && no_space(d[k]) by {
            assert(d[k] == ws[k]);
        }
        lemma_words_of_join(d);
        let w = ws.last();
        lemma_words_after_space(join(d, ' '), w, w.len() as int);
        assert(w.take(w.len() as int) =~= w);
        assert(d.push(w) =~= ws);
    } else {
        assert(join(ws, ' ') =~= Seq::<char>::empty());
        assert(ws =~= Seq::<Seq<char>>::empty());
    }
}

proof fn lemma_join_fixed(ws: Seq<Seq<char>>)
    requires
        forall|k: int| 0 <= k < ws.len() ==> all_fixed(#[trigger] ws[k]),
    ensures
        all_fixed(join(ws, ' ')),
    decreases ws.len(),
{
    if ws.len() > 1 {
        let d = ws.drop_last();
        assert forall|k: int| 0 <= k < d.len() implies all_fixed(#[trigger] d[k]) by {
            assert(d[k] == ws[k]);
        }
        lemma_join_fixed(d);
        let a = join(d, ' ').push(' ');
        let j = a + ws.last();
        assert(all_fixed(ws[ws.len() - 1]));
        assert forall|i: int| 0 <= i < j.len() implies fold_char(#[trigger] j[i]) == Some(j[i]) by {
            if i < a.len() - 1 {
                assert(j[i] == join(d, ' ')[i]);
            } else if i == a.len() - 1 {
                assert(j[i] == ' ');
            } else {
                assert(j[i] == ws.last()[i - a.len()]);
            }
        }
    } else if ws.len() == 1 {
        assert(all_fixed(ws[0]));
    }
}

/// The root form of a root form is itself exactly when every word of the
/// surface form is a single letter (longer words gain dots at every pass).
pub proof fn root_normalize_idempotent(s: Seq<char>)
    requires
        forall|k: int|
            0 <= k < words(surface_normal(s)).len() ==> (#[trigger] words(surface_normal(s))[k]).len()
                <= 1,
    ensures
        root_normal(root_normal(s)) == root_normal(s),
{
    let v = surface_normal(s);
    let ws = words(v);
    lemma_words_shape(v);
    lemma_word_chars(v);
    lemma_surface_output_fixed(s);
    let rs = ws.map_values(|w: Seq<char>| root_word(w));
    assert forall|k: int| 0 <= k < rs.len() implies (#[trigger] rs[k]).len() > 0 && no_space(rs[k])
        && all_fixed(rs[k]) && rs[k] == seq![root_char(ws[k][0])] by {
        assert(ws[k].len() == 1);
        assert(rs[k] == root_word(ws[k]));
        assert(v.contains(ws[k][0]));
        let i = choose|i: int| 0 <= i < v.len() && v[i] == ws[k][0];
        assert(fold_char(v[i]) == Some(v[i]));
        assert(!is_space(ws[k][0]));
        assert(fold_char('#') == Some('#'));
    }
    let r = join(rs, ' ');
    lemma_join_fixed(rs);
    lemma_surface_of_fixed(r);
    lemma_words_of_join(rs);
    assert(rs.map_values(|w: Seq<char>| root_word(w)) =~= rs) by {
        assert forall|k: int| 0 <= k < rs.len() implies root_word(#[trigger] rs[k]) == rs[k] by {
            let c = root_char(ws[k][0]);
            assert(rs[k] == seq![c]);
            assert(root_char(c) == c);
        }
    }
}

} // verus!
