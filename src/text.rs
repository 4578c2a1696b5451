//! Characters, whitespace-separated words and the string conversions the
//! rest of the library builds on.
use vstd::prelude::*;

verus! {

/// The characters that `char::is_whitespace` accepts (Unicode `White_Space`).
pub open spec fn is_space(c: char) -> bool {
    ('\u{9}' <= c && c <= '\u{d}') || c == ' ' || c == '\u{85}' || c == '\u{a0}' || c
        == '\u{1680}' || ('\u{2000}' <= c && c <= '\u{200a}') || c == '\u{2028}' || c
        == '\u{2029}' || c == '\u{202f}' || c == '\u{205f}' || c == '\u{3000}'
}

pub fn is_space_char(c: char) -> (r: bool)
    ensures
        r == is_space(c),
{
    ('\u{9}' <= c && c <= '\u{d}') || c == ' ' || c == '\u{85}' || c == '\u{a0}' || c
        == '\u{1680}' || ('\u{2000}' <= c && c <= '\u{200a}') || c == '\u{2028}' || c
        == '\u{2029}' || c == '\u{202f}' || c == '\u{205f}' || c == '\u{3000}'
}

/// The maximal runs of non-space characters of `s`, left to right
/// (what `str::split_whitespace` yields).
pub open spec fn words(s: Seq<char>) -> Seq<Seq<char>>
    decreases s.len(),
{
    if s.len() == 0 {
        seq![]
    } else {
        let p = words(s.drop_last());
        let c = s.last();
        if is_space(c) {
            p
        } else if s.len() > 1 && !is_space(s[s.len() - 2]) {
            p.drop_last().push(p.last().push(c))
        } else {
            p.push(seq![c])
        }
    }
}

/// `ws` joined with `sep` between consecutive items.
pub open spec fn join(ws: Seq<Seq<char>>, sep: char) -> Seq<char>
    decreases ws.len(),
{
    if ws.len() == 0 {
        seq![]
    } else if ws.len() == 1 {
        ws[0]
    } else {
        join(ws.drop_last(), sep).push(sep) + ws.last()
    }
}

pub open spec fn no_space(w: Seq<char>) -> bool {
    forall|i: int| 0 <= i < w.len() ==> !is_space(#[trigger] w[i])
}

pub open spec fn char_rows(v: Seq<Vec<char>>) -> Seq<Seq<char>> {
    v.map_values(|w: Vec<char>| w@)
}

pub open spec fn string_rows(v: Seq<String>) -> Seq<Seq<char>> {
    v.map_values(|w: String| w@)
}

/// Every word is non-empty and holds no space.
pub proof fn lemma_words_shape(s: Seq<char>)
    ensures
        forall|k: int|
            0 <= k < words(s).len() ==> #[trigger] words(s)[k].len() > 0 && no_space(
                words(s)[k],
            ),
        s.len() > 0 && !is_space(s.last()) ==> words(s).len() > 0,
    decreases s.len(),
{
    if s.len() > 0 {
        lemma_words_shape(s.drop_last());
        let p = words(s.drop_last());
        let c = s.last();
        if is_space(c) {
        } else if s.len() > 1 && !is_space(s[s.len() - 2]) {
            assert(s.drop_last().last() == s[s.len() - 2]);
            let w = p.last().push(c);
            assert(no_space(w)) by {
                assert forall|i: int| 0 <= i < w.len() implies !is_space(#[trigger] w[i]) by {
                    if i < p.last().len() {
                        assert(w[i] == p.last()[i]);
                    }
                }
            }
            let q = p.drop_last().push(w);
            assert forall|k: int| 0 <= k < q.len() implies #[trigger] q[k].len() > 0 && no_space(
                q[k],
            ) by {
                if k < q.len() - 1 {
                    assert(q[k] == p[k]);
                }
            }
        } else {
            let q = p.push(seq![c]);
            assert forall|k: int| 0 <= k < q.len() implies #[trigger] q[k].len() > 0 && no_space(
                q[k],
            ) by {
                if k < q.len() - 1 {
                    assert(q[k] == p[k]);
                }
            }
        }
    }
}

/// A non-empty run without spaces is one word.
pub proof fn lemma_words_single(w: Seq<char>)
    requires
        w.len() > 0,
        no_space(w),
    ensures
        words(w) == seq![w],
    decreases w.len(),
{
    if w.len() == 1 {
        assert(w.drop_last() =~= Seq::<char>::empty());
        assert(words(w.drop_last()) =~= Seq::<Seq<char>>::empty());
        assert(seq![w[0]] =~= w);
    } else {
        let d = w.drop_last();
        assert(no_space(d)) by {
            assert forall|i: int| 0 <= i < d.len() implies !is_space(#[trigger] d[i]) by {
                assert(d[i] == w[i]);
            }
        }
        lemma_words_single(d);
        assert(!is_space(w[w.len() - 2]));
        assert(!is_space(w.last()));
        assert(d.push(w.last()) =~= w);
        assert(seq![d].drop_last().push(d.push(w.last())) =~= seq![w]);
    }
}

/// Splits `s` at whitespace, as `str::split_whitespace` does.
pub fn split_words(s: &Vec<char>) -> (r: Vec<Vec<char>>)
    ensures
        char_rows(r@) == words(s@),
{
    let mut out: Vec<Vec<char>> = Vec::new();
    let mut cur: Vec<char> = Vec::new();
    let n = s.len();
    let mut i: usize = 0;
    while i < n
        invariant
            i <= n,
            n == s@.len(),
            cur@.len() == 0 ==> char_rows(out@) == words(s@.take(i as int)) && (i == 0
                || is_space(s@[i - 1])),
            cur@.len() > 0 ==> char_rows(out@).push(cur@) == words(s@.take(i as int)) && i > 0
                && !is_space(s@[i - 1]),
        decreases n - i,
    {
        let c = s[i];
        let ghost t = s@.take(i as int + 1);
        assert(t.drop_last() =~= s@.take(i as int));
        assert(t.last() == c);
        if is_space_char(c) {
            if cur.len() > 0 {
                let ghost before = char_rows(out@);
                let w = cur;
                cur = Vec::new();
                out.push(w);
                assert(char_rows(out@) =~= before.push(w@));
            }
        } else {
            let ghost rows = char_rows(out@);
            let ghost old_cur = cur@;
            let extends = cur.len() > 0;
            cur.push(c);
            if extends {
                assert(t[t.len() - 2] == s@[i - 1]);
                let ghost p = rows.push(old_cur);
                assert(p.drop_last() =~= rows);
                assert(rows.push(cur@) =~= p.drop_last().push(p.last().push(c)));
            } else {
                if i > 0 {
                    assert(t[t.len() - 2] == s@[i - 1]);
                }
                assert(cur@ =~= seq![c]);
            }
        }
        i = i + 1;
    }
    assert(s@.take(n as int) =~= s@);
    if cur.len() > 0 {
        let ghost before = char_rows(out@);
        out.push(cur);
        assert(char_rows(out@) =~= before.push(char_rows(out@).last()));
    }
    out
}

/// Joins `ws` with `sep` between consecutive items.
pub fn join_chars(ws: &Vec<Vec<char>>, sep: char) -> (r: Vec<char>)
    ensures
        r@ == join(char_rows(ws@), sep),
{
    let mut out: Vec<char> = Vec::new();
    let mut k: usize = 0;
    while k < ws.len()
        invariant
            k <= ws@.len(),
            out@ == join(char_rows(ws@).take(k as int), sep),
        decreases ws@.len() - k,
    {
        let ghost rows = char_rows(ws@).take(k as int + 1);
        assert(rows.drop_last() =~= char_rows(ws@).take(k as int));
        if k > 0 {
            out.push(sep);
        } else {
            assert(char_rows(ws@).take(0) =~= Seq::<Seq<char>>::empty());
        }
        let w = &ws[k];
        let mut j: usize = 0;
        let ghost base = out@;
        while j < w.len()
            invariant
                j <= w@.len(),
                out@ == base + w@.take(j as int),
            decreases w@.len() - j,
        {
            out.push(w[j]);
            assert(w@.take(j as int + 1) =~= w@.take(j as int).push(w@[j as int]));
            j = j + 1;
        }
        assert(w@.take(w@.len() as int) =~= w@);
        if k == 0 {
            assert(base =~= Seq::<char>::empty());
            assert(out@ =~= w@);
        }
        k = k + 1;
    }
    assert(char_rows(ws@).take(ws@.len() as int) =~= char_rows(ws@));
    out
}

/// Relies on `str::chars`: the characters of `s` in order.
#[verifier::external_body]
pub(crate) fn chars_of(s: &str) -> (r: Vec<char>)
    ensures
        r@ == s@,
{
    s.chars().collect()
}

/// Relies on `String::from_iter` over `char`: the string of these characters.
#[verifier::external_body]
pub(crate) fn string_of(v: &Vec<char>) -> (r: String)
    ensures
        r@ == v@,
{
    v.iter().collect()
}

} // verus!
