//! Wildcard queries: validation, parsing into prefix and suffix, the regular
//! expression that selects candidate tokens, and token-level phrase checks.
use vstd::prelude::*;
use crate::text::{words, char_rows, string_rows, split_words, chars_of, string_of};

verus! {

#[derive(Debug, Clone, Copy, PartialEq, Eq, Structural)]
pub enum SearchMode {
    Surface,
    Lemma,
    Root,
}

impl Default for SearchMode {
    fn default() -> (r: SearchMode)
        ensures
            r == SearchMode::Lemma,
    {
        SearchMode::Lemma
    }
}

#[derive(Debug, Clone)]
pub struct WildcardValidationError {
    pub message: String,
}

#[derive(Debug, Clone, Copy, PartialEq, Eq, Structural)]
pub enum WildcardType {
    Plain,
    Prefix,
    Internal,
}

#[derive(Debug, Clone)]
pub struct WildcardQueryInfo {
    pub has_wildcard: bool,
    pub wildcard_term_index: usize,
    pub wildcard_type: WildcardType,
    pub prefix: String,
    pub suffix: Option<String>,
    pub terms: Vec<String>,
}

/// Index of the first `*` in `w`, or `w.len()` when there is none.
pub open spec fn first_star(w: Seq<char>) -> int
    decreases w.len(),
{
    if w.len() == 0 {
        0
    } else {
        let f = first_star(w.drop_last());
        if f < w.len() - 1 {
            f
        } else if w.last() == '*' {
            w.len() - 1
        } else {
            w.len() as int
        }
    }
}

/// Index of the first word holding a `*`, or `ws.len()` when none does.
pub open spec fn star_word(ws: Seq<Seq<char>>) -> int
    decreases ws.len(),
{
    if ws.len() == 0 {
        0
    } else {
        let f = star_word(ws.drop_last());
        if f < ws.len() - 1 {
            f
        } else if first_star(ws.last()) < ws.last().len() {
            ws.len() - 1
        } else {
            ws.len() as int
        }
    }
}

pub open spec fn star_count(s: Seq<char>) -> nat
    decreases s.len(),
{
    if s.len() == 0 {
        0
    } else {
        star_count(s.drop_last()) + if s.last() == '*' {
            1nat
        } else {
            0nat
        }
    }
}

/// Letters of U+0621..U+064A and U+0671..U+06D3 in `s`.
pub open spec fn arabic_count(s: Seq<char>) -> nat
    decreases s.len(),
{
    if s.len() == 0 {
        0
    } else {
        arabic_count(s.drop_last()) + if ('\u{621}' <= s.last() && s.last() <= '\u{64a}') || (
        '\u{671}' <= s.last() && s.last() <= '\u{6d3}') {
            1nat
        } else {
            0nat
        }
    }
}

/// The message with which a wildcard query is rejected, if it is.
pub open spec fn wildcard_rejection(q: Seq<char>, mode: SearchMode) -> Option<Seq<char>> {
    let ws = words(q);
    let k = star_word(ws);
    if star_count(q) == 0 {
        None
    } else if mode != SearchMode::Surface {
        Some("Wildcards only supported in Surface mode"@)
    } else if star_count(q) > 1 {
        Some("Only one wildcard (*) allowed per search term"@)
    } else if k >= ws.len() {
        None
    } else if first_star(ws[k]) == 0 {
        Some("Wildcard cannot be at start of word"@)
    } else if first_star(ws[k]) < ws[k].len() - 1 && arabic_count(ws[k].take(first_star(ws[k])))
        < 2 {
        Some("Internal wildcard requires at least 2 characters before it"@)
    } else {
        None
    }
}

fn first_star_exec(w: &Vec<char>) -> (r: usize)
    ensures
        r as int == first_star(w@),
        r <= w@.len(),
{
    let mut i: usize = 0;
    while i < w.len()
        invariant
            i <= w@.len(),
            first_star(w@.take(i as int)) == i as int,
        decreases w@.len() - i,
    {
        assert(w@.take(i as int + 1).drop_last() =~= w@.take(i as int));
        if w[i] == '*' {
            proof { lemma_first_star_prefix(w@, i as int + 1); }
            return i;
        }
        i = i + 1;
    }
    assert(w@.take(w@.len() as int) =~= w@);
    i
}

proof fn lemma_first_star_prefix(w: Seq<char>, n: int)
    requires
        0 <= n <= w.len(),
        first_star(w.take(n)) < n,
    ensures
        first_star(w) == first_star(w.take(n)),
    decreases w.len() - n,
{
    if n < w.len() {
        assert(w.take(n + 1).drop_last() =~= w.take(n));
        lemma_first_star_prefix(w, n + 1);
    } else {
        assert(w.take(n) =~= w);
    }
}

fn star_count_exec(s: &Vec<char>) -> (r: usize)
    ensures
        r as nat == star_count(s@),
{
    let mut i: usize = 0;
    let mut n: usize = 0;
    while i < s.len()
        invariant
            i <= s@.len(),
            n as nat == star_count(s@.take(i as int)),
            n <= i,
        decreases s@.len() - i,
    {
        assert(s@.take(i as int + 1).drop_last() =~= s@.take(i as int));
        if s[i] == '*' {
            n = n + 1;
        }
        i = i + 1;
    }
    assert(s@.take(s@.len() as int) =~= s@);
    n
}

fn arabic_count_exec(s: &Vec<char>, end: usize) -> (r: usize)
    requires
        end <= s@.len(),
    ensures
        r as nat == arabic_count(s@.take(end as int)),
{
    let mut i: usize = 0;
    let mut n: usize = 0;
    while i < end
        invariant
            i <= end <= s@.len(),
            n as nat == arabic_count(s@.take(i as int)),
            n <= i,
        decreases end - i,
    {
        assert(s@.take(i as int + 1).drop_last() =~= s@.take(i as int));
        let c = s[i];
        if ('\u{621}' <= c && c <= '\u{64a}') || ('\u{671}' <= c && c <= '\u{6d3}') {
            n = n + 1;
        }
        i = i + 1;
    }
    n
}

/// Finds the first word holding a `*`: its index, or the number of words.
fn star_word_exec(ws: &Vec<Vec<char>>) -> (r: usize)
    ensures
        r as int == star_word(char_rows(ws@)),
{
    let mut k: usize = 0;
    while k < ws.len()
        invariant
            k <= ws@.len(),
            star_word(char_rows(ws@).take(k as int)) == k as int,
        decreases ws@.len() - k,
    {
        let ghost t = char_rows(ws@).take(k as int + 1);
        assert(t.drop_last() =~= char_rows(ws@).take(k as int));
        let f = first_star_exec(&ws[k]);
        if f < ws[k].len() {
            proof { lemma_star_word_prefix(char_rows(ws@), k as int + 1); }
            return k;
        }
        k = k + 1;
    }
    assert(char_rows(ws@).take(ws@.len() as int) =~= char_rows(ws@));
    k
}

proof fn lemma_star_word_prefix(ws: Seq<Seq<char>>, n: int)
    requires
        0 <= n <= ws.len(),
        star_word(ws.take(n)) < n,
    ensures
        star_word(ws) == star_word(ws.take(n)),
    decreases ws.len() - n,
{
    if n < ws.len() {
        assert(ws.take(n + 1).drop_last() =~= ws.take(n));
        lemma_star_word_prefix(ws, n + 1);
    } else {
        assert(ws.take(n) =~= ws);
    }
}

/// Checks a query that may carry a `*`: surface mode only, one `*` at most,
/// never first in its word, and an internal `*` after two Arabic letters.
pub fn validate_wildcard_query(query: &str, mode: SearchMode) -> (r: Result<
    (),
    WildcardValidationError,
>)
    ensures
        r is Ok <==> wildcard_rejection(query@, mode) is None,
        r is Err ==> wildcard_rejection(query@, mode) == Some(r->Err_0.message@),
{
    let cs = chars_of(query);
    let stars = star_count_exec(&cs);
    if stars == 0 {
        return Ok(());
    }
    if mode != SearchMode::Surface {
        return Err(
            WildcardValidationError {
                message: String::from_str("Wildcards only supported in Surface mode"),
            },
        );
    }
    if stars > 1 {
        return Err(
            WildcardValidationError {
                message: String::from_str("Only one wildcard (*) allowed per search term"),
            },
        );
    }
    let ws = split_words(&cs);
    let k = star_word_exec(&ws);
    if k >= ws.len() {
        return Ok(());
    }
    let w = &ws[k];
    let f = first_star_exec(w);
    if f == 0 {
        return Err(
            WildcardValidationError {
                message: String::from_str("Wildcard cannot be at start of word"),
            },
        );
    }
    if w.len() > 0 && f < w.len() - 1 && arabic_count_exec(w, f) < 2 {
        return Err(
            WildcardValidationError {
                message: String::from_str(
                    "Internal wildcard requires at least 2 characters before it",
                ),
            },
        );
    }
    Ok(())
}

/// What `parse_wildcard_query` finds in `q`.
pub open spec fn parsed_wildcard(q: Seq<char>, r: WildcardQueryInfo) -> bool {
    let ws = words(q);
    let k = star_word(ws);
    &&& string_rows(r.terms@) == ws
    &&& r.has_wildcard == (k < ws.len())
    &&& if k < ws.len() {
        let w = ws[k];
        let f = first_star(w);
        &&& r.wildcard_term_index == k
        &&& r.prefix@ == w.take(f)
        &&& if f < w.len() - 1 {
            &&& r.wildcard_type == WildcardType::Internal
            &&& r.suffix matches Some(x) && x@ == w.subrange(f + 1, w.len() as int)
        } else {
            r.wildcard_type == WildcardType::Prefix && r.suffix is None
        }
    } else {
        &&& r.wildcard_term_index == 0
        &&& r.wildcard_type == WildcardType::Plain
        &&& r.prefix@.len() == 0
        &&& r.suffix is None
    }
}

fn sub_string(w: &Vec<char>, from: usize, to: usize) -> (r: String)
    requires
        from <= to <= w@.len(),
    ensures
        r@ == w@.subrange(from as int, to as int),
{
    let mut part: Vec<char> = Vec::new();
    let mut i = from;
    while i < to
        invariant
            from <= i <= to <= w@.len(),
            part@ == w@.subrange(from as int, i as int),
        decreases to - i,
    {
        part.push(w[i]);
        assert(part@ =~= w@.subrange(from as int, i as int + 1));
        i = i + 1;
    }
    string_of(&part)
}

/// The strings of `ws`, in order.
pub fn strings_of(ws: &Vec<Vec<char>>) -> (r: Vec<String>)
    ensures
        string_rows(r@) == char_rows(ws@),
{
    let mut out: Vec<String> = Vec::new();
    let mut k: usize = 0;
    while k < ws.len()
        invariant
            k <= ws@.len(),
            string_rows(out@) == char_rows(ws@).take(k as int),
        decreases ws@.len() - k,
    {
        let ghost before = string_rows(out@);
        let s = string_of(&ws[k]);
        out.push(s);
        assert(string_rows(out@) =~= before.push(s@));
        assert(char_rows(ws@).take(k as int + 1) =~= char_rows(ws@).take(k as int).push(
            ws@[k as int]@,
        ));
        k = k + 1;
    }
    assert(char_rows(ws@).take(ws@.len() as int) =~= char_rows(ws@));
    out
}

/// Splits a query into words and locates the first `*`: its word, the text
/// before it and, for an internal `*`, the text after it.
pub fn parse_wildcard_query(query: &str) -> (r: WildcardQueryInfo)
    ensures
        parsed_wildcard(query@, r),
{
    let cs = chars_of(query);
    let ws = split_words(&cs);
    let terms = strings_of(&ws);
    let k = star_word_exec(&ws);
    if k >= ws.len() {
        return WildcardQueryInfo {
            has_wildcard: false,
            wildcard_term_index: 0,
            wildcard_type: WildcardType::Plain,
            prefix: String::new(),
            suffix: None,
            terms,
        };
    }
    let w = &ws[k];
    let f = first_star_exec(w);
    let prefix = sub_string(w, 0, f);
    assert(w@.subrange(0, f as int) =~= w@.take(f as int));
    if w.len() > 0 && f < w.len() - 1 {
        let suffix = sub_string(w, f + 1, w.len());
        WildcardQueryInfo {
            has_wildcard: true,
            wildcard_term_index: k,
            wildcard_type: WildcardType::Internal,
            prefix,
            suffix: Some(suffix),
            terms,
        }
    } else {
        WildcardQueryInfo {
            has_wildcard: true,
            wildcard_term_index: k,
            wildcard_type: WildcardType::Prefix,
            prefix,
            suffix: None,
            terms,
        }
    }
}

/// Characters that a regular expression reads as operators.
pub open spec fn is_regex_meta(c: char) -> bool {
    c == '.' || c == '+' || c == '*' || c == '?' || c == '^' || c == '$' || c == '(' || c == ')'
        || c == '[' || c == ']' || c == '{' || c == '}' || c == '|' || c == '\\'
}

/// `s` with a backslash before each operator character.
pub open spec fn regex_escaped(s: Seq<char>) -> Seq<char>
    decreases s.len(),
{
    if s.len() == 0 {
        seq![]
    } else if is_regex_meta(s.last()) {
        regex_escaped(s.drop_last()).push('\\').push(s.last())
    } else {
        regex_escaped(s.drop_last()).push(s.last())
    }
}

/// The pattern that selects the tokens a wildcard word may stand for.
pub open spec fn wildcard_pattern(info: WildcardQueryInfo) -> Seq<char> {
    match info.wildcard_type {
        WildcardType::Prefix => regex_escaped(info.prefix@) + ".*"@,
        WildcardType::Internal => regex_escaped(info.prefix@) + ".*"@ + match info.suffix {
            Some(x) => regex_escaped(x@),
            None => seq![],
        },
        WildcardType::Plain => if info.wildcard_term_index < info.terms@.len() {
            regex_escaped(info.terms@[info.wildcard_term_index as int]@)
        } else {
            seq![]
        },
    }
}

fn push_escaped(out: &mut Vec<char>, s: &str)
    ensures
        final(out)@ == old(out)@ + regex_escaped(s@),
{
    let cs = chars_of(s);
    let mut i: usize = 0;
    let ghost base = old(out)@;
    while i < cs.len()
        invariant
            i <= cs@.len(),
            cs@ == s@,
            out@ == base + regex_escaped(cs@.take(i as int)),
        decreases cs@.len() - i,
    {
        assert(cs@.take(i as int + 1).drop_last() =~= cs@.take(i as int));
        let c = cs[i];
        if c == '.' || c == '+' || c == '*' || c == '?' || c == '^' || c == '$' || c == '(' || c
            == ')' || c == '[' || c == ']' || c == '{' || c == '}' || c == '|' || c == '\\' {
            out.push('\\');
        }
        out.push(c);
        i = i + 1;
    }
    assert(cs@.take(cs@.len() as int) =~= cs@);
}

/// The regular expression for the wildcard word of `info`: `prefix.*` or
/// `prefix.*suffix`, both parts escaped.
pub fn wildcard_regex(info: &WildcardQueryInfo) -> (r: String)
    ensures
        r@ == wildcard_pattern(*info),
{
    let mut out: Vec<char> = Vec::new();
    match info.wildcard_type {
        WildcardType::Prefix => {
            push_escaped(&mut out, info.prefix.as_str());
            out.push('.');
            out.push('*');
            proof { reveal_strlit(".*"); }
            assert(out@ =~= regex_escaped(info.prefix@) + ".*"@);
        },
        WildcardType::Internal => {
            push_escaped(&mut out, info.prefix.as_str());
            out.push('.');
            out.push('*');
            let ghost mid = out@;
            match &info.suffix {
                Some(x) => {
                    push_escaped(&mut out, x.as_str());
                },
                None => {},
            }
            proof { reveal_strlit(".*"); }
            assert(out@ =~= regex_escaped(info.prefix@) + ".*"@ + match info.suffix {
                Some(x) => regex_escaped(x@),
                None => seq![],
            });
        },
        WildcardType::Plain => {
            if info.wildcard_term_index < info.terms.len() {
                push_escaped(&mut out, info.terms[info.wildcard_term_index].as_str());
                assert(out@ =~= regex_escaped(info.terms@[info.wildcard_term_index as int]@));
            }
        },
    }
    string_of(&out)
}

} // verus!
