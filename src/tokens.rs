//! Annotated tokens of a page: their fields, the packed token-id blob of a
//! page, hydration against the lookup tables, and token-level matching.
use vstd::prelude::*;
use std::collections::HashMap;
use crate::text::{string_rows, chars_of};
use crate::normalize::{surface_normal, normalize_for_match};
use crate::positions::{sorted_members, sorted_distinct};

verus! {

broadcast use vstd::std_specs::hash::group_hash_axioms;

#[derive(Debug)]
pub struct TokenClitic {
    pub clitic_type: String,
    pub display: String,
}

#[derive(Debug)]
pub struct Token {
    pub idx: usize,
    pub surface: String,
    pub noclitic_surface: Option<String>,
    pub lemma: String,
    pub root: Option<String>,
    pub pos: String,
    pub features: Vec<String>,
    pub clitics: Vec<TokenClitic>,
}

/// A page: book, part within the book, page within the part.
#[derive(Debug, Clone, Copy, PartialEq, Eq, Hash, Structural)]
pub struct PageKey {
    pub id: u64,
    pub part_index: u64,
    pub page_id: u64,
}

impl PageKey {
    pub fn new(id: u64, part_index: u64, page_id: u64) -> (r: Self)
        ensures
            r.id == id && r.part_index == part_index && r.page_id == page_id,
    {
        PageKey { id, part_index, page_id }
    }
}

#[derive(Debug, Clone, Copy, PartialEq, Eq, Structural)]
pub enum TokenField {
    Surface,
    Lemma,
    Root,
}

/// The value a token has in a field, if any.
pub open spec fn field_value(t: Token, f: TokenField) -> Option<Seq<char>> {
    match f {
        TokenField::Surface => Some(t.surface@),
        TokenField::Lemma => Some(t.lemma@),
        TokenField::Root => match t.root {
            Some(r) => Some(r@),
            None => None,
        },
    }
}

/// Whether two strings hold the same characters.
pub fn same_text(a: &str, b: &str) -> (r: bool)
    ensures
        r == (a@ == b@),
{
    let x = chars_of(a);
    let y = chars_of(b);
    if x.len() != y.len() {
        return false;
    }
    let mut i: usize = 0;
    while i < x.len()
        invariant
            i <= x@.len(),
            x@ == a@,
            y@ == b@,
            x@.len() == y@.len(),
            forall|j: int| 0 <= j < i ==> x@[j] == y@[j],
        decreases x@.len() - i,
    {
        if x[i] != y[i] {
            assert(x@[i as int] != y@[i as int]);
            assert(!(x@ =~= y@));
            return false;
        }
        i = i + 1;
    }
    assert(x@ =~= y@);
    true
}

impl TokenField {
    pub fn matches(&self, token: &Token, value: &str) -> (r: bool)
        ensures
            r == (field_value(*token, *self) == Some(value@)),
    {
        match self {
            TokenField::Surface => same_text(token.surface.as_str(), value),
            TokenField::Lemma => same_text(token.lemma.as_str(), value),
            TokenField::Root => match &token.root {
                Some(x) => same_text(x.as_str(), value),
                None => false,
            },
        }
    }

    pub fn get_value<'a>(&self, token: &'a Token) -> (r: Option<&'a str>)
        ensures
            match r {
                Some(s) => field_value(*token, *self) == Some(s@),
                None => field_value(*token, *self) is None,
            },
    {
        match self {
            TokenField::Surface => Some(token.surface.as_str()),
            TokenField::Lemma => Some(token.lemma.as_str()),
            TokenField::Root => match &token.root {
                Some(x) => Some(x.as_str()),
                None => None,
            },
        }
    }
}

/// The little-endian `u32` of four bytes.
pub open spec fn le_u32(b0: u8, b1: u8, b2: u8, b3: u8) -> int {
    b0 + 256 * b1 + 65536 * b2 + 16777216 * b3
}

/// The token ids packed in a page blob: one little-endian `u32` per four
/// bytes; a trailing partial group is ignored.
pub fn decode_token_ids(blob: &Vec<u8>) -> (r: Vec<u32>)
    ensures
        r@.len() == blob@.len() / 4,
        forall|i: int|
            0 <= i < r@.len() ==> #[trigger] r@[i] as int == le_u32(
                blob@[4 * i],
                blob@[4 * i + 1],
                blob@[4 * i + 2],
                blob@[4 * i + 3],
            ),
{
    let len = blob.len();
    let n = len / 4;
    let mut out: Vec<u32> = Vec::new();
    let mut i: usize = 0;
    while i < n
        invariant
            len == blob@.len(),
            n == len / 4,
            i <= n,
            out@.len() == i,
            forall|k: int|
                0 <= k < i ==> #[trigger] out@[k] as int == le_u32(
                    blob@[4 * k],
                    blob@[4 * k + 1],
                    blob@[4 * k + 2],
                    blob@[4 * k + 3],
                ),
        decreases n - i,
    {
        assert(4 * i + 3 < len) by (nonlinear_arith)
            requires
                i < n,
                n == len / 4,
        ;
        let b = 4 * i;
        let v: u32 = blob[b] as u32 + 256 * (blob[b + 1] as u32) + 65536 * (blob[b + 2] as u32)
            + 16777216 * (blob[b + 3] as u32);
        out.push(v);
        i = i + 1;
    }
    out
}

/// The batches in which token definitions are read: at most `size` ids each.
pub fn id_batches(ids: &Vec<u32>, size: usize) -> (r: Vec<Vec<u32>>)
    requires
        size > 0,
    ensures
        forall|k: int| 0 <= k < r@.len() ==> 0 < (#[trigger] r@[k])@.len() <= size,
        r@.map_values(|c: Vec<u32>| c@).fold_left(Seq::<u32>::empty(), |a: Seq<u32>, c: Seq<u32>| a + c) == ids@,
{
    let mut out: Vec<Vec<u32>> = Vec::new();
    let mut cur: Vec<u32> = Vec::new();
    let mut i: usize = 0;
    while i < ids.len()
        invariant
            size > 0,
            i <= ids@.len(),
            cur@.len() < size || (cur@.len() == size),
            cur@.len() <= size,
            forall|k: int| 0 <= k < out@.len() ==> 0 < (#[trigger] out@[k])@.len() <= size,
            out@.map_values(|c: Vec<u32>| c@).fold_left(Seq::<u32>::empty(), |a: Seq<u32>, c: Seq<u32>| a + c) + cur@ == ids@.take(i as int),
        decreases ids@.len() - i,
    {
        if cur.len() == size {
            let ghost before = out@.map_values(|c: Vec<u32>| c@);
            let ghost cv = cur@;
            let full = cur;
            cur = Vec::new();
            out.push(full);
            proof {
                assert(out@.map_values(|c: Vec<u32>| c@) =~= before.push(cv));
                before.lemma_fold_left_alt(Seq::<u32>::empty(), |a: Seq<u32>, c: Seq<u32>| a + c);
                assert(before.push(cv).drop_last() =~= before);
                assert(cur@ =~= Seq::<u32>::empty());
                assert(before.push(cv).fold_left(Seq::<u32>::empty(), |a: Seq<u32>, c: Seq<u32>| a + c) =~= before.fold_left(Seq::<u32>::empty(), |a: Seq<u32>, c: Seq<u32>| a + c) + cv);
            }
        }
        cur.push(ids[i]);
        assert(ids@.take(i as int + 1) =~= ids@.take(i as int).push(ids@[i as int]));
        i = i + 1;
    }
    assert(ids@.take(ids@.len() as int) =~= ids@);
    if cur.len() > 0 {
        let ghost before = out@.map_values(|c: Vec<u32>| c@);
        let ghost cv = cur@;
        out.push(cur);
        proof {
            assert(out@.map_values(|c: Vec<u32>| c@) =~= before.push(cv));
            assert(before.push(cv).drop_last() =~= before);
        }
    } else {
        assert(cur@ =~= Seq::<u32>::empty());
    }
    out
}

/// One row of the token-definition table.
#[derive(Debug)]
pub struct TokenDef {
    pub surface: String,
    pub lemma_id: i64,
    pub root_id: Option<i64>,
    pub pos_id: i64,
    pub feature_set_id: i64,
    pub clitic_set_id: i64,
}

/// The five lookup tables, loaded once.
#[derive(Debug)]
pub struct LookupTables {
    pub roots: HashMap<i64, String>,
    pub lemmas: HashMap<i64, String>,
    pub pos_types: HashMap<i64, String>,
    pub feature_sets: HashMap<i64, Vec<String>>,
    pub clitic_sets: HashMap<i64, Vec<TokenClitic>>,
}

/// A token id can be hydrated: its definition, lemma and part of speech are
/// all known.
pub open spec fn resolvable(id: u32, defs: Map<u32, TokenDef>, l: LookupTables) -> bool {
    &&& defs.contains_key(id)
    &&& l.lemmas@.contains_key(defs[id].lemma_id)
    &&& l.pos_types@.contains_key(defs[id].pos_id)
}

/// The positions of the page whose tokens can be hydrated, in order.
pub open spec fn kept_positions(ids: Seq<u32>, defs: Map<u32, TokenDef>, l: LookupTables) -> Seq<
    int,
>
    decreases ids.len(),
{
    if ids.len() == 0 {
        seq![]
    } else {
        let p = kept_positions(ids.drop_last(), defs, l);
        if resolvable(ids.last(), defs, l) {
            p.push(ids.len() - 1)
        } else {
            p
        }
    }
}

pub open spec fn clitic_pairs(v: Seq<TokenClitic>) -> Seq<(Seq<char>, Seq<char>)> {
    v.map_values(|c: TokenClitic| (c.clitic_type@, c.display@))
}

/// `t` is the token at position `idx` with definition `d`.
pub open spec fn hydrated_as(t: Token, idx: int, d: TokenDef, l: LookupTables) -> bool {
    &&& t.idx == idx
    &&& t.surface@ == d.surface@
    &&& t.noclitic_surface is None
    &&& t.lemma@ == l.lemmas@[d.lemma_id]@
    &&& t.pos@ == l.pos_types@[d.pos_id]@
    &&& match d.root_id {
        Some(r) if l.roots@.contains_key(r) => t.root matches Some(x) && x@ == l.roots@[r]@,
        _ => t.root is None,
    }
    &&& if l.feature_sets@.contains_key(d.feature_set_id) {
        string_rows(t.features@) == string_rows(l.feature_sets@[d.feature_set_id]@)
    } else {
        t.features@.len() == 0
    }
    &&& if l.clitic_sets@.contains_key(d.clitic_set_id) {
        clitic_pairs(t.clitics@) == clitic_pairs(l.clitic_sets@[d.clitic_set_id]@)
    } else {
        t.clitics@.len() == 0
    }
}

fn copy_string(s: &String) -> (r: String)
    ensures
        r@ == s@,
{
    s.clone()
}

fn copy_strings(v: &Vec<String>) -> (r: Vec<String>)
    ensures
        string_rows(r@) == string_rows(v@),
{
    let mut out: Vec<String> = Vec::new();
    let mut i: usize = 0;
    while i < v.len()
        invariant
            i <= v@.len(),
            string_rows(out@) == string_rows(v@.take(i as int)),
        decreases v@.len() - i,
    {
        let ghost before = string_rows(out@);
        let s = copy_string(&v[i]);
        out.push(s);
        assert(string_rows(out@) =~= before.push(s@));
        assert(string_rows(v@.take(i as int + 1)) =~= string_rows(v@.take(i as int)).push(
            v@[i as int]@,
        ));
        i = i + 1;
    }
    assert(v@.take(v@.len() as int) =~= v@);
    out
}

fn copy_clitics(v: &Vec<TokenClitic>) -> (r: Vec<TokenClitic>)
    ensures
        clitic_pairs(r@) == clitic_pairs(v@),
{
    let mut out: Vec<TokenClitic> = Vec::new();
    let mut i: usize = 0;
    while i < v.len()
        invariant
            i <= v@.len(),
            clitic_pairs(out@) == clitic_pairs(v@.take(i as int)),
        decreases v@.len() - i,
    {
        let ghost before = clitic_pairs(out@);
        let c = TokenClitic {
            clitic_type: copy_string(&v[i].clitic_type),
            display: copy_string(&v[i].display),
        };
        let ghost cp = (c.clitic_type@, c.display@);
        out.push(c);
        assert(clitic_pairs(out@) =~= before.push(cp));
        assert(clitic_pairs(v@.take(i as int + 1)) =~= clitic_pairs(v@.take(i as int)).push(cp));
        i = i + 1;
    }
    assert(v@.take(v@.len() as int) =~= v@);
    out
}

/// Builds the token at position `idx` from its definition.
fn hydrate_one(idx: usize, d: &TokenDef, l: &LookupTables) -> (r: Option<Token>)
    ensures
        r is Some <==> (l.lemmas@.contains_key(d.lemma_id) && l.pos_types@.contains_key(
            d.pos_id,
        )),
        r matches Some(t) ==> hydrated_as(t, idx as int, *d, *l),
{
    let lemma = match l.lemmas.get(&d.lemma_id) {
        Some(x) => copy_string(x),
        None => {
            return None;
        },
    };
    let pos = match l.pos_types.get(&d.pos_id) {
        Some(x) => copy_string(x),
        None => {
            return None;
        },
    };
    let root = match d.root_id {
        Some(rid) => match l.roots.get(&rid) {
            Some(x) => Some(copy_string(x)),
            None => None,
        },
        None => None,
    };
    let features = match l.feature_sets.get(&d.feature_set_id) {
        Some(x) => copy_strings(x),
        None => Vec::new(),
    };
    let clitics = match l.clitic_sets.get(&d.clitic_set_id) {
        Some(x) => copy_clitics(x),
        None => Vec::new(),
    };
    Some(
        Token {
            idx,
            surface: copy_string(&d.surface),
            noclitic_surface: None,
            lemma,
            root,
            pos,
            features,
            clitics,
        },
    )
}

/// The first tokens built for `ids.take(n)`, each from its kept position.
pub open spec fn hydrated_prefix(
    out: Seq<Token>,
    ids: Seq<u32>,
    defs: Map<u32, TokenDef>,
    l: LookupTables,
    n: int,
) -> bool {
    forall|m: int|
        0 <= m < out.len() ==> hydrated_as(
            #[trigger] out[m],
            kept_positions(ids.take(n), defs, l)[m],
            defs[ids[kept_positions(ids.take(n), defs, l)[m]]],
            l,
        )
}

/// The tokens of a page from its token ids, in page order; an id whose
/// definition, lemma or part of speech is unknown is left out.
pub fn hydrate_tokens(ids: &Vec<u32>, defs: &HashMap<u32, TokenDef>, l: &LookupTables) -> (r: Vec<
    Token,
>)
    ensures
        r@.len() == kept_positions(ids@, defs@, *l).len(),
        forall|m: int|
            0 <= m < r@.len() ==> {
                let p = kept_positions(ids@, defs@, *l)[m];
                hydrated_as(#[trigger] r@[m], p, defs@[ids@[p]], *l)
            },
{
    let mut out: Vec<Token> = Vec::new();
    let mut i: usize = 0;
    while i < ids.len()
        invariant
            i <= ids@.len(),
            out@.len() == kept_positions(ids@.take(i as int), defs@, *l).len(),
            hydrated_prefix(out@, ids@, defs@, *l, i as int),
        decreases ids@.len() - i,
    {
        let ghost t = ids@.take(i as int + 1);
        assert(t.drop_last() =~= ids@.take(i as int));
        assert(t.last() == ids@[i as int]);
        let ghost kp = kept_positions(ids@.take(i as int), defs@, *l);
        let ghost before = out@;
        match defs.get(&ids[i]) {
            Some(d) => {
                assert(defs@.contains_key(ids@[i as int]) && defs@[ids@[i as int]] == *d);
                match hydrate_one(i, d, l) {
                    Some(tok) => {
                        assert(hydrated_as(tok, i as int, defs@[ids@[i as int]], *l));
                        out.push(tok);
                        assert(kept_positions(t, defs@, *l) == kp.push(i as int));
                        assert(out@[before.len() as int] == tok);
                    },
                    None => {
                        assert(kept_positions(t, defs@, *l) == kp);
                    },
                }
            },
            None => {
                assert(kept_positions(t, defs@, *l) == kp);
            },
        }
        assert(hydrated_prefix(out@, ids@, defs@, *l, i as int + 1)) by {
            let kt = kept_positions(ids@.take(i as int + 1), defs@, *l);
            assert forall|m: int| 0 <= m < out@.len() implies hydrated_as(
                #[trigger] out@[m],
                kt[m],
                defs@[ids@[kt[m]]],
                *l,
            ) by {
                if m < before.len() {
                    assert(out@[m] == before[m]);
                    assert(kt[m] == kp[m]);
                    assert(hydrated_as(before[m], kp[m], defs@[ids@[kp[m]]], *l));
                } else {
                    assert(kt[m] == i);
                }
            }
        }
        i = i + 1;
    }
    assert(ids@.take(ids@.len() as int) =~= ids@);
    out
}

/// The indices of the tokens whose `field` value is `value`.
pub fn find_positions(tokens: &Vec<Token>, field: TokenField, value: &str) -> (r: Vec<usize>)
    ensures
        r@ == tokens@.filter(|t: Token| field_value(t, field) == Some(value@)).map_values(
            |t: Token| t.idx,
        ),
{
    let ghost pred = |t: Token| field_value(t, field) == Some(value@);
    let mut out: Vec<usize> = Vec::new();
    let mut i: usize = 0;
    while i < tokens.len()
        invariant
            i <= tokens@.len(),
            pred == (|t: Token| field_value(t, field) == Some(value@)),
            out@ == tokens@.take(i as int).filter(pred).map_values(|t: Token| t.idx),
        decreases tokens@.len() - i,
    {
        let ghost t = tokens@.take(i as int + 1);
        assert(t.drop_last() =~= tokens@.take(i as int));
        proof {
            reveal(Seq::filter);
        }
        assert(t =~= tokens@.take(i as int).push(tokens@[i as int]));
        assert(t.filter(pred) == if pred(tokens@[i as int]) {
            tokens@.take(i as int).filter(pred).push(tokens@[i as int])
        } else {
            tokens@.take(i as int).filter(pred)
        });
        if field.matches(&tokens[i], value) {
            let ghost before = out@;
            out.push(tokens[i].idx);
            assert(out@ =~= before.push(tokens@[i as int].idx));
        }
        i = i + 1;
    }
    assert(tokens@.take(tokens@.len() as int) =~= tokens@);
    out
}

/// The token text `tok` fits the wildcard word: it starts with `prefix` and,
/// when there is a suffix, ends with it.
pub open spec fn fits_wildcard(tok: Seq<char>, prefix: Seq<char>, suffix: Option<Seq<char>>) -> bool {
    &&& prefix.len() <= tok.len()
    &&& tok.take(prefix.len() as int) == prefix
    &&& match suffix {
        Some(s) => s.len() <= tok.len() && tok.subrange(tok.len() - s.len(), tok.len() as int)
            == s,
        None => true,
    }
}

/// The phrase of `terms` starts at token `i`: the wildcard word fits at
/// `wi`, every other word equals its term (all in surface form).
pub open spec fn wildcard_phrase_at(
    surfaces: Seq<Seq<char>>,
    i: int,
    prefix: Seq<char>,
    suffix: Option<Seq<char>>,
    wi: int,
    terms: Seq<Seq<char>>,
) -> bool {
    &&& 0 <= i
    &&& i + terms.len() <= surfaces.len()
    &&& forall|j: int|
        0 <= j < terms.len() ==> if j == wi {
            fits_wildcard(surface_normal(#[trigger] surfaces[i + j]), surface_normal(prefix), match suffix {
                Some(s) => Some(surface_normal(s)),
                None => None,
            })
        } else {
            surface_normal(surfaces[i + j]) == surface_normal(terms[j])
        }
}

pub open spec fn surfaces_of(tokens: Seq<Token>) -> Seq<Seq<char>> {
    tokens.map_values(|t: Token| t.surface@)
}

fn starts_with(t: &Vec<char>, p: &Vec<char>) -> (r: bool)
    ensures
        r == (p@.len() <= t@.len() && t@.take(p@.len() as int) == p@),
{
    if p.len() > t.len() {
        return false;
    }
    let mut i: usize = 0;
    while i < p.len()
        invariant
            p@.len() <= t@.len(),
            i <= p@.len(),
            forall|k: int| 0 <= k < i ==> t@[k] == p@[k],
        decreases p@.len() - i,
    {
        if t[i] != p[i] {
            assert(t@.take(p@.len() as int)[i as int] != p@[i as int]);
            return false;
        }
        i = i + 1;
    }
    assert(t@.take(p@.len() as int) =~= p@);
    true
}

fn ends_with(t: &Vec<char>, s: &Vec<char>) -> (r: bool)
    ensures
        r == (s@.len() <= t@.len() && t@.subrange(t@.len() - s@.len(), t@.len() as int) == s@),
{
    if s.len() > t.len() {
        return false;
    }
    let tl = t.len();
    let off = tl - s.len();
    let mut i: usize = 0;
    while i < s.len()
        invariant
            tl == t@.len(),
            s@.len() <= t@.len(),
            off == t@.len() - s@.len(),
            i <= s@.len(),
            forall|k: int| 0 <= k < i ==> t@[off + k] == s@[k],
        decreases s@.len() - i,
    {
        if t[off + i] != s[i] {
            assert(t@.subrange(off as int, t@.len() as int)[i as int] != s@[i as int]);
            return false;
        }
        i = i + 1;
    }
    assert(t@.subrange(off as int, t@.len() as int) =~= s@);
    true
}

fn normal_chars(s: &str) -> (r: Vec<char>)
    ensures
        r@ == surface_normal(s@),
{
    let n = normalize_for_match(s);
    chars_of(n.as_str())
}

fn vec_eq(a: &Vec<char>, b: &Vec<char>) -> (r: bool)
    ensures
        r == (a@ == b@),
{
    if a.len() != b.len() {
        return false;
    }
    let mut i: usize = 0;
    while i < a.len()
        invariant
            i <= a@.len(),
            a@.len() == b@.len(),
            forall|j: int| 0 <= j < i ==> a@[j] == b@[j],
        decreases a@.len() - i,
    {
        if a[i] != b[i] {
            return false;
        }
        i = i + 1;
    }
    assert(a@ =~= b@);
    true
}

/// Whether an indexed term stands for the wildcard word: it starts with
/// `prefix` and, when a suffix is given, ends with it.
pub fn term_fits_wildcard(term: &str, prefix: &str, suffix: Option<&str>) -> (r: bool)
    ensures
        r == fits_wildcard(
            term@,
            prefix@,
            match suffix {
                Some(s) => Some(s@),
                None => None,
            },
        ),
{
    let t = chars_of(term);
    let p = chars_of(prefix);
    let head = starts_with(&t, &p);
    match suffix {
        Some(s) => {
            let x = chars_of(s);
            head && ends_with(&t, &x)
        },
        None => head,
    }
}

/// The token positions covered by complete occurrences of a wildcard phrase
/// on a page: for each start `i` where the phrase matches, `i` up to
/// `i + terms.len() - 1`, starts in increasing order.
pub open spec fn wildcard_phrase_cover(
    surfaces: Seq<Seq<char>>,
    upto: int,
    prefix: Seq<char>,
    suffix: Option<Seq<char>>,
    wi: int,
    terms: Seq<Seq<char>>,
) -> Seq<u32>
    decreases upto,
{
    if upto <= 0 {
        seq![]
    } else {
        let p = wildcard_phrase_cover(surfaces, upto - 1, prefix, suffix, wi, terms);
        if wildcard_phrase_at(surfaces, upto - 1, prefix, suffix, wi, terms) {
            p + Seq::new(terms.len(), |j: int| (upto - 1 + j) as u32)
        } else {
            p
        }
    }
}

/// Positions of complete wildcard-phrase occurrences on a page, confirmed
/// token by token: sorted, each once.
pub fn wildcard_phrase_positions(
    tokens: &Vec<Token>,
    prefix: &str,
    suffix: Option<&str>,
    wildcard_term_index: usize,
    all_terms: &Vec<String>,
) -> (r: Vec<u32>)
    requires
        tokens@.len() + all_terms@.len() <= u32::MAX,
    ensures
        sorted_members(wildcard_phrase_cover(
            surfaces_of(tokens@),
            tokens@.len() as int,
            prefix@,
            match suffix {
                Some(s) => Some(s@),
                None => None,
            },
            wildcard_term_index as int,
            string_rows(all_terms@),
        ), r@),
{
    let ghost sf = surfaces_of(tokens@);
    let ghost sx: Option<Seq<char>> = match suffix {
        Some(s) => Some(s@),
        None => None,
    };
    let ghost ts = string_rows(all_terms@);
    let n = all_terms.len();
    let mut out: Vec<u32> = Vec::new();
    let pre = normal_chars(prefix);
    let suf: Option<Vec<char>> = match suffix {
        Some(s) => Some(normal_chars(s)),
        None => None,
    };
    let mut norm_terms: Vec<Vec<char>> = Vec::new();
    let mut k: usize = 0;
    while k < n
        invariant
            n == all_terms@.len(),
            k <= n,
            norm_terms@.len() == k,
            forall|j: int| 0 <= j < k ==> (#[trigger] norm_terms@[j])@ == surface_normal(ts[j]),
            ts == string_rows(all_terms@),
        decreases n - k,
    {
        norm_terms.push(normal_chars(all_terms[k].as_str()));
        k = k + 1;
    }
    let mut i: usize = 0;
    while i < tokens.len()
        invariant
            i <= tokens@.len(),
            tokens@.len() + n <= u32::MAX,
            n == all_terms@.len(),
            sf == surfaces_of(tokens@),
            ts == string_rows(all_terms@),
            sx == (match suffix {
                Some(s) => Some(s@),
                None => None::<Seq<char>>,
            }),
            pre@ == surface_normal(prefix@),
            suf matches Some(v) ==> sx matches Some(s) && v@ == surface_normal(s),
            suf is None ==> sx is None,
            norm_terms@.len() == n,
            forall|j: int| 0 <= j < n ==> (#[trigger] norm_terms@[j])@ == surface_normal(ts[j]),
            out@ == wildcard_phrase_cover(sf, i as int, prefix@, sx, wildcard_term_index as int, ts),
        decreases tokens@.len() - i,
    {
        let mut ok = i + n <= tokens.len();
        let mut j: usize = 0;
        while ok && j < n
            invariant
                i < tokens@.len(),
                ts == string_rows(all_terms@),
                tokens@.len() + n <= u32::MAX,
                i + n <= tokens@.len() || !ok,
                j <= n,
                n == all_terms@.len(),
                sf == surfaces_of(tokens@),
                pre@ == surface_normal(prefix@),
                suf matches Some(v) ==> sx matches Some(s) && v@ == surface_normal(s),
                suf is None ==> sx is None,
                norm_terms@.len() == n,
                forall|m: int| 0 <= m < n ==> (#[trigger] norm_terms@[m])@ == surface_normal(ts[m]),
                ok ==> forall|m: int|
                    0 <= m < j ==> if m == wildcard_term_index {
                        fits_wildcard(surface_normal(#[trigger] sf[i + m]), surface_normal(prefix@), match sx {
                            Some(s) => Some(surface_normal(s)),
                            None => None,
                        })
                    } else {
                        surface_normal(sf[i + m]) == surface_normal(ts[m])
                    },
                !ok ==> !wildcard_phrase_at(sf, i as int, prefix@, sx, wildcard_term_index as int, ts),
            decreases n - j,
        {
            let tok = normal_chars(tokens[i + j].surface.as_str());
            assert(sf[i + j] == tokens@[i + j].surface@);
            let fits = if j == wildcard_term_index {
                let head = starts_with(&tok, &pre);
                match &suf {
                    Some(s) => head && ends_with(&tok, s),
                    None => head,
                }
            } else {
                vec_eq(&tok, &norm_terms[j])
            };
            if fits {
                j = j + 1;
            } else {
                proof {
                    if wildcard_phrase_at(sf, i as int, prefix@, sx, wildcard_term_index as int, ts) {
                        let jj = j as int;
                        assert(0 <= jj < ts.len());
                        assert(sf[i + jj] == tokens@[i + jj].surface@);
                    }
                }
                ok = false;
                j = n;
            }
        }
        proof {
            if ok {
                assert(i + n <= tokens@.len());
            }
        }
        if ok {
            let ghost before = out@;
            let mut m: usize = 0;
            while m < n
                invariant
                    m <= n,
                    i + n <= tokens@.len(),
                    tokens@.len() + n <= u32::MAX,
                    out@ == before + Seq::new(m as nat, |q: int| (i + q) as u32),
                decreases n - m,
            {
                out.push((i + m) as u32);
                assert(out@ =~= before + Seq::new((m + 1) as nat, |q: int| (i + q) as u32));
                m = m + 1;
            }
            assert(wildcard_phrase_at(sf, i as int, prefix@, sx, wildcard_term_index as int, ts));
        }
        i = i + 1;
    }
    sorted_distinct(&out)
}

/// A wildcard phrase is confirmed on a page exactly when it occurs there:
/// the cover is empty only when no start matches, and every start that
/// matches contributes its positions.
pub proof fn wildcard_cover_matches(
    surfaces: Seq<Seq<char>>,
    upto: int,
    prefix: Seq<char>,
    suffix: Option<Seq<char>>,
    wi: int,
    terms: Seq<Seq<char>>,
)
    requires
        terms.len() > 0,
    ensures
        wildcard_phrase_cover(surfaces, upto, prefix, suffix, wi, terms).len() > 0 <==> exists|i: int|
            0 <= i < upto && #[trigger] wildcard_phrase_at(surfaces, i, prefix, suffix, wi, terms),
    decreases upto,
{
    if upto > 0 {
        wildcard_cover_matches(surfaces, upto - 1, prefix, suffix, wi, terms);
        if wildcard_phrase_at(surfaces, upto - 1, prefix, suffix, wi, terms) {
            assert(0 <= upto - 1 < upto);
        } else {
            assert forall|i: int| 0 <= i < upto && #[trigger] wildcard_phrase_at(surfaces, i, prefix, suffix, wi, terms) implies i < upto - 1 by {}
        }
    }
}

} // verus!
