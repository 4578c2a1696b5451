//! Query plans: what each search mode asks of the positional index, as a
//! conjunction of clause groups (a page must match some leaf of every group)
//! restricted, when a book set is given, to those books.
use vstd::prelude::*;
use crate::text::{words, string_rows, split_words, chars_of, string_of};
use crate::normalize::{surface_normal, root_normal, normalize_arabic, normalize_root_query};
use crate::wildcard::{SearchMode, WildcardQueryInfo, wildcard_pattern, wildcard_regex, strings_of};

verus! {

/// The positional text fields of the index.
#[derive(Debug, Clone, Copy, PartialEq, Eq, Structural)]
pub enum IndexField {
    Surface,
    Lemma,
    Root,
}

/// One query leaf: an exact token, an ordered phrase of consecutive tokens,
/// or a regular expression that a whole token must match.
#[derive(Debug)]
pub enum Leaf {
    Term { field: IndexField, text: String },
    Phrase { field: IndexField, words: Vec<String> },
    Regex { field: IndexField, pattern: String },
}

pub enum LeafView {
    Term(IndexField, Seq<char>),
    Phrase(IndexField, Seq<Seq<char>>),
    Regex(IndexField, Seq<char>),
}

impl View for Leaf {
    type V = LeafView;

    open spec fn view(&self) -> LeafView {
        match self {
            Leaf::Term { field, text } => LeafView::Term(*field, text@),
            Leaf::Phrase { field, words } => LeafView::Phrase(*field, string_rows(words@)),
            Leaf::Regex { field, pattern } => LeafView::Regex(*field, pattern@),
        }
    }
}

/// A page matches the plan when it matches some leaf of every group of
/// `must` and, if `books` is not empty, its book is one of `books`.
#[derive(Debug)]
pub struct QueryPlan {
    pub must: Vec<Vec<Leaf>>,
    pub books: Vec<u64>,
}

pub struct PlanView {
    pub must: Seq<Seq<LeafView>>,
    pub books: Seq<u64>,
}

pub open spec fn group_view(g: Vec<Leaf>) -> Seq<LeafView> {
    g@.map_values(|l: Leaf| l@)
}

impl View for QueryPlan {
    type V = PlanView;

    open spec fn view(&self) -> PlanView {
        PlanView { must: self.must@.map_values(|g: Vec<Leaf>| group_view(g)), books: self.books@ }
    }
}

/// Whether the plan's book restriction lets a page of book `id` through.
pub open spec fn admits_book(p: PlanView, id: u64) -> bool {
    p.books.len() == 0 || p.books.contains(id)
}

#[derive(Debug, Clone)]
pub struct SearchTerm {
    pub query: String,
    pub mode: SearchMode,
}

#[derive(Debug, Clone)]
pub struct SearchFilters {
    pub author_id: Option<u64>,
    pub author: Option<String>,
    pub genre: Option<String>,
    pub corpus: Option<String>,
    pub death_ah_min: Option<u64>,
    pub death_ah_max: Option<u64>,
    pub century_ah: Option<u64>,
    pub book_ids: Option<Vec<u64>>,
}

pub open spec fn field_of(mode: SearchMode) -> IndexField {
    match mode {
        SearchMode::Surface => IndexField::Surface,
        SearchMode::Lemma => IndexField::Lemma,
        SearchMode::Root => IndexField::Root,
    }
}

pub fn search_field(mode: SearchMode) -> (r: IndexField)
    ensures
        r == field_of(mode),
{
    match mode {
        SearchMode::Surface => IndexField::Surface,
        SearchMode::Lemma => IndexField::Lemma,
        SearchMode::Root => IndexField::Root,
    }
}

/// A query string in the form its field is indexed in: surface form, root
/// form, or the lemma verbatim.
pub open spec fn term_normal(q: Seq<char>, mode: SearchMode) -> Seq<char> {
    match mode {
        SearchMode::Surface => surface_normal(q),
        SearchMode::Root => root_normal(q),
        SearchMode::Lemma => q,
    }
}

pub fn normalize_term(query: &str, mode: SearchMode) -> (r: String)
    ensures
        r@ == term_normal(query@, mode),
{
    match mode {
        SearchMode::Surface => normalize_arabic(query),
        SearchMode::Root => normalize_root_query(query),
        SearchMode::Lemma => String::from_str(query),
    }
}

/// The leaf for one query string: a term for one word, else a phrase.
pub open spec fn leaf_for(q: Seq<char>, mode: SearchMode) -> LeafView {
    let ws = words(term_normal(q, mode));
    if ws.len() == 1 {
        LeafView::Term(field_of(mode), ws[0])
    } else {
        LeafView::Phrase(field_of(mode), ws)
    }
}

/// The words of a query string once normalized for its mode.
pub fn term_words(query: &str, mode: SearchMode) -> (r: Vec<String>)
    ensures
        string_rows(r@) == words(term_normal(query@, mode)),
{
    let n = normalize_term(query, mode);
    let cs = chars_of(n.as_str());
    let ws = split_words(&cs);
    strings_of(&ws)
}

/// Whether a query string is looked up as a phrase (more than one word).
pub fn is_phrase_search(term: &SearchTerm) -> (r: bool)
    ensures
        r == (words(term_normal(term.query@, term.mode)).len() > 1),
{
    let ws = term_words(term.query.as_str(), term.mode);
    ws.len() > 1
}

pub fn term_leaf(query: &str, mode: SearchMode) -> (r: Leaf)
    ensures
        r@ == leaf_for(query@, mode),
{
    let mut ws = term_words(query, mode);
    let field = search_field(mode);
    if ws.len() == 1 {
        let ghost rows = string_rows(ws@);
        let w = ws.pop().unwrap();
        assert(w@ == rows[0]);
        Leaf::Term { field, text: w }
    } else {
        Leaf::Phrase { field, words: ws }
    }
}

pub open spec fn books_of(filters: SearchFilters) -> Seq<u64> {
    match filters.book_ids {
        Some(v) => v@,
        None => seq![],
    }
}

fn copy_books(filters: &SearchFilters) -> (r: Vec<u64>)
    ensures
        r@ == books_of(*filters),
{
    let mut out: Vec<u64> = Vec::new();
    match &filters.book_ids {
        Some(v) => {
            let mut i: usize = 0;
            while i < v.len()
                invariant
                    i <= v@.len(),
                    out@ == v@.take(i as int),
                decreases v@.len() - i,
            {
                out.push(v[i]);
                assert(out@ =~= v@.take(i as int + 1));
                i = i + 1;
            }
            assert(v@.take(v@.len() as int) =~= v@);
        },
        None => {
            assert(out@ =~= Seq::<u64>::empty());
        },
    }
    out
}

/// The plan of a simple search: the query's leaf, within the book set.
pub fn simple_plan(query: &str, mode: SearchMode, filters: &SearchFilters) -> (r: QueryPlan)
    ensures
        r@.must == seq![seq![leaf_for(query@, mode)]],
        r@.books == books_of(*filters),
{
    let leaf = term_leaf(query, mode);
    let mut group: Vec<Leaf> = Vec::new();
    group.push(leaf);
    let mut must: Vec<Vec<Leaf>> = Vec::new();
    must.push(group);
    let r = QueryPlan { must, books: copy_books(filters) };
    assert(r@.must =~= seq![seq![leaf_for(query@, mode)]]) by {
        assert(group_view(r.must@[0]) =~= seq![leaf_for(query@, mode)]);
    }
    r
}

pub open spec fn term_leaves(ts: Seq<SearchTerm>) -> Seq<LeafView> {
    ts.map_values(|t: SearchTerm| leaf_for(t.query@, t.mode))
}

fn leaves_of(ts: &Vec<SearchTerm>) -> (r: Vec<Leaf>)
    ensures
        group_view(r) == term_leaves(ts@),
{
    let mut out: Vec<Leaf> = Vec::new();
    let mut i: usize = 0;
    while i < ts.len()
        invariant
            i <= ts@.len(),
            group_view(out) == term_leaves(ts@.take(i as int)),
        decreases ts@.len() - i,
    {
        let ghost before = group_view(out);
        let l = term_leaf(ts[i].query.as_str(), ts[i].mode);
        out.push(l);
        assert(group_view(out) =~= before.push(l@));
        assert(term_leaves(ts@.take(i as int + 1)) =~= term_leaves(ts@.take(i as int)).push(
            leaf_for(ts@[i as int].query@, ts@[i as int].mode),
        ));
        i = i + 1;
    }
    assert(ts@.take(ts@.len() as int) =~= ts@);
    out
}

/// The groups of a combined search: one per AND term, then one holding all
/// OR terms when there are any.
pub open spec fn combined_groups(and_terms: Seq<SearchTerm>, or_terms: Seq<SearchTerm>) -> Seq<
    Seq<LeafView>,
> {
    term_leaves(and_terms).map_values(|l: LeafView| seq![l]) + if or_terms.len() > 0 {
        seq![term_leaves(or_terms)]
    } else {
        seq![]
    }
}

/// The plan of a combined search, or `None` when both lists are empty.
pub fn combined_plan(
    and_terms: &Vec<SearchTerm>,
    or_terms: &Vec<SearchTerm>,
    filters: &SearchFilters,
) -> (r: Option<QueryPlan>)
    ensures
        r is None <==> and_terms@.len() == 0 && or_terms@.len() == 0,
        r matches Some(p) ==> p@.must == combined_groups(and_terms@, or_terms@) && p@.books
            == books_of(*filters),
{
    if and_terms.len() == 0 && or_terms.len() == 0 {
        return None;
    }
    let mut must: Vec<Vec<Leaf>> = Vec::new();
    let ands = leaves_of(and_terms);
    let ghost al = group_view(ands);
    let mut ands = ands;
    let mut singles: Vec<Vec<Leaf>> = Vec::new();
    // move each AND leaf into a group of its own, keeping their order
    while ands.len() > 0
        invariant
            al == term_leaves(and_terms@),
            group_view(ands) == al.take(group_view(ands).len() as int),
            ands@.len() <= al.len(),
            singles@.map_values(|g: Vec<Leaf>| group_view(g)) == al.subrange(
                ands@.len() as int,
                al.len() as int,
            ).map_values(|l: LeafView| seq![l]).reverse(),
        decreases ands@.len(),
    {
        let ghost before = singles@.map_values(|g: Vec<Leaf>| group_view(g));
        let ghost av = group_view(ands);
        let l = ands.pop().unwrap();
        assert(group_view(ands) =~= av.drop_last());
        assert(l@ == av.last());
        let mut g: Vec<Leaf> = Vec::new();
        g.push(l);
        assert(group_view(g) =~= seq![l@]);
        singles.push(g);
        assert(singles@.map_values(|g: Vec<Leaf>| group_view(g)) =~= before.push(seq![l@]));
        let ghost k = ands@.len() as int;
        assert(al.subrange(k, al.len() as int).map_values(|l: LeafView| seq![l]).reverse()
            =~= al.subrange(k + 1, al.len() as int).map_values(|l: LeafView| seq![l]).reverse().push(
            seq![al[k]],
        ));
    }
    let ghost sv = singles@.map_values(|g: Vec<Leaf>| group_view(g));
    assert(sv =~= al.map_values(|l: LeafView| seq![l]).reverse()) by {
        assert(al.subrange(0, al.len() as int) =~= al);
    }
    while singles.len() > 0
        invariant
            sv == al.map_values(|l: LeafView| seq![l]).reverse(),
            singles@.len() <= sv.len(),
            singles@.map_values(|g: Vec<Leaf>| group_view(g)) == sv.take(singles@.len() as int),
            must@.map_values(|g: Vec<Leaf>| group_view(g)) == sv.subrange(
                singles@.len() as int,
                sv.len() as int,
            ).reverse(),
        decreases singles@.len(),
    {
        let ghost before = must@.map_values(|g: Vec<Leaf>| group_view(g));
        let ghost cur = singles@.map_values(|g: Vec<Leaf>| group_view(g));
        let g = singles.pop().unwrap();
        assert(singles@.map_values(|g: Vec<Leaf>| group_view(g)) =~= cur.drop_last());
        must.push(g);
        assert(must@.map_values(|g: Vec<Leaf>| group_view(g)) =~= before.push(cur.last()));
        let ghost k = singles@.len() as int;
        assert(sv.subrange(k, sv.len() as int).reverse() =~= sv.subrange(
            k + 1,
            sv.len() as int,
        ).reverse().push(sv[k]));
    }
    assert(sv.subrange(0, sv.len() as int).reverse() =~= al.map_values(|l: LeafView| seq![l]))
        by {
        assert(sv.subrange(0, sv.len() as int) =~= sv);
        assert(sv.reverse() =~= al.map_values(|l: LeafView| seq![l]));
    }
    if or_terms.len() > 0 {
        let ghost before = must@.map_values(|g: Vec<Leaf>| group_view(g));
        let ors = leaves_of(or_terms);
        must.push(ors);
        assert(must@.map_values(|g: Vec<Leaf>| group_view(g)) =~= before.push(
            term_leaves(or_terms@),
        ));
    }
    let r = QueryPlan { must, books: copy_books(filters) };
    assert(r@.must =~= combined_groups(and_terms@, or_terms@));
    Some(r)
}

/// The plan of a proximity search: both terms on one page.
pub fn proximity_plan(term1: &SearchTerm, term2: &SearchTerm, filters: &SearchFilters) -> (r:
    QueryPlan)
    ensures
        r@.must == seq![
            seq![leaf_for(term1.query@, term1.mode)],
            seq![leaf_for(term2.query@, term2.mode)],
        ],
        r@.books == books_of(*filters),
{
    let mut g1: Vec<Leaf> = Vec::new();
    g1.push(term_leaf(term1.query.as_str(), term1.mode));
    let mut g2: Vec<Leaf> = Vec::new();
    g2.push(term_leaf(term2.query.as_str(), term2.mode));
    let mut must: Vec<Vec<Leaf>> = Vec::new();
    must.push(g1);
    must.push(g2);
    let r = QueryPlan { must, books: copy_books(filters) };
    assert(group_view(r.must@[0]) =~= seq![leaf_for(term1.query@, term1.mode)]);
    assert(group_view(r.must@[1]) =~= seq![leaf_for(term2.query@, term2.mode)]);
    assert(r@.must =~= seq![
        seq![leaf_for(term1.query@, term1.mode)],
        seq![leaf_for(term2.query@, term2.mode)],
    ]);
    r
}

/// The patterns of one name form, each a surface leaf.
pub open spec fn pattern_leaves(ps: Seq<String>) -> Seq<LeafView> {
    ps.map_values(|p: String| leaf_for(p@, SearchMode::Surface))
}

/// The non-empty forms of a name search, each a group of its patterns.
pub open spec fn name_groups(forms: Seq<Vec<String>>) -> Seq<Seq<LeafView>>
    decreases forms.len(),
{
    if forms.len() == 0 {
        seq![]
    } else {
        let p = name_groups(forms.drop_last());
        if forms.last()@.len() == 0 {
            p
        } else {
            p.push(pattern_leaves(forms.last()@))
        }
    }
}

fn pattern_group(ps: &Vec<String>) -> (r: Vec<Leaf>)
    ensures
        group_view(r) == pattern_leaves(ps@),
{
    let mut out: Vec<Leaf> = Vec::new();
    let mut i: usize = 0;
    while i < ps.len()
        invariant
            i <= ps@.len(),
            group_view(out) == pattern_leaves(ps@.take(i as int)),
        decreases ps@.len() - i,
    {
        let ghost before = group_view(out);
        let l = term_leaf(ps[i].as_str(), SearchMode::Surface);
        out.push(l);
        assert(group_view(out) =~= before.push(l@));
        assert(pattern_leaves(ps@.take(i as int + 1)) =~= pattern_leaves(ps@.take(i as int)).push(
            leaf_for(ps@[i as int]@, SearchMode::Surface),
        ));
        i = i + 1;
    }
    assert(ps@.take(ps@.len() as int) =~= ps@);
    out
}

/// The plan of a name search: every non-empty form must match through one of
/// its patterns; `None` when no form has a pattern.
pub fn name_plan(forms: &Vec<Vec<String>>, filters: &SearchFilters) -> (r: Option<QueryPlan>)
    ensures
        r is None <==> name_groups(forms@).len() == 0,
        r matches Some(p) ==> p@.must == name_groups(forms@) && p@.books == books_of(*filters),
{
    let mut must: Vec<Vec<Leaf>> = Vec::new();
    let mut i: usize = 0;
    while i < forms.len()
        invariant
            i <= forms@.len(),
            must@.map_values(|g: Vec<Leaf>| group_view(g)) == name_groups(forms@.take(i as int)),
        decreases forms@.len() - i,
    {
        assert(forms@.take(i as int + 1).drop_last() =~= forms@.take(i as int));
        if forms[i].len() > 0 {
            let ghost before = must@.map_values(|g: Vec<Leaf>| group_view(g));
            let g = pattern_group(&forms[i]);
            must.push(g);
            assert(must@.map_values(|g: Vec<Leaf>| group_view(g)) =~= before.push(
                pattern_leaves(forms@[i as int]@),
            ));
        }
        i = i + 1;
    }
    assert(forms@.take(forms@.len() as int) =~= forms@);
    if must.len() == 0 {
        return None;
    }
    Some(QueryPlan { must, books: copy_books(filters) })
}

/// The groups of a wildcard search: the wildcard word as a pattern, every
/// other word as an exact surface term.
pub open spec fn wildcard_groups(info: WildcardQueryInfo) -> Seq<Seq<LeafView>> {
    Seq::new(
        info.terms@.len(),
        |i: int|
            if i == info.wildcard_term_index {
                seq![LeafView::Regex(IndexField::Surface, wildcard_pattern(info))]
            } else {
                seq![LeafView::Term(IndexField::Surface, info.terms@[i]@)]
            },
    )
}

/// The plan of a wildcard search over a parsed (and normalized) query.
pub fn wildcard_plan(info: &WildcardQueryInfo, filters: &SearchFilters) -> (r: QueryPlan)
    ensures
        r@.must == wildcard_groups(*info),
        r@.books == books_of(*filters),
{
    let mut must: Vec<Vec<Leaf>> = Vec::new();
    let mut i: usize = 0;
    while i < info.terms.len()
        invariant
            i <= info.terms@.len(),
            must@.map_values(|g: Vec<Leaf>| group_view(g)) == wildcard_groups(*info).take(
                i as int,
            ),
        decreases info.terms@.len() - i,
    {
        let ghost before = must@.map_values(|g: Vec<Leaf>| group_view(g));
        let leaf = if i == info.wildcard_term_index {
            Leaf::Regex { field: IndexField::Surface, pattern: wildcard_regex(info) }
        } else {
            let t = info.terms[i].clone();
            Leaf::Term { field: IndexField::Surface, text: t }
        };
        let ghost lv = leaf@;
        assert(seq![lv] == wildcard_groups(*info)[i as int]);
        let mut g: Vec<Leaf> = Vec::new();
        g.push(leaf);
        assert(group_view(g) =~= seq![lv]);
        must.push(g);
        assert(must@.map_values(|g: Vec<Leaf>| group_view(g)) =~= before.push(seq![lv]));
        assert(must@.map_values(|g: Vec<Leaf>| group_view(g)) =~= wildcard_groups(*info).take(
            i as int + 1,
        ));
        i = i + 1;
    }
    assert(wildcard_groups(*info).take(info.terms@.len() as int) =~= wildcard_groups(*info));
    QueryPlan { must, books: copy_books(filters) }
}

/// With one book `b` in the filter only pages of `b` pass; with an empty
/// filter every page passes.
pub proof fn book_filter_sound(filters: SearchFilters, p: PlanView, b: u64, id: u64)
    requires
        p.books == books_of(filters),
    ensures
        filters.book_ids matches Some(v) && v@ == seq![b] && admits_book(p, id) ==> id == b,
        filters.book_ids matches Some(v) && v@.len() == 0 ==> admits_book(p, id),
        filters.book_ids is None ==> admits_book(p, id),
{
    if filters.book_ids matches Some(v) && v@ == seq![b] && admits_book(p, id) {
        assert(p.books.contains(id));
        let k = choose|k: int| 0 <= k < p.books.len() && p.books[k] == id;
        assert(p.books[k] == b);
    }
}

} // verus!
