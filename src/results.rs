//! Search results: highlight positions per mode, the proximity and wildcard
//! post-filters, the chronological order and pagination.
use vstd::prelude::*;
use crate::positions::{
    u32_rows, smallest_of, concat_rows, phrase_set, near_end, has_near_pair,
    positions_for_terms, phrase_positions, proximity_positions,
    phrase_start, in_phrase, term_at,
};
use crate::wildcard::SearchMode;

verus! {

/// The highlight cap of combined and proximity searches.
pub const WIDE_HIGHLIGHT_CAP: usize = 50;

/// The highlight cap of simple, name and wildcard searches.
pub const HIGHLIGHT_CAP: usize = 20;

/// The highlight cap of a page opened from a result list.
pub const PAGE_HIGHLIGHT_CAP: usize = 100;


#[derive(Debug)]
pub struct SearchResult {
    pub id: u64,
    pub part_index: u64,
    pub page_id: u64,
    pub author_id: Option<u64>,
    pub corpus: String,
    pub author: String,
    pub title: String,
    pub death_ah: Option<u64>,
    pub century_ah: Option<u64>,
    pub genre: Option<String>,
    pub part_label: String,
    pub page_number: String,
    pub body: String,
    /// The index score, as the bits of an IEEE single.
    pub score_bits: u32,
    pub matched_token_indices: Vec<u32>,
}

#[derive(Debug)]
pub struct SearchResults {
    pub query: String,
    pub mode: SearchMode,
    pub total_hits: usize,
    pub results: Vec<SearchResult>,
    pub elapsed_ms: u64,
}

/// `a` may come before `b`: earlier death year first, unknown years last.
pub open spec fn death_le(a: Option<u64>, b: Option<u64>) -> bool {
    match (a, b) {
        (Some(x), Some(y)) => x <= y,
        (_, None) => true,
        (None, Some(_)) => false,
    }
}

pub open spec fn chronological(s: Seq<SearchResult>) -> bool {
    forall|i: int, j: int|
        0 <= i < j < s.len() ==> death_le(#[trigger] s[i].death_ah, #[trigger] s[j].death_ah)
}

fn death_le_exec(a: Option<u64>, b: Option<u64>) -> (r: bool)
    ensures
        r == death_le(a, b),
{
    match (a, b) {
        (Some(x), Some(y)) => x <= y,
        (_, None) => true,
        (None, Some(_)) => false,
    }
}

/// Orders results by death year, earliest first, those without one last;
/// results with equal years keep their order.
pub fn sort_by_death(v: Vec<SearchResult>) -> (r: Vec<SearchResult>)
    ensures
        chronological(r@),
        r@.to_multiset() == v@.to_multiset(),
{
    let ghost orig = v@;
    let mut v = v;
    let mut r: Vec<SearchResult> = Vec::new();
    proof {
        r@.to_multiset_ensures();
        vstd::multiset::lemma_multiset_empty_len(r@.to_multiset());
        assert(r@.to_multiset().add(v@.to_multiset()) =~= orig.to_multiset());
    }
    while v.len() > 0
        invariant
            chronological(r@),
            r@.to_multiset().add(v@.to_multiset()) == orig.to_multiset(),
        decreases v@.len(),
    {
        let ghost vs = v@;
        let x = v.pop().unwrap();
        proof {
            assert(vs =~= v@.push(x));
            vstd::seq_lib::to_multiset_build(v@, x);
        }
        let mut k: usize = 0;
        while k < r.len() && !death_le_exec(x.death_ah, r[k].death_ah)
            invariant
                k <= r@.len(),
                forall|i: int| 0 <= i < k ==> !death_le(x.death_ah, #[trigger] r@[i].death_ah),
            decreases r@.len() - k,
        {
            k = k + 1;
        }
        let ghost rs = r@;
        let ghost xd = x.death_ah;
        r.insert(k, x);
        proof {
            assert(r@ =~= rs.insert(k as int, x));
            vstd::seq_lib::to_multiset_insert(rs, k as int, x);
            assert forall|i: int, j: int| 0 <= i < j < r@.len() implies death_le(
                #[trigger] r@[i].death_ah,
                #[trigger] r@[j].death_ah,
            ) by {
                if j < k {
                    assert(r@[i] == rs[i] && r@[j] == rs[j]);
                } else if j == k {
                    assert(r@[i] == rs[i]);
                    assert(!death_le(xd, rs[i].death_ah));
                } else if i == k {
                    assert(r@[j] == rs[j - 1]);
                    assert(death_le(xd, rs[k as int].death_ah));
                    if j - 1 > k {
                        assert(death_le(rs[k as int].death_ah, rs[j - 1].death_ah));
                    }
                } else if i < k {
                    assert(r@[i] == rs[i] && r@[j] == rs[j - 1]);
                } else {
                    assert(r@[i] == rs[i - 1] && r@[j] == rs[j - 1]);
                }
            }
            assert(r@.to_multiset().add(v@.to_multiset()) =~= orig.to_multiset());
        }
    }
    proof {
        v@.to_multiset_ensures();
        vstd::multiset::lemma_multiset_empty_len(v@.to_multiset());
        assert(r@.to_multiset() =~= r@.to_multiset().add(v@.to_multiset()));
    }
    r
}

/// Two adjacent results of a chronological list are in death-year order, or
/// the second has no year.
pub proof fn chronological_adjacent(s: Seq<SearchResult>, i: int)
    requires
        chronological(s),
        0 <= i && i + 1 < s.len(),
    ensures
        s[i + 1].death_ah is None || (s[i].death_ah matches Some(a) && s[i + 1].death_ah matches Some(
            b,
        ) && a <= b),
{
    assert(death_le(s[i].death_ah, s[i + 1].death_ah));
}

/// The first item and the end of the page of `limit` items from `offset`.
pub open spec fn window_start(len: nat, offset: nat) -> int {
    if offset < len {
        offset as int
    } else {
        len as int
    }
}

pub open spec fn window_end(len: nat, offset: nat, limit: nat) -> int {
    if window_start(len, offset) + limit < len {
        window_start(len, offset) + limit
    } else {
        len as int
    }
}

/// Skips `offset` items and keeps at most `limit` of the rest.
pub fn paginate(v: Vec<SearchResult>, offset: usize, limit: usize) -> (r: Vec<SearchResult>)
    ensures
        r@ == v@.subrange(
            window_start(v@.len(), offset as nat),
            window_end(v@.len(), offset as nat, limit as nat),
        ),
{
    let mut v = v;
    let ghost vs = v@;
    if offset >= v.len() {
        let r: Vec<SearchResult> = Vec::new();
        assert(r@ =~= vs.subrange(vs.len() as int, vs.len() as int));
        return r;
    }
    let mut tail = v.split_off(offset);
    assert(tail@ =~= vs.subrange(offset as int, vs.len() as int));
    tail.truncate(limit);
    assert(tail@ =~= vs.subrange(
        window_start(vs.len(), offset as nat),
        window_end(vs.len(), offset as nat, limit as nat),
    ));
    tail
}

/// The results a caller sees: `hits` in chronological order, then the page
/// of `limit` from `offset`.
pub open spec fn shown_page(hits: Seq<SearchResult>, offset: nat, limit: nat, r: Seq<SearchResult>) -> bool {
    exists|s: Seq<SearchResult>|
        #[trigger] chronological(s) && s.to_multiset() == hits.to_multiset() && r == s.subrange(
            window_start(s.len(), offset),
            window_end(s.len(), offset, limit),
        )
}

pub fn finish_results(hits: Vec<SearchResult>, offset: usize, limit: usize) -> (r: Vec<
    SearchResult,
>)
    ensures
        shown_page(hits@, offset as nat, limit as nat, r@),
        chronological(r@),
        r@.len() == window_end(hits@.len(), offset as nat, limit as nat) - window_start(
            hits@.len(),
            offset as nat,
        ),
        forall|i: int| 0 <= i < r@.len() ==> hits@.contains(#[trigger] r@[i]),
{
    let ghost h = hits@;
    let sorted = sort_by_death(hits);
    let ghost s = sorted@;
    proof {
        vstd::seq_lib::lemma_multiset_commutative::<SearchResult>(s, seq![]);
        s.to_multiset_ensures();
        h.to_multiset_ensures();
    }
    let r = paginate(sorted, offset, limit);
    proof {
        assert(s.len() == h.len()) by {
            assert(s.to_multiset().len() == s.len());
            assert(h.to_multiset().len() == h.len());
        }
        assert forall|i: int, j: int| 0 <= i < j < r@.len() implies death_le(
            #[trigger] r@[i].death_ah,
            #[trigger] r@[j].death_ah,
        ) by {
            let a = window_start(s.len(), offset as nat);
            assert(r@[i] == s[a + i] && r@[j] == s[a + j]);
        }
        assert(chronological(s));
        assert forall|i: int| 0 <= i < r@.len() implies h.contains(#[trigger] r@[i]) by {
            let a = window_start(s.len(), offset as nat);
            let x = r@[i];
            assert(s[a + i] == x);
            assert(s.contains(x));
            vstd::seq_lib::to_multiset_contains(s, x);
            vstd::seq_lib::to_multiset_contains(h, x);
        }
    }
    r
}

/// Pagination keeps `min(limit, max(0, total - offset))` results.
pub proof fn page_length(total: nat, offset: nat, limit: nat)
    ensures
        window_end(total, offset, limit) - window_start(total, offset) == if offset >= total {
            0
        } else if limit < total - offset {
            limit as int
        } else {
            total - offset
        },
{
}

/// When the index hands back `min(total, offset + limit)` hits, the page of
/// results has `min(limit, max(0, total - offset))` of them.
pub proof fn page_length_of_index_hits(total: nat, offset: nat, limit: nat, hits: nat)
    requires
        hits == if total < offset + limit { total } else { offset + limit },
    ensures
        window_end(hits, offset, limit) - window_start(hits, offset) == if offset >= total {
            0
        } else if limit < total - offset {
            limit as int
        } else {
            total - offset
        },
{
}

/// The set of positions a term highlights: its phrase occurrences when it has
/// several words, else where its word occurs.
pub open spec fn term_set(per_word: Seq<Seq<u32>>) -> Set<u32> {
    if per_word.len() > 1 {
        phrase_set(per_word)
    } else {
        concat_rows(per_word).to_set()
    }
}

/// Highlights of one term, given the positions of each of its words.
pub fn term_highlight(per_word: &Vec<Vec<u32>>, max: usize) -> (r: Vec<u32>)
    ensures
        smallest_of(term_set(u32_rows(per_word@)), max as nat, r@),
{
    if per_word.len() > 1 {
        phrase_positions(per_word, max)
    } else {
        positions_for_terms(per_word, max)
    }
}

/// `hl` holds the highlights of each term, each cut to `max`.
pub open spec fn term_highlights(per_term: Seq<Seq<Seq<u32>>>, max: nat, hl: Seq<Seq<u32>>) -> bool {
    &&& hl.len() == per_term.len()
    &&& forall|k: int| 0 <= k < hl.len() ==> smallest_of(term_set(per_term[k]), max, #[trigger] hl[k])
}

pub open spec fn term_rows(v: Seq<Vec<Vec<u32>>>) -> Seq<Seq<Seq<u32>>> {
    v.map_values(|t: Vec<Vec<u32>>| u32_rows(t@))
}

/// The union of the terms' highlights, sorted, deduplicated and cut to `max`.
pub fn union_highlight(per_term: &Vec<Vec<Vec<u32>>>, max: usize) -> (r: Vec<u32>)
    ensures
        exists|hl: Seq<Seq<u32>>|
            #[trigger] term_highlights(term_rows(per_term@), max as nat, hl) && smallest_of(
                concat_rows(hl).to_set(),
                max as nat,
                r@,
            ),
{
    let mut hls: Vec<Vec<u32>> = Vec::new();
    let mut k: usize = 0;
    while k < per_term.len()
        invariant
            k <= per_term@.len(),
            hls@.len() == k,
            forall|m: int|
                0 <= m < k ==> smallest_of(
                    term_set(term_rows(per_term@)[m]),
                    max as nat,
                    #[trigger] u32_rows(hls@)[m],
                ),
        decreases per_term@.len() - k,
    {
        let h = term_highlight(&per_term[k], max);
        let ghost before = hls@;
        hls.push(h);
        proof {
            assert forall|m: int| 0 <= m < k + 1 implies smallest_of(
                term_set(term_rows(per_term@)[m]),
                max as nat,
                #[trigger] u32_rows(hls@)[m],
            ) by {
                if m < k {
                    assert(u32_rows(hls@)[m] == u32_rows(before)[m]);
                }
            }
        }
        k = k + 1;
    }
    let r = positions_for_terms(&hls, max);
    assert(term_highlights(term_rows(per_term@), max as nat, u32_rows(hls@)));
    r
}

/// Index of the first form with a pattern, or the number of forms.
pub open spec fn first_form(forms: Seq<Vec<String>>) -> int
    decreases forms.len(),
{
    if forms.len() == 0 {
        0
    } else {
        let f = first_form(forms.drop_last());
        if f < forms.len() - 1 {
            f
        } else if forms.last()@.len() > 0 {
            forms.len() - 1
        } else {
            forms.len() as int
        }
    }
}

proof fn lemma_first_form_prefix(forms: Seq<Vec<String>>, n: int)
    requires
        0 <= n <= forms.len(),
        first_form(forms.take(n)) < n,
    ensures
        first_form(forms) == first_form(forms.take(n)),
    decreases forms.len() - n,
{
    if n < forms.len() {
        assert(forms.take(n + 1).drop_last() =~= forms.take(n));
        lemma_first_form_prefix(forms, n + 1);
    } else {
        assert(forms.take(n) =~= forms);
    }
}

/// Highlights of a name search: the union of the highlights of the patterns
/// of the first form that has any, at most 20. `per_form[f][p]` holds the
/// positions of each word of pattern `p` of form `f`.
pub fn name_highlight(forms: &Vec<Vec<String>>, per_form: &Vec<Vec<Vec<Vec<u32>>>>) -> (r: Vec<
    u32,
>)
    ensures
        first_form(forms@) < forms@.len() && first_form(forms@) < per_form@.len() ==> exists|
            hl: Seq<Seq<u32>>,
        |
            #[trigger] term_highlights(
                term_rows(per_form@[first_form(forms@)]@),
                HIGHLIGHT_CAP as nat,
                hl,
            ) && smallest_of(concat_rows(hl).to_set(), HIGHLIGHT_CAP as nat, r@),
        !(first_form(forms@) < forms@.len() && first_form(forms@) < per_form@.len()) ==> r@.len()
            == 0,
{
    let mut k: usize = 0;
    while k < forms.len()
        invariant
            k <= forms@.len(),
            first_form(forms@.take(k as int)) == k as int,
        decreases forms@.len() - k,
    {
        assert(forms@.take(k as int + 1).drop_last() =~= forms@.take(k as int));
        if forms[k].len() > 0 {
            proof {
                lemma_first_form_prefix(forms@, k as int + 1);
            }
            if k < per_form.len() {
                return union_highlight(&per_form[k], HIGHLIGHT_CAP);
            }
            return Vec::new();
        }
        k = k + 1;
    }
    assert(forms@.take(forms@.len() as int) =~= forms@);
    Vec::new()
}

/// A proximity candidate: a page and the positions of each of the two terms.
#[derive(Debug)]
pub struct ProximityCandidate {
    pub result: SearchResult,
    pub first: Vec<u32>,
    pub second: Vec<u32>,
}

/// The indices of the candidates that have a close pair.
pub open spec fn near_indices(c: Seq<ProximityCandidate>, d: nat) -> Seq<int>
    decreases c.len(),
{
    if c.len() == 0 {
        seq![]
    } else {
        let p = near_indices(c.drop_last(), d);
        if has_near_pair(c.last().first@, c.last().second@, d) {
            p.push(c.len() - 1)
        } else {
            p
        }
    }
}

/// The ends of the candidate's pairs of positions at most `d` apart.
pub open spec fn near_set(c: ProximityCandidate, d: nat) -> Set<u32> {
    Set::new(|x: u32| near_end(c.first@, c.second@, d, x))
}

/// `r` is the result `c` with, at most, other highlights.
pub open spec fn same_page(r: SearchResult, c: SearchResult) -> bool {
    &&& r.id == c.id
    &&& r.part_index == c.part_index
    &&& r.page_id == c.page_id
    &&& r.author_id == c.author_id
    &&& r.corpus == c.corpus
    &&& r.author == c.author
    &&& r.title == c.title
    &&& r.death_ah == c.death_ah
    &&& r.century_ah == c.century_ah
    &&& r.genre == c.genre
    &&& r.part_label == c.part_label
    &&& r.page_number == c.page_number
    &&& r.body == c.body
    &&& r.score_bits == c.score_bits
}

/// Keeps the candidates with a pair of term positions at most `max_distance`
/// apart, highlighting the ends of such pairs (at most 50).
pub fn filter_proximity(cands: Vec<ProximityCandidate>, max_distance: usize) -> (r: Vec<
    SearchResult,
>)
    ensures
        r@.len() == near_indices(cands@, max_distance as nat).len(),
        forall|m: int|
            0 <= m < r@.len() ==> {
                let c = #[trigger] cands@[near_indices(cands@, max_distance as nat)[m]];
                &&& same_page(r@[m], c.result)
                &&& smallest_of(
                    near_set(c, max_distance as nat),
                    WIDE_HIGHLIGHT_CAP as nat,
                    r@[m].matched_token_indices@,
                )
            },
{
    let ghost all = cands@;
    let mut cands = cands;
    let mut rev: Vec<SearchResult> = Vec::new();
    assert(all.take(all.len() as int) =~= all);
    // taken from the back; `rev` holds the kept ones of the taken suffix, last first
    while cands.len() > 0
        invariant
            cands@ == all.take(cands@.len() as int),
            cands@.len() <= all.len(),
            rev@.len() + near_indices(all.take(cands@.len() as int), max_distance as nat).len()
                == near_indices(all, max_distance as nat).len(),
            forall|m: int|
                0 <= m < rev@.len() ==> {
                    let idx = near_indices(all, max_distance as nat)[near_indices(all, max_distance as nat).len() - 1 - m];
                    let c = all[idx];
                    &&& same_page(#[trigger] rev@[m], c.result)
                    &&& smallest_of(
                        near_set(c, max_distance as nat),
                        WIDE_HIGHLIGHT_CAP as nat,
                        rev@[m].matched_token_indices@,
                    )
                },
            forall|j: int|
                0 <= j < near_indices(all.take(cands@.len() as int), max_distance as nat).len()
                    ==> #[trigger] near_indices(all.take(cands@.len() as int), max_distance as nat)[j]
                    == near_indices(all, max_distance as nat)[j],
        decreases cands@.len(),
    {
        let ghost n = cands@.len() as int;
        let c = cands.pop().unwrap();
        proof {
            assert(all.take(n).drop_last() =~= all.take(n - 1));
            assert(all.take(n).last() == all[n - 1]);
        }
        let hl = proximity_positions(&c.first, &c.second, max_distance, WIDE_HIGHLIGHT_CAP);
        assert(near_set(c, max_distance as nat) =~= Set::new(
            |x: u32| near_end(c.first@, c.second@, max_distance as nat, x),
        ));
        if hl.len() > 0 {
            let ProximityCandidate { result, first, second } = c;
            let mut result = result;
            result.matched_token_indices = hl;
            let ghost before = rev@;
            rev.push(result);
            proof {
                let ni = near_indices(all, max_distance as nat);
                let np = near_indices(all.take(n - 1), max_distance as nat);
                assert(near_indices(all.take(n), max_distance as nat) == np.push(n - 1));
                assert(near_indices(all.take(n), max_distance as nat)[np.len() as int] == n - 1);
                assert(ni[np.len() as int] == n - 1);
                assert forall|m: int| 0 <= m < rev@.len() implies {
                    let idx = ni[ni.len() - 1 - m];
                    let c = all[idx];
                    &&& same_page(#[trigger] rev@[m], c.result)
                    &&& smallest_of(
                        near_set(c, max_distance as nat),
                        WIDE_HIGHLIGHT_CAP as nat,
                        rev@[m].matched_token_indices@,
                    )
                } by {
                    if m < before.len() {
                        assert(rev@[m] == before[m]);
                    }
                }
                assert forall|j: int| 0 <= j < np.len() implies #[trigger] np[j] == ni[j] by {
                    assert(near_indices(all.take(n), max_distance as nat)[j] == np[j]);
                }
            }
        } else {
            proof {
                assert(near_indices(all.take(n), max_distance as nat) == near_indices(
                    all.take(n - 1),
                    max_distance as nat,
                ));
            }
        }
    }
    proof {
        assert(all.take(0) =~= Seq::<ProximityCandidate>::empty());
    }
    let mut r: Vec<SearchResult> = Vec::new();
    let ghost ni = near_indices(all, max_distance as nat);
    let ghost revs = rev@;
    while rev.len() > 0
        invariant
            rev@ == revs.take(rev@.len() as int),
            revs.len() == ni.len(),
            r@.len() + rev@.len() == revs.len(),
            forall|m: int| 0 <= m < r@.len() ==> #[trigger] r@[m] == revs[revs.len() - 1 - m],
        decreases rev@.len(),
    {
        let ghost n = rev@.len() as int;
        let x = rev.pop().unwrap();
        assert(revs.take(n).drop_last() =~= revs.take(n - 1));
        let ghost before = r@;
        r.push(x);
        assert forall|m: int| 0 <= m < r@.len() implies #[trigger] r@[m] == revs[revs.len() - 1 - m] by {
            if m < before.len() {
                assert(r@[m] == before[m]);
            }
        }
    }
    r
}

/// A wildcard candidate: a page and, for each word of the query in order,
/// the positions it occurs at; the wildcard word's row holds the positions of
/// every indexed word it may stand for.
#[derive(Debug)]
pub struct WildcardCandidate {
    pub result: SearchResult,
    pub rows: Vec<Vec<u32>>,
}

/// The words occur in order at consecutive positions somewhere on the page.
pub open spec fn phrase_occurs(rows: Seq<Seq<u32>>) -> bool {
    rows.len() > 0 && exists|p: int| #[trigger] phrase_start(rows, p)
}

/// Whether a multi-word wildcard page passes: its words occur in order at
/// consecutive positions. The page's highlights become its first 20
/// positions of any word.
pub fn check_wildcard_candidate(c: &mut WildcardCandidate) -> (r: bool)
    ensures
        r == phrase_occurs(u32_rows(old(c).rows@)),
        smallest_of(
            concat_rows(u32_rows(old(c).rows@)).to_set(),
            HIGHLIGHT_CAP as nat,
            final(c).result.matched_token_indices@,
        ),
        same_page(final(c).result, old(c).result),
        final(c).rows == old(c).rows,
{
    let first = phrase_positions(&c.rows, 1);
    let pass = c.rows.len() > 0 && first.len() > 0;
    proof {
        let rs = u32_rows(c.rows@);
        if first@.len() > 0 {
            assert(phrase_set(rs).contains(first@[0]));
            assert(in_phrase(rs, first@[0]));
        }
        if c.rows@.len() > 0 && (exists|p: int| #[trigger] phrase_start(rs, p)) {
            let p = choose|p: int| #[trigger] phrase_start(rs, p);
            assert(term_at(rs, 0, p));
            let x = p as u32;
            assert(phrase_start(rs, p) && p <= x < p + rs.len());
            assert(in_phrase(rs, x));
            assert(phrase_set(rs).contains(x));
            if !first@.contains(x) {
                assert(first@.len() == 1);
            } else {
                assert(first@.len() > 0);
            }
        }
    }
    let hl = positions_for_terms(&c.rows, HIGHLIGHT_CAP);
    c.result.matched_token_indices = hl;
    pass
}

/// The indices of the wildcard candidates whose words occur in order.
pub open spec fn phrase_indices(c: Seq<WildcardCandidate>) -> Seq<int>
    decreases c.len(),
{
    if c.len() == 0 {
        seq![]
    } else {
        let p = phrase_indices(c.drop_last());
        if phrase_occurs(u32_rows(c.last().rows@)) {
            p.push(c.len() - 1)
        } else {
            p
        }
    }
}

/// `x` is the passing wildcard candidate number `m`, with its first 20
/// positions as highlights.
pub open spec fn wildcard_kept(c: Seq<WildcardCandidate>, m: int, x: SearchResult) -> bool {
    &&& 0 <= m < phrase_indices(c).len()
    &&& same_page(x, c[phrase_indices(c)[m]].result)
    &&& smallest_of(
        concat_rows(u32_rows(c[phrase_indices(c)[m]].rows@)).to_set(),
        HIGHLIGHT_CAP as nat,
        x.matched_token_indices@,
    )
}

/// Keeps the multi-word wildcard candidates whose words occur in order,
/// each with its first 20 positions as highlights.
pub fn filter_wildcard(cands: Vec<WildcardCandidate>) -> (r: Vec<SearchResult>)
    ensures
        r@.len() == phrase_indices(cands@).len(),
        forall|m: int| 0 <= m < r@.len() ==> #[trigger] wildcard_kept(cands@, m, r@[m]),
{
    let ghost all = cands@;
    let ghost ni = phrase_indices(all);
    let mut cands = cands;
    let mut rev: Vec<SearchResult> = Vec::new();
    assert(all.take(all.len() as int) =~= all);
    while cands.len() > 0
        invariant
            ni == phrase_indices(all),
            cands@ == all.take(cands@.len() as int),
            cands@.len() <= all.len(),
            rev@.len() + phrase_indices(all.take(cands@.len() as int)).len() == ni.len(),
            forall|m: int|
                0 <= m < rev@.len() ==> wildcard_kept(all, ni.len() - 1 - m, #[trigger] rev@[m]),
            forall|j: int|
                0 <= j < phrase_indices(all.take(cands@.len() as int)).len()
                    ==> #[trigger] phrase_indices(all.take(cands@.len() as int))[j] == ni[j],
        decreases cands@.len(),
    {
        let ghost k = cands@.len() as int;
        let mut c = cands.pop().unwrap();
        proof {
            assert(all.take(k).drop_last() =~= all.take(k - 1));
            assert(all.take(k).last() == all[k - 1]);
        }
        let pass = check_wildcard_candidate(&mut c);
        if pass {
            let ghost before = rev@;
            rev.push(c.result);
            proof {
                let np = phrase_indices(all.take(k - 1));
                assert(phrase_indices(all.take(k)) == np.push(k - 1));
                assert(phrase_indices(all.take(k))[np.len() as int] == k - 1);
                assert(ni[np.len() as int] == k - 1);
                assert forall|m: int| 0 <= m < rev@.len() implies wildcard_kept(
                    all,
                    ni.len() - 1 - m,
                    #[trigger] rev@[m],
                ) by {
                    if m < before.len() {
                        assert(rev@[m] == before[m]);
                    }
                }
                assert forall|j: int| 0 <= j < np.len() implies #[trigger] np[j] == ni[j] by {
                    assert(phrase_indices(all.take(k))[j] == np[j]);
                }
            }
        } else {
            assert(phrase_indices(all.take(k)) == phrase_indices(all.take(k - 1)));
        }
    }
    assert(all.take(0) =~= Seq::<WildcardCandidate>::empty());
    let mut r: Vec<SearchResult> = Vec::new();
    let ghost revs = rev@;
    while rev.len() > 0
        invariant
            rev@ == revs.take(rev@.len() as int),
            revs.len() == ni.len(),
            r@.len() + rev@.len() == revs.len(),
            forall|m: int| 0 <= m < r@.len() ==> #[trigger] r@[m] == revs[revs.len() - 1 - m],
        decreases rev@.len(),
    {
        let ghost k = rev@.len() as int;
        let x = rev.pop().unwrap();
        assert(revs.take(k).drop_last() =~= revs.take(k - 1));
        let ghost before = r@;
        r.push(x);
        assert forall|m: int| 0 <= m < r@.len() implies #[trigger] r@[m] == revs[revs.len() - 1 - m] by {
            if m < before.len() {
                assert(r@[m] == before[m]);
            }
        }
    }
    assert forall|m: int| 0 <= m < r@.len() implies #[trigger] wildcard_kept(all, m, r@[m]) by {
        assert(r@[m] == revs[revs.len() - 1 - m]);
    }
    r
}

/// The number of candidates a search asks the index for: `limit + offset`.
pub fn fetch_count(offset: usize, limit: usize) -> (r: usize)
    ensures
        r == if offset + limit <= usize::MAX { offset + limit } else { usize::MAX as int },
{
    limit.saturating_add(offset)
}

/// The candidates a proximity search asks for: `max(5000, 20·(limit+offset))`.
pub fn proximity_fetch_count(offset: usize, limit: usize) -> (r: usize)
    ensures
        r == if 20 * (offset + limit) <= 5000 { 5000 } else if 20 * (offset + limit) <= usize::MAX {
            20 * (offset + limit)
        } else {
            usize::MAX as int
        },
{
    let base = fetch_count(offset, limit);
    let wide = if base > usize::MAX / 20 {
        usize::MAX
    } else {
        base * 20
    };
    if wide <= 5000 {
        5000
    } else {
        wide
    }
}

/// The candidates a wildcard search asks for: ten times `limit + offset`
/// for several words, `limit + offset` for one.
pub fn wildcard_fetch_count(offset: usize, limit: usize, words: usize) -> (r: usize)
    ensures
        r == if words > 1 {
            if 10 * (offset + limit) <= usize::MAX { 10 * (offset + limit) } else { usize::MAX as int }
        } else if offset + limit <= usize::MAX {
            offset + limit
        } else {
            usize::MAX as int
        },
{
    let base = fetch_count(offset, limit);
    if words > 1 {
        if base > usize::MAX / 10 {
            usize::MAX
        } else {
            base * 10
        }
    } else {
        base
    }
}

/// A simple, combined or name search, or a one-word wildcard search: the
/// candidates in chronological order, then the requested page; the total is
/// the index's count.
pub fn assemble_results(
    query: String,
    mode: SearchMode,
    total_hits: usize,
    hits: Vec<SearchResult>,
    offset: usize,
    limit: usize,
) -> (r: SearchResults)
    ensures
        r.query@ == query@,
        r.mode == mode,
        r.total_hits == total_hits,
        shown_page(hits@, offset as nat, limit as nat, r.results@),
        chronological(r.results@),
        r.elapsed_ms == 0,
{
    let results = finish_results(hits, offset, limit);
    SearchResults { query, mode, total_hits, results, elapsed_ms: 0 }
}

/// `x` is the passing proximity candidate number `m`, with the ends of its
/// close pairs (at most 50) as highlights.
pub open spec fn proximity_kept(c: Seq<ProximityCandidate>, d: nat, m: int, x: SearchResult) -> bool {
    &&& 0 <= m < near_indices(c, d).len()
    &&& same_page(x, c[near_indices(c, d)[m]].result)
    &&& smallest_of(
        near_set(c[near_indices(c, d)[m]], d),
        WIDE_HIGHLIGHT_CAP as nat,
        x.matched_token_indices@,
    )
}

/// `x` is one of the passing proximity candidates, highlighted.
pub open spec fn proximity_source(c: Seq<ProximityCandidate>, d: nat, x: SearchResult) -> bool {
    exists|m: int| #[trigger] proximity_kept(c, d, m, x)
}

/// `x` is one of the passing wildcard candidates, highlighted.
pub open spec fn wildcard_source(c: Seq<WildcardCandidate>, x: SearchResult) -> bool {
    exists|m: int| #[trigger] wildcard_kept(c, m, x)
}

/// A proximity search: the candidates with a close pair, in chronological
/// order, then the requested page; the total counts the passing candidates.
/// Each result is a passing candidate highlighted at the ends of its close
/// pairs.
pub fn proximity_results(
    query: String,
    mode: SearchMode,
    cands: Vec<ProximityCandidate>,
    max_distance: usize,
    offset: usize,
    limit: usize,
) -> (r: SearchResults)
    ensures
        r.query@ == query@,
        r.mode == mode,
        r.total_hits == near_indices(cands@, max_distance as nat).len(),
        chronological(r.results@),
        r.results@.len() == window_end(r.total_hits as nat, offset as nat, limit as nat)
            - window_start(r.total_hits as nat, offset as nat),
        exists|kept: Seq<SearchResult>|
            #[trigger] shown_page(kept, offset as nat, limit as nat, r.results@) && kept.len()
                == r.total_hits && forall|m: int|
                0 <= m < kept.len() ==> proximity_kept(cands@, max_distance as nat, m, #[trigger] kept[m]),
        forall|i: int|
            0 <= i < r.results@.len() ==> proximity_source(
                cands@,
                max_distance as nat,
                #[trigger] r.results@[i],
            ),
        forall|i: int|
            0 <= i < r.results@.len() ==> (#[trigger] r.results@[i]).matched_token_indices@.len()
                <= WIDE_HIGHLIGHT_CAP,
        r.elapsed_ms == 0,
{
    let ghost c = cands@;
    let kept = filter_proximity(cands, max_distance);
    let ghost k = kept@;
    let total = kept.len();
    let results = finish_results(kept, offset, limit);
    let r = SearchResults { query, mode, total_hits: total, results, elapsed_ms: 0 };
    proof {
        assert forall|m: int| 0 <= m < k.len() implies proximity_kept(c, max_distance as nat, m, #[trigger] k[m]) by {}
        assert forall|i: int|
            #![trigger r.results@[i]]
            0 <= i < r.results@.len() implies proximity_source(c, max_distance as nat, r.results@[i]) by {
            assert(k.contains(r.results@[i]));
            let m = choose|m: int| 0 <= m < k.len() && k[m] == r.results@[i];
            assert(proximity_kept(c, max_distance as nat, m, k[m]));
        }
        assert forall|i: int| 0 <= i < r.results@.len() implies (#[trigger] r.results@[i]).matched_token_indices@.len() <= WIDE_HIGHLIGHT_CAP by {
            assert(k.contains(r.results@[i]));
            let m = choose|m: int| 0 <= m < k.len() && k[m] == r.results@[i];
            assert(proximity_kept(c, max_distance as nat, m, k[m]));
        }
    }
    r
}

/// A multi-word wildcard search: the candidates whose words occur in order,
/// in chronological order, then the requested page; the total counts the
/// passing candidates. Each result is a passing candidate highlighted at its
/// first 20 positions.
pub fn wildcard_results(
    query: String,
    cands: Vec<WildcardCandidate>,
    offset: usize,
    limit: usize,
) -> (r: SearchResults)
    ensures
        r.query@ == query@,
        r.mode == SearchMode::Surface,
        r.total_hits == phrase_indices(cands@).len(),
        chronological(r.results@),
        r.results@.len() == window_end(r.total_hits as nat, offset as nat, limit as nat)
            - window_start(r.total_hits as nat, offset as nat),
        exists|kept: Seq<SearchResult>|
            #[trigger] shown_page(kept, offset as nat, limit as nat, r.results@) && kept.len()
                == r.total_hits && forall|m: int|
                0 <= m < kept.len() ==> wildcard_kept(cands@, m, #[trigger] kept[m]),
        forall|i: int|
            0 <= i < r.results@.len() ==> wildcard_source(cands@, #[trigger] r.results@[i]),
        forall|i: int|
            0 <= i < r.results@.len() ==> (#[trigger] r.results@[i]).matched_token_indices@.len()
                <= HIGHLIGHT_CAP,
        r.elapsed_ms == 0,
{
    let ghost c = cands@;
    let kept = filter_wildcard(cands);
    let ghost k = kept@;
    let total = kept.len();
    let results = finish_results(kept, offset, limit);
    let r = SearchResults { query, mode: SearchMode::Surface, total_hits: total, results, elapsed_ms: 0 };
    proof {
        assert forall|m: int| 0 <= m < k.len() implies wildcard_kept(c, m, #[trigger] k[m]) by {}
        assert forall|i: int|
            #![trigger r.results@[i]]
            0 <= i < r.results@.len() implies wildcard_source(c, r.results@[i]) by {
            assert(k.contains(r.results@[i]));
            let m = choose|m: int| 0 <= m < k.len() && k[m] == r.results@[i];
            assert(wildcard_kept(c, m, k[m]));
        }
        assert forall|i: int| 0 <= i < r.results@.len() implies (#[trigger] r.results@[i]).matched_token_indices@.len() <= HIGHLIGHT_CAP by {
            assert(k.contains(r.results@[i]));
            let m = choose|m: int| 0 <= m < k.len() && k[m] == r.results@[i];
            assert(wildcard_kept(c, m, k[m]));
        }
    }
    r
}

/// Highlights of a phrase query are exactly its occurrences: every position
/// shown lies in an occurrence, and when fewer than `max` are shown, every
/// position of every occurrence is shown.
pub proof fn phrase_highlights_are_occurrences(rows: Seq<Seq<u32>>, max: nat, r: Seq<u32>)
    requires
        smallest_of(phrase_set(rows), max, r),
    ensures
        forall|i: int| 0 <= i < r.len() ==> in_phrase(rows, #[trigger] r[i]),
        r.len() < max ==> forall|p: int|
            #[trigger] phrase_start(rows, p) ==> forall|j: int|
                0 <= j < rows.len() ==> #[trigger] r.contains((p + j) as u32),
{
    assert forall|i: int| 0 <= i < r.len() implies in_phrase(rows, #[trigger] r[i]) by {
        assert(phrase_set(rows).contains(r[i]));
    }
    if r.len() < max {
        assert forall|p: int| #[trigger] phrase_start(rows, p) implies forall|j: int|
            0 <= j < rows.len() ==> #[trigger] r.contains((p + j) as u32) by {
            assert forall|j: int| 0 <= j < rows.len() implies #[trigger] r.contains(
                (p + j) as u32,
            ) by {
                assert(crate::positions::term_at(rows, j, p));
                assert(in_phrase(rows, (p + j) as u32));
                assert(phrase_set(rows).contains((p + j) as u32));
            }
        }
    }
}

/// Every run of consecutive highlights of a phrase query starts an actual
/// occurrence: a highlighted position whose predecessor is not highlighted is
/// the first word of an occurrence (so a maximal run of the phrase's length
/// is exactly one occurrence).
pub proof fn phrase_runs_start_occurrences(rows: Seq<Seq<u32>>, max: nat, r: Seq<u32>, x: u32)
    requires
        smallest_of(phrase_set(rows), max, r),
        r.contains(x),
        x == 0 || !r.contains((x - 1) as u32),
    ensures
        phrase_start(rows, x as int),
{
    assert(phrase_set(rows).contains(x));
    let q = choose|q: int| #[trigger] phrase_start(rows, q) && q <= x < q + rows.len();
    if q < x {
        let y = (x - 1) as u32;
        assert(phrase_start(rows, q) && q <= y < q + rows.len());
        assert(in_phrase(rows, y));
        assert(phrase_set(rows).contains(y));
        let i = choose|i: int| 0 <= i < r.len() && r[i] == x;
        if i < r.len() - 1 {
            assert(r[i] < r[r.len() - 1]);
        }
    }
}

/// No highlight list is longer than its cap.
pub proof fn highlight_cap(u: Set<u32>, max: nat, r: Seq<u32>)
    requires
        smallest_of(u, max, r),
    ensures
        r.len() <= max,
{
}

/// A page opened for reading, with the positions a query matched on it.
#[derive(Debug)]
pub struct PageWithMatches {
    pub title: String,
    pub author: String,
    pub part_label: String,
    pub page_number: String,
    pub body: String,
    pub matched_token_indices: Vec<u32>,
}

/// The page of `r` with the highlights of a query whose words occur at
/// `per_word` (phrase occurrences for several words, at most 100).
pub fn page_with_matches(r: SearchResult, per_word: &Vec<Vec<u32>>) -> (p: PageWithMatches)
    ensures
        p.title@ == r.title@,
        p.author@ == r.author@,
        p.part_label@ == r.part_label@,
        p.page_number@ == r.page_number@,
        p.body@ == r.body@,
        smallest_of(term_set(u32_rows(per_word@)), PAGE_HIGHLIGHT_CAP as nat, p.matched_token_indices@),
{
    let matched = term_highlight(per_word, PAGE_HIGHLIGHT_CAP);
    PageWithMatches {
        title: r.title,
        author: r.author,
        part_label: r.part_label,
        page_number: r.page_number,
        body: r.body,
        matched_token_indices: matched,
    }
}

} // verus!
