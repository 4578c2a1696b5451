//! Token offsets of a match on one page: the union of per-term positions,
//! consecutive phrase occurrences, proximity pairs and adjacency windows.
//! The raw per-term position lists come from the positional index.
use vstd::prelude::*;

verus! {

pub open spec fn u32_rows(v: Seq<Vec<u32>>) -> Seq<Seq<u32>> {
    v.map_values(|w: Vec<u32>| w@)
}

/// `r` lists, in increasing order, the `max` smallest members of `u`
/// (all of them when `u` has fewer).
pub open spec fn smallest_of(u: Set<u32>, max: nat, r: Seq<u32>) -> bool {
    &&& r.len() <= max
    &&& forall|i: int, j: int| 0 <= i < j < r.len() ==> r[i] < r[j]
    &&& forall|i: int| 0 <= i < r.len() ==> u.contains(#[trigger] r[i])
    &&& forall|x: u32|
        #[trigger] u.contains(x) && !r.contains(x) ==> r.len() == max && (r.len() > 0 ==> x
            > r.last())
}

proof fn lemma_strictly_increasing_bound(f: spec_fn(int) -> int, n: int, m: int)
    requires
        0 <= n,
        0 <= m,
        forall|i: int| 0 <= i < n ==> 0 <= #[trigger] f(i) < m,
        forall|i: int, k: int| 0 <= i < k < n ==> #[trigger] f(i) < #[trigger] f(k),
    ensures
        n <= m,
    decreases n,
{
    if n > 0 {
        assert forall|i: int| 0 <= i < n - 1 implies #[trigger] f(i) < f(n - 1) by {}
        assert(0 <= f(n - 1) < m);
        lemma_strictly_increasing_bound(f, n - 1, f(n - 1));
    }
}

/// A sorted list of distinct values that lie in a sorted list `r` has at
/// most as many items as `r`, and fewer when it misses `r[hole]`.
proof fn lemma_members_bound(r: Seq<u32>, s: Seq<u32>, hole: int)
    requires
        forall|i: int, j: int| 0 <= i < j < r.len() ==> r[i] < r[j],
        forall|i: int, j: int| 0 <= i < j < s.len() ==> s[i] < s[j],
        forall|i: int| 0 <= i < s.len() ==> r.contains(#[trigger] s[i]),
        -1 <= hole < r.len(),
        hole >= 0 ==> !s.contains(r[hole]),
    ensures
        hole < 0 ==> s.len() <= r.len(),
        hole >= 0 ==> s.len() < r.len(),
{
    let f = |k: int| choose|j: int| 0 <= j < r.len() && r[j] == s[k];
    assert forall|k: int| 0 <= k < s.len() implies 0 <= #[trigger] f(k) < r.len() && r[f(k)]
        == s[k] by {
        assert(r.contains(s[k]));
    }
    assert forall|a: int, b: int| 0 <= a < b < s.len() implies #[trigger] f(a) < #[trigger] f(b) by {
        if f(a) >= f(b) {
            if f(a) > f(b) {
                assert(r[f(b)] < r[f(a)]);
            }
        }
    }
    if hole < 0 {
        lemma_strictly_increasing_bound(f, s.len() as int, r.len() as int);
    } else {
        let g = |k: int| if f(k) < hole { f(k) } else { f(k) - 1 };
        assert forall|k: int| 0 <= k < s.len() implies 0 <= #[trigger] g(k) < r.len() - 1 by {
            assert(f(k) != hole) by {
                if f(k) == hole {
                    assert(s.contains(s[k]));
                }
            }
        }
        assert forall|a: int, b: int| 0 <= a < b < s.len() implies #[trigger] g(a) < #[trigger] g(b) by {
            assert(f(a) < f(b));
            assert(f(a) != hole && f(b) != hole) by {
                if f(a) == hole { assert(s.contains(s[a])); }
                if f(b) == hole { assert(s.contains(s[b])); }
            }
        }
        lemma_strictly_increasing_bound(g, s.len() as int, r.len() - 1);
    }
}

proof fn lemma_sorted_equal(r: Seq<u32>, s: Seq<u32>)
    requires
        r.len() == s.len(),
        forall|a: int, b: int| 0 <= a < b < r.len() ==> r[a] < r[b],
        forall|a: int, b: int| 0 <= a < b < s.len() ==> s[a] < s[b],
        forall|i: int| 0 <= i < r.len() ==> s.contains(#[trigger] r[i]),
    ensures
        r == s,
    decreases r.len(),
{
    if r.len() > 0 {
        let n = r.len() - 1;
        assert forall|i: int| 0 <= i < s.len() implies r.contains(#[trigger] s[i]) by {
            if !r.contains(s[i]) {
                lemma_members_bound(s, r, i);
            }
        }
        assert(r[n] == s[n]) by {
            let a = choose|j: int| 0 <= j < s.len() && s[j] == r[n];
            let b = choose|j: int| 0 <= j < r.len() && r[j] == s[n];
            if a < n {
                assert(s[a] < s[n]);
                if b < n {
                    assert(r[b] < r[n]);
                }
            }
            if b < n {
                assert(r[b] < r[n]);
            }
        }
        let r2 = r.drop_last();
        let s2 = s.drop_last();
        assert forall|i: int| 0 <= i < r2.len() implies s2.contains(#[trigger] r2[i]) by {
            let a = choose|j: int| 0 <= j < s.len() && s[j] == r[i];
            assert(r[i] < r[n]);
            assert(a != n);
            assert(s2[a] == r2[i]);
        }
        lemma_sorted_equal(r2, s2);
        assert(r =~= r2.push(r[n]));
        assert(s =~= s2.push(s[n]));
    } else {
        assert(r =~= s);
    }
}

/// Only one list meets `smallest_of` for a given set and bound.
pub proof fn smallest_of_unique(u: Set<u32>, max: nat, r: Seq<u32>, s: Seq<u32>)
    requires
        smallest_of(u, max, r),
        smallest_of(u, max, s),
    ensures
        r == s,
{
    lemma_subset_of_other(u, max, r, s);
    lemma_subset_of_other(u, max, s, r);
    lemma_members_bound(r, s, -1);
    lemma_members_bound(s, r, -1);
    lemma_sorted_equal(r, s);
}

/// Each item of one list meeting `smallest_of` is in any other.
proof fn lemma_subset_of_other(u: Set<u32>, max: nat, r: Seq<u32>, s: Seq<u32>)
    requires
        smallest_of(u, max, r),
        smallest_of(u, max, s),
    ensures
        forall|i: int| 0 <= i < s.len() ==> r.contains(#[trigger] s[i]),
{
    assert forall|i: int| 0 <= i < s.len() implies r.contains(#[trigger] s[i]) by {
        if !r.contains(s[i]) {
            assert(u.contains(s[i]));
            // r is full and below s[i]; every item of r is then in s (else s is
            // full and below it), and s holds one more: too many
            assert forall|k: int| 0 <= k < r.len() implies s.contains(#[trigger] r[k]) by {
                if !s.contains(r[k]) {
                    assert(u.contains(r[k]));
                    assert(r[k] > s.last());
                    assert(s[i] > r.last());
                    if k < r.len() - 1 { assert(r[k] < r[r.len() - 1]); }
                    if i < s.len() - 1 { assert(s[i] < s[s.len() - 1]); }
                }
            }
            lemma_members_bound(s, r, i);
        }
    }
}

/// The `max` smallest distinct values of `vals`, in increasing order.
pub fn take_smallest(vals: &Vec<u32>, max: usize) -> (r: Vec<u32>)
    ensures
        smallest_of(vals@.to_set(), max as nat, r@),
{
    let mut r: Vec<u32> = Vec::new();
    while r.len() < max
        invariant
            r@.len() <= max,
            forall|i: int, j: int| 0 <= i < j < r@.len() ==> r@[i] < r@[j],
            forall|i: int| 0 <= i < r@.len() ==> vals@.contains(#[trigger] r@[i]),
            forall|x: u32|
                #[trigger] vals@.contains(x) && r@.len() > 0 && x <= r@.last() ==> r@.contains(x),
        decreases max - r@.len(),
    {
        let mut found = false;
        let mut best: u32 = 0;
        let mut i: usize = 0;
        while i < vals.len()
            invariant
                i <= vals@.len(),
                r@.len() < max,
                found ==> vals@.contains(best) && (r@.len() == 0 || best > r@.last()),
                forall|j: int|
                    0 <= j < i && (r@.len() == 0 || vals@[j] > r@.last()) ==> found && best
                        <= #[trigger] vals@[j],
            decreases vals@.len() - i,
        {
            let v = vals[i];
            if (r.len() == 0 || v > r[r.len() - 1]) && (!found || v < best) {
                found = true;
                best = v;
            }
            i = i + 1;
        }
        if !found {
            proof {
                assert forall|x: u32| #[trigger] vals@.contains(x) implies r@.contains(x) by {
                    let j = choose|j: int| 0 <= j < vals@.len() && vals@[j] == x;
                    assert(r@.len() > 0 && x <= r@.last());
                }
                assert forall|x: u32| #[trigger]
                    vals@.to_set().contains(x) && !r@.contains(x) implies r@.len() == max
                    && (r@.len() > 0 ==> x > r@.last()) by {
                    assert(vals@.contains(x));
                }
            }
            return r;
        }
        let ghost old_r = r@;
        r.push(best);
        proof {
            assert forall|x: u32| #[trigger]
                vals@.contains(x) && r@.len() > 0 && x <= r@.last() implies r@.contains(x) by {
                let j = choose|j: int| 0 <= j < vals@.len() && vals@[j] == x;
                if old_r.len() > 0 && x <= old_r.last() {
                    assert(old_r.contains(x));
                    let k = choose|k: int| 0 <= k < old_r.len() && old_r[k] == x;
                    assert(r@[k] == x);
                } else {
                    assert(best <= vals@[j]);
                    assert(r@[r@.len() - 1] == x);
                }
            }
        }
    }
    proof {
        assert forall|x: u32| #[trigger]
            vals@.to_set().contains(x) && !r@.contains(x) implies r@.len() == max && (r@.len() > 0
            ==> x > r@.last()) by {
            assert(vals@.contains(x));
            if r@.len() == 0 {
            }
        }
        assert forall|i: int| 0 <= i < r@.len() implies vals@.to_set().contains(#[trigger] r@[i]) by {
            assert(vals@.contains(r@[i]));
        }
    }
    r
}

/// `r` lists the distinct values of `vals`, in increasing order.
pub open spec fn sorted_members(vals: Seq<u32>, r: Seq<u32>) -> bool {
    &&& forall|i: int, j: int| 0 <= i < j < r.len() ==> r[i] < r[j]
    &&& forall|x: u32| r.contains(x) <==> vals.contains(x)
}

/// The distinct values of `vals`, sorted.
pub fn sorted_distinct(vals: &Vec<u32>) -> (r: Vec<u32>)
    ensures
        sorted_members(vals@, r@),
{
    let r = take_smallest(vals, vals.len());
    proof {
        let u = vals@.to_set();
        assert forall|x: u32| r@.contains(x) <==> vals@.contains(x) by {
            if r@.contains(x) {
                let i = choose|i: int| 0 <= i < r@.len() && r@[i] == x;
                assert(u.contains(r@[i]));
            }
            if vals@.contains(x) && !r@.contains(x) {
                assert(u.contains(x));
                assert(r@.len() == vals@.len());
                assert(r@.no_duplicates()) by {
                    assert forall|i: int, j: int|
                        0 <= i < r@.len() && 0 <= j < r@.len() && i != j implies r@[i] != r@[j] by {
                        if i < j {
                            assert(r@[i] < r@[j]);
                        } else {
                            assert(r@[j] < r@[i]);
                        }
                    }
                }
                r@.unique_seq_to_set();
                vals@.lemma_cardinality_of_set();
                let t = r@.to_set().insert(x);
                assert(t.subset_of(u)) by {
                    assert forall|y: u32| t.contains(y) implies u.contains(y) by {
                        if y != x {
                            let i = choose|i: int| 0 <= i < r@.len() && r@[i] == y;
                            assert(u.contains(r@[i]));
                        }
                    }
                }
                vstd::set_lib::lemma_len_subset(t, u);
                assert(!r@.to_set().contains(x));
            }
        }
    }
    r
}

/// All items of `rows`, row after row.
pub open spec fn concat_rows(rows: Seq<Seq<u32>>) -> Seq<u32>
    decreases rows.len(),
{
    if rows.len() == 0 {
        seq![]
    } else {
        concat_rows(rows.drop_last()) + rows.last()
    }
}

fn concat_all(rows: &Vec<Vec<u32>>) -> (r: Vec<u32>)
    ensures
        r@ == concat_rows(u32_rows(rows@)),
{
    let mut out: Vec<u32> = Vec::new();
    let mut k: usize = 0;
    while k < rows.len()
        invariant
            k <= rows@.len(),
            out@ == concat_rows(u32_rows(rows@).take(k as int)),
        decreases rows@.len() - k,
    {
        assert(u32_rows(rows@).take(k as int + 1).drop_last() =~= u32_rows(rows@).take(k as int));
        let row = &rows[k];
        let mut j: usize = 0;
        let ghost base = out@;
        while j < row.len()
            invariant
                j <= row@.len(),
                out@ == base + row@.take(j as int),
            decreases row@.len() - j,
        {
            out.push(row[j]);
            assert(row@.take(j as int + 1) =~= row@.take(j as int).push(row@[j as int]));
            j = j + 1;
        }
        assert(row@.take(row@.len() as int) =~= row@);
        k = k + 1;
    }
    assert(u32_rows(rows@).take(rows@.len() as int) =~= u32_rows(rows@));
    out
}

/// Positions at which any of the terms occurs: the per-term lists merged,
/// sorted, deduplicated and cut to `max`.
pub fn positions_for_terms(per_term: &Vec<Vec<u32>>, max: usize) -> (r: Vec<u32>)
    ensures
        smallest_of(concat_rows(u32_rows(per_term@)).to_set(), max as nat, r@),
{
    let all = concat_all(per_term);
    take_smallest(&all, max)
}

/// `p` starts an occurrence of the phrase: term `k` occurs at `p + k` for
/// every `k`.
pub open spec fn phrase_start(rows: Seq<Seq<u32>>, p: int) -> bool {
    0 <= p && forall|k: int| 0 <= k < rows.len() ==> #[trigger] term_at(rows, k, p)
}

/// Term `k` of the phrase occurs at `p + k`.
pub open spec fn term_at(rows: Seq<Seq<u32>>, k: int, p: int) -> bool {
    p + k <= u32::MAX && rows[k].contains((p + k) as u32)
}

/// `x` lies inside some occurrence of the phrase.
pub open spec fn in_phrase(rows: Seq<Seq<u32>>, x: u32) -> bool {
    exists|p: int| #[trigger] phrase_start(rows, p) && p <= x < p + rows.len()
}

pub open spec fn phrase_set(rows: Seq<Seq<u32>>) -> Set<u32> {
    Set::new(|x: u32| in_phrase(rows, x))
}

fn contains_u32(v: &Vec<u32>, x: u32) -> (r: bool)
    ensures
        r == v@.contains(x),
{
    let mut i: usize = 0;
    while i < v.len()
        invariant
            i <= v@.len(),
            forall|j: int| 0 <= j < i ==> v@[j] != x,
        decreases v@.len() - i,
    {
        if v[i] == x {
            return true;
        }
        i = i + 1;
    }
    false
}

fn is_phrase_start(rows: &Vec<Vec<u32>>, p: u32) -> (r: bool)
    requires
        rows@.len() > 0,
        rows@[0]@.contains(p),
    ensures
        r == phrase_start(u32_rows(rows@), p as int),
{
    let ghost rs = u32_rows(rows@);
    assert(rs[0] == rows@[0]@);
    assert(term_at(rs, 0, p as int));
    let mut k: usize = 1;
    while k < rows.len()
        invariant
            1 <= k <= rows@.len(),
            rs == u32_rows(rows@),
            forall|m: int| 0 <= m < k ==> #[trigger] term_at(rs, m, p as int),
        decreases rows@.len() - k,
    {
        if k as u64 > (u32::MAX - p) as u64 {
            assert(!term_at(rs, k as int, p as int));
            return false;
        }
        let q = p + k as u32;
        assert(rs[k as int] == rows@[k as int]@);
        if !contains_u32(&rows[k], q) {
            assert(!term_at(rs, k as int, p as int));
            return false;
        }
        assert(term_at(rs, k as int, p as int));
        k = k + 1;
    }
    true
}

/// Positions covered by consecutive, ordered occurrences of the phrase whose
/// per-term position lists are `per_term`, sorted and cut to `max`.
pub fn phrase_positions(per_term: &Vec<Vec<u32>>, max: usize) -> (r: Vec<u32>)
    ensures
        smallest_of(phrase_set(u32_rows(per_term@)), max as nat, r@),
{
    let ghost rs = u32_rows(per_term@);
    let mut cand: Vec<u32> = Vec::new();
    let n = per_term.len();
    if n == 0 {
        proof {
            assert(cand@.to_set() =~= phrase_set(rs)) by {
                assert forall|x: u32| !#[trigger] phrase_set(rs).contains(x) by {}
            }
        }
        return take_smallest(&cand, max);
    }
    let first = &per_term[0];
    let mut i: usize = 0;
    while i < first.len()
        invariant
            n == per_term@.len() > 0,
            rs == u32_rows(per_term@),
            *first == per_term@[0],
            i <= first@.len(),
            forall|x: u32|
                #[trigger] cand@.contains(x) ==> exists|p: int|
                    #[trigger] phrase_start(rs, p) && p <= x < p + n,
            forall|ii: int, j: int|
                0 <= ii < i && 0 <= j < n && phrase_start(rs, first@[ii] as int)
                    ==> #[trigger] cand@.contains((first@[ii] + j) as u32),
        decreases first@.len() - i,
    {
        let p = first[i];
        assert(per_term@[0]@.contains(p));
        if is_phrase_start(per_term, p) {
            let mut j: usize = 0;
            while j < n
                invariant
                    n == per_term@.len() > 0,
                    rs == u32_rows(per_term@),
                    *first == per_term@[0],
                    i < first@.len(),
                    p == first@[i as int],
                    phrase_start(rs, p as int),
                    j <= n,
                    forall|x: u32|
                        #[trigger] cand@.contains(x) ==> exists|pp: int|
                            #[trigger] phrase_start(rs, pp) && pp <= x < pp + n,
                    forall|ii: int, jj: int|
                        0 <= ii < i && 0 <= jj < n && phrase_start(rs, first@[ii] as int)
                            ==> #[trigger] cand@.contains((first@[ii] + jj) as u32),
                    forall|jj: int| 0 <= jj < j ==> #[trigger] cand@.contains((p + jj) as u32),
                decreases n - j,
            {
                assert(term_at(rs, j as int, p as int));
                let x = p + j as u32;
                let ghost old_c = cand@;
                cand.push(x);
                proof {
                    assert(cand@[cand@.len() - 1] == x);
                    assert forall|y: u32| #[trigger] cand@.contains(y) implies exists|pp: int|
                        #[trigger] phrase_start(rs, pp) && pp <= y < pp + n by {
                        if y == x {
                            assert(phrase_start(rs, p as int) && p <= y < p + n);
                        } else {
                            let k = choose|k: int| 0 <= k < cand@.len() && cand@[k] == y;
                            assert(old_c[k] == y);
                            assert(old_c.contains(y));
                        }
                    }
                    assert forall|ii: int, jj: int|
                        0 <= ii < i && 0 <= jj < n && phrase_start(rs, first@[ii] as int)
                            implies #[trigger] cand@.contains((first@[ii] + jj) as u32) by {
                        assert(old_c.contains((first@[ii] + jj) as u32));
                        let k = choose|k: int|
                            0 <= k < old_c.len() && old_c[k] == (first@[ii] + jj) as u32;
                        assert(cand@[k] == old_c[k]);
                    }
                    assert forall|jj: int| 0 <= jj < j + 1 implies #[trigger] cand@.contains(
                        (p + jj) as u32,
                    ) by {
                        if jj < j {
                            assert(old_c.contains((p + jj) as u32));
                            let k = choose|k: int|
                                0 <= k < old_c.len() && old_c[k] == (p + jj) as u32;
                            assert(cand@[k] == old_c[k]);
                        }
                    }
                }
                j = j + 1;
            }
        }
        i = i + 1;
    }
    proof {
        assert forall|x: u32| #[trigger] cand@.to_set().contains(x) == phrase_set(rs).contains(
            x,
        ) by {
            if phrase_set(rs).contains(x) {
                let p = choose|p: int| #[trigger] phrase_start(rs, p) && p <= x < p + rs.len();
                let j = x - p;
                assert(term_at(rs, 0, p));
                assert(rs[0] == first@);
                assert(first@.contains(p as u32));
                let ii = choose|ii: int| 0 <= ii < first@.len() && first@[ii] == (p as u32);
                assert(cand@.contains((first@[ii] + j) as u32));
            }
            if cand@.contains(x) {
                let p = choose|p: int| #[trigger] phrase_start(rs, p) && p <= x < p + n;
                assert(in_phrase(rs, x));
            }
        }
        assert(cand@.to_set() =~= phrase_set(rs));
    }
    take_smallest(&cand, max)
}

/// `x` is an end of a pair of positions, one of each term, at most `d` apart.
pub open spec fn near_end(a: Seq<u32>, b: Seq<u32>, d: nat, x: u32) -> bool {
    exists|i: int, j: int|
        0 <= i < a.len() && 0 <= j < b.len() && #[trigger] dist(a[i], b[j]) <= d && (x == a[i]
            || x == b[j])
}

pub open spec fn dist(x: u32, y: u32) -> nat {
    if x >= y {
        (x - y) as nat
    } else {
        (y - x) as nat
    }
}

/// Some position of the first term lies within `d` of one of the second.
pub open spec fn has_near_pair(a: Seq<u32>, b: Seq<u32>, d: nat) -> bool {
    exists|i: int, j: int| 0 <= i < a.len() && 0 <= j < b.len() && #[trigger] dist(a[i], b[j]) <= d
}

/// The ends of all pairs within `d`, sorted and cut to `max`; empty exactly
/// when no pair is that close (for a positive `max`).
#[verifier::rlimit(60)]
pub fn proximity_positions(a: &Vec<u32>, b: &Vec<u32>, d: usize, max: usize) -> (r: Vec<u32>)
    ensures
        smallest_of(Set::new(|x: u32| near_end(a@, b@, d as nat, x)), max as nat, r@),
        max > 0 ==> (r@.len() > 0 <==> has_near_pair(a@, b@, d as nat)),
{
    let mut cand: Vec<u32> = Vec::new();
    let ghost s = Set::new(|x: u32| near_end(a@, b@, d as nat, x));
    let mut i: usize = 0;
    while i < a.len()
        invariant
            i <= a@.len(),
            s == Set::new(|x: u32| near_end(a@, b@, d as nat, x)),
            forall|x: u32| #[trigger] cand@.contains(x) ==> s.contains(x),
            forall|ii: int, j: int|
                0 <= ii < i && 0 <= j < b@.len() && #[trigger] dist(a@[ii], b@[j]) <= d ==> cand@.contains(a@[ii]) && cand@.contains(b@[j]),
        decreases a@.len() - i,
    {
        let p = a[i];
        let mut j: usize = 0;
        while j < b.len()
            invariant
                i < a@.len(),
                p == a@[i as int],
                j <= b@.len(),
                s == Set::new(|x: u32| near_end(a@, b@, d as nat, x)),
                forall|x: u32| #[trigger] cand@.contains(x) ==> s.contains(x),
                forall|ii: int, jj: int|
                    0 <= ii < i && 0 <= jj < b@.len() && #[trigger] dist(a@[ii], b@[jj]) <= d ==> cand@.contains(a@[ii]) && cand@.contains(b@[jj]),
                forall|jj: int|
                    0 <= jj < j && #[trigger] dist(p, b@[jj]) <= d ==> cand@.contains(p) && cand@.contains(b@[jj]),
            decreases b@.len() - j,
        {
            let q = b[j];
            let gap = if p > q {
                p - q
            } else {
                q - p
            };
            if gap as usize <= d {
                assert(dist(a@[i as int], b@[j as int]) <= d);
                let ghost old_c = cand@;
                cand.push(p);
                cand.push(q);
                proof {
                    assert(near_end(a@, b@, d as nat, p));
                    assert(near_end(a@, b@, d as nat, q));
                    assert forall|x: u32| #[trigger] cand@.contains(x) implies s.contains(x) by {
                        let k = choose|k: int| 0 <= k < cand@.len() && cand@[k] == x;
                        if k < old_c.len() {
                            assert(old_c[k] == x);
                            assert(old_c.contains(x));
                        }
                    }
                    assert forall|y: u32| #[trigger] old_c.contains(y) implies cand@.contains(y) by {
                        let k = choose|k: int| 0 <= k < old_c.len() && old_c[k] == y;
                        assert(cand@[k] == y);
                    }
                    assert(cand@[cand@.len() - 2] == p);
                    assert(cand@[cand@.len() - 1] == q);
                }
            }
            j = j + 1;
        }
        i = i + 1;
    }
    proof {
        assert forall|x: u32| #[trigger] cand@.to_set().contains(x) == s.contains(x) by {
            if s.contains(x) {
                let (ii, jj) = choose|ii: int, jj: int|
                    0 <= ii < a@.len() && 0 <= jj < b@.len() && #[trigger] dist(a@[ii], b@[jj])
                        <= d && (x == a@[ii] || x == b@[jj]);
            }
        }
        assert(cand@.to_set() =~= s);
    }
    let r = take_smallest(&cand, max);
    proof {
        if max > 0 && has_near_pair(a@, b@, d as nat) {
            let (ii, jj) = choose|ii: int, jj: int|
                0 <= ii < a@.len() && 0 <= jj < b@.len() && #[trigger] dist(a@[ii], b@[jj]) <= d;
            assert(near_end(a@, b@, d as nat, a@[ii]));
            assert(s.contains(a@[ii]));
        }
        if r@.len() > 0 {
            assert(s.contains(r@[0]));
            let (ii, jj) = choose|ii: int, jj: int|
                0 <= ii < a@.len() && 0 <= jj < b@.len() && #[trigger] dist(a@[ii], b@[jj])
                    <= d && (r@[0] == a@[ii] || r@[0] == b@[jj]);
        }
    }
    r
}

/// The `n` items of `positions` from `i` on are consecutive integers.
pub open spec fn run_at(positions: Seq<u32>, i: int, n: nat) -> bool {
    forall|j: int| 0 < j < n ==> #[trigger] positions[i + j] == positions[i + j - 1] + 1
}

/// Some `n` consecutive items of `positions` are consecutive integers.
pub open spec fn has_run(positions: Seq<u32>, n: nat) -> bool {
    exists|i: int| 0 <= i && i + n <= positions.len() && #[trigger] run_at(positions, i, n)
}

/// Whether `positions` holds a window of `n` consecutive integers; with at
/// most one term there is nothing to check.
pub fn verify_adjacency(positions: &Vec<u32>, n: usize) -> (r: bool)
    ensures
        r == (n <= 1 || has_run(positions@, n as nat)),
{
    if n <= 1 {
        return true;
    }
    if n > positions.len() {
        return false;
    }
    if n == 0 {
        assert(run_at(positions@, 0, 0));
        return true;
    }
    assert(1 <= n);
    let len = positions.len();
    let mut i: usize = 0;
    while i <= len - n
        invariant
            len == positions@.len(),
            1 <= n <= positions@.len(),
            i <= positions@.len() - n + 1,
            forall|s: int| 0 <= s < i ==> !#[trigger] run_at(positions@, s, n as nat),
        decreases positions@.len() - n + 1 - i,
    {
        let mut j: usize = 1;
        let mut ok = true;
        while ok && j < n
            invariant
                len == positions@.len(),
                1 <= n <= positions@.len(),
                i + n <= positions@.len(),
                1 <= j <= n,
                ok ==> forall|k: int|
                    0 < k < j ==> #[trigger] positions@[i + k] == positions@[i + k - 1] + 1,
                !ok ==> !run_at(positions@, i as int, n as nat),
            decreases n - j,
        {
            let at: usize = i + j;
            let a = positions[at - 1];
            let b = positions[at];
            if a == u32::MAX || b != a + 1 {
                ok = false;
                assert(positions@[i + j] != positions@[i + j - 1] + 1);
                j = n;
            } else {
                j = j + 1;
            }
        }
        if ok {
            assert(run_at(positions@, i as int, n as nat));
            return true;
        }
        i = i + 1;
    }
    false
}

} // verus!
