//! The free-chunk allocator: a list of free extents of `data.bin`, kept
//! sorted and coalesced, with first-fit allocation.
use vstd::prelude::*;

use super::format::FreeExtent;

verus! {

broadcast use vstd::seq_lib::group_to_multiset_ensures;

pub open spec fn ext_end(e: FreeExtent) -> int {
    e.start + e.n_chunks
}

/// Chunk `c` lies in extent `e`.
pub open spec fn in_ext(e: FreeExtent, c: int) -> bool {
    e.start <= c < e.start + e.n_chunks
}

/// Chunk `c` lies in one of the extents of `s`.
pub open spec fn covers(s: Seq<FreeExtent>, c: int) -> bool {
    exists|i: int| 0 <= i < s.len() && #[trigger] in_ext(s[i], c)
}

/// Every extent of `s` ends at or before chunk `limit`.
pub open spec fn within(s: Seq<FreeExtent>, limit: int) -> bool {
    forall|i: int| 0 <= i < s.len() ==> #[trigger] ext_end(s[i]) <= limit
}

pub open spec fn exts_disjoint(a: FreeExtent, b: FreeExtent) -> bool {
    ext_end(a) <= b.start || ext_end(b) <= a.start
}

/// Non-empty extents that share no chunk.
pub open spec fn separate(s: Seq<FreeExtent>) -> bool {
    &&& forall|i: int| 0 <= i < s.len() ==> #[trigger] s[i].n_chunks > 0
    &&& forall|i: int, j: int|
        0 <= i < s.len() && 0 <= j < s.len() && i != j ==> exts_disjoint(
            #[trigger] s[i],
            #[trigger] s[j],
        )
}

/// The normal form of a free list: non-empty extents in increasing order,
/// each ending strictly before the next begins (no two touch).
pub open spec fn canonical(s: Seq<FreeExtent>) -> bool {
    &&& forall|i: int| 0 <= i < s.len() ==> #[trigger] s[i].n_chunks > 0
    &&& forall|i: int, j: int| 0 <= i < j < s.len() ==> ext_end(#[trigger] s[i]) < #[trigger] s[j].start
}

pub open spec fn sorted_by_start(s: Seq<FreeExtent>) -> bool {
    forall|i: int, j: int| 0 <= i <= j < s.len() ==> (#[trigger] s[i]).start <= (#[trigger] s[j]).start
}

pub proof fn lemma_covers_push(s: Seq<FreeExtent>, x: FreeExtent, c: int)
    ensures
        covers(s.push(x), c) == (covers(s, c) || in_ext(x, c)),
{
    if covers(s, c) {
        let i = choose|i: int| 0 <= i < s.len() && #[trigger] in_ext(s[i], c);
        assert(s.push(x)[i] == s[i]);
    }
    if in_ext(x, c) {
        assert(s.push(x)[s.len() as int] == x);
    }
    if covers(s.push(x), c) {
        let i = choose|i: int| 0 <= i < s.push(x).len() && #[trigger] in_ext(s.push(x)[i], c);
        if i < s.len() {
            assert(s.push(x)[i] == s[i]);
        }
    }
}

pub proof fn lemma_canonical_separate(s: Seq<FreeExtent>)
    requires
        canonical(s),
    ensures
        separate(s),
{
    assert forall|i: int, j: int| 0 <= i < s.len() && 0 <= j < s.len() && i != j implies exts_disjoint(
        #[trigger] s[i],
        #[trigger] s[j],
    ) by {
        if i < j {
            assert(ext_end(s[i]) < s[j].start);
        } else {
            assert(ext_end(s[j]) < s[i].start);
        }
    }
}

pub proof fn lemma_perm_covers(s: Seq<FreeExtent>, t: Seq<FreeExtent>, c: int)
    requires
        s.to_multiset() == t.to_multiset(),
    ensures
        covers(s, c) == covers(t, c),
{
    if covers(s, c) {
        let i = choose|i: int| 0 <= i < s.len() && #[trigger] in_ext(s[i], c);
        assert(s.contains(s[i]));
        assert(t.to_multiset().count(s[i]) > 0);
        assert(t.contains(s[i]));
        let j = choose|j: int| 0 <= j < t.len() && t[j] == s[i];
        assert(in_ext(t[j], c));
    }
    if covers(t, c) {
        let i = choose|i: int| 0 <= i < t.len() && #[trigger] in_ext(t[i], c);
        assert(t.contains(t[i]));
        assert(s.to_multiset().count(t[i]) > 0);
        assert(s.contains(t[i]));
        let j = choose|j: int| 0 <= j < s.len() && s[j] == t[i];
        assert(in_ext(s[j], c));
    }
}

pub proof fn lemma_perm_within(s: Seq<FreeExtent>, t: Seq<FreeExtent>, limit: int)
    requires
        s.to_multiset() == t.to_multiset(),
        within(s, limit),
    ensures
        within(t, limit),
{
    assert forall|i: int| 0 <= i < t.len() implies #[trigger] ext_end(t[i]) <= limit by {
        assert(t.contains(t[i]));
        assert(s.to_multiset().count(t[i]) > 0);
        assert(s.contains(t[i]));
        let j = choose|j: int| 0 <= j < s.len() && s[j] == t[i];
        assert(ext_end(s[j]) <= limit);
    }
}

pub proof fn lemma_perm_separate(s: Seq<FreeExtent>, t: Seq<FreeExtent>)
    requires
        s.to_multiset() == t.to_multiset(),
        separate(s),
    ensures
        separate(t),
{
    assert(s.no_duplicates()) by {
        assert forall|i: int, j: int| 0 <= i < s.len() && 0 <= j < s.len() && i != j implies s[i]
            != s[j] by {
            assert(exts_disjoint(s[i], s[j]));
            assert(s[i].n_chunks > 0);
        }
    }
    s.lemma_multiset_has_no_duplicates();
    t.lemma_multiset_has_no_duplicates_conv();
    assert forall|i: int| 0 <= i < t.len() implies #[trigger] t[i].n_chunks > 0 by {
        assert(t.contains(t[i]));
        assert(s.to_multiset().count(t[i]) > 0);
        assert(s.contains(t[i]));
        let p = choose|p: int| 0 <= p < s.len() && s[p] == t[i];
        assert(s[p].n_chunks > 0);
    }
    assert forall|i: int, j: int| 0 <= i < t.len() && 0 <= j < t.len() && i != j implies exts_disjoint(
        #[trigger] t[i],
        #[trigger] t[j],
    ) by {
        assert(t[i] != t[j]);
        assert(t.contains(t[i]));
        assert(t.contains(t[j]));
        assert(s.to_multiset().count(t[i]) > 0);
        assert(s.to_multiset().count(t[j]) > 0);
        assert(s.contains(t[i]));
        assert(s.contains(t[j]));
        let p = choose|p: int| 0 <= p < s.len() && s[p] == t[i];
        let q = choose|q: int| 0 <= q < s.len() && s[q] == t[j];
        assert(exts_disjoint(s[p], s[q]));
    }
}

/// Chunks `s .. s + n` are all free.
pub closed spec fn free_window(fx: Seq<FreeExtent>, s: int, n: int) -> bool {
    forall|c: int| s <= c < s + n ==> #[trigger] covers(fx, c)
}

/// A run of at least `n` free chunks begins at chunk `s`: the chunk before
/// it is not free.
pub closed spec fn free_run_at(fx: Seq<FreeExtent>, s: int, n: int) -> bool {
    !covers(fx, s - 1) && free_window(fx, s, n)
}

/// First fit: `s` is the lowest chunk at which a run of at least `n` free
/// chunks begins.
pub closed spec fn first_fit_at(fx: Seq<FreeExtent>, s: int, n: int) -> bool {
    free_run_at(fx, s, n) && forall|t: int| t < s ==> !#[trigger] free_run_at(fx, t, n)
}

/// Lists that free the same chunks have the same runs.
pub proof fn lemma_same_cover_runs(a: Seq<FreeExtent>, b: Seq<FreeExtent>, n: int)
    requires
        forall|c: int| #[trigger] covers(a, c) == covers(b, c),
    ensures
        forall|s: int| #[trigger] free_window(a, s, n) == free_window(b, s, n),
        forall|s: int| #[trigger] free_run_at(a, s, n) == free_run_at(b, s, n),
        forall|s: int| #[trigger] first_fit_at(a, s, n) == first_fit_at(b, s, n),
{
    assert forall|s: int| #[trigger] free_window(a, s, n) == free_window(b, s, n) by {
        if free_window(a, s, n) {
            assert forall|c: int| s <= c < s + n implies #[trigger] covers(b, c) by {
                assert(covers(a, c));
            }
        }
        if free_window(b, s, n) {
            assert forall|c: int| s <= c < s + n implies #[trigger] covers(a, c) by {
                assert(covers(b, c));
            }
        }
    }
    assert forall|s: int| #[trigger] free_run_at(a, s, n) == free_run_at(b, s, n) by {
        assert(covers(a, s - 1) == covers(b, s - 1));
        assert(free_window(a, s, n) == free_window(b, s, n));
    }
    assert forall|s: int| #[trigger] first_fit_at(a, s, n) == first_fit_at(b, s, n) by {
        assert(free_run_at(a, s, n) == free_run_at(b, s, n));
        if first_fit_at(a, s, n) {
            assert forall|t: int| t < s implies !#[trigger] free_run_at(b, t, n) by {
                assert(free_run_at(a, t, n) == free_run_at(b, t, n));
            }
        }
        if first_fit_at(b, s, n) {
            assert forall|t: int| t < s implies !#[trigger] free_run_at(a, t, n) by {
                assert(free_run_at(a, t, n) == free_run_at(b, t, n));
            }
        }
    }
}

/// In a canonical list, the extent holding a free window holds all of it.
pub proof fn lemma_window_in_one(v: Seq<FreeExtent>, s: int, n: int)
    requires
        canonical(v),
        n > 0,
        free_window(v, s, n),
    ensures
        exists|i: int| 0 <= i < v.len() && #[trigger] v[i].start <= s && s + n <= ext_end(v[i]),
{
    assert(covers(v, s));
    let i = choose|i: int| 0 <= i < v.len() && #[trigger] in_ext(v[i], s);
    if ext_end(v[i]) < s + n {
        let c = ext_end(v[i]);
        assert(covers(v, c));
        let j = choose|j: int| 0 <= j < v.len() && #[trigger] in_ext(v[j], c);
        if j < i {
            assert(ext_end(v[j]) < v[i].start);
        } else if j > i {
            assert(ext_end(v[i]) < v[j].start);
        }
    }
    assert(v[i].start <= s && s + n <= ext_end(v[i]));
}

/// In a canonical list, a run of `n` free chunks begins exactly at the start
/// of an extent of at least `n` chunks.
pub proof fn lemma_run_is_extent(v: Seq<FreeExtent>, s: int, n: int)
    requires
        canonical(v),
        n > 0,
    ensures
        free_run_at(v, s, n) <==> exists|i: int| 0 <= i < v.len() && #[trigger] v[i].start == s && v[i].n_chunks >= n,
{
    if free_run_at(v, s, n) {
        lemma_window_in_one(v, s, n);
        let i = choose|i: int| 0 <= i < v.len() && #[trigger] v[i].start <= s && s + n <= ext_end(v[i]);
        if v[i].start < s {
            assert(in_ext(v[i], s - 1));
            assert(covers(v, s - 1));
        }
        assert(v[i].start == s && v[i].n_chunks >= n);
    }
    if exists|i: int| 0 <= i < v.len() && #[trigger] v[i].start == s && v[i].n_chunks >= n {
        let i = choose|i: int| 0 <= i < v.len() && #[trigger] v[i].start == s && v[i].n_chunks >= n;
        assert forall|c: int| s <= c < s + n implies #[trigger] covers(v, c) by {
            assert(in_ext(v[i], c));
        }
        if covers(v, s - 1) {
            let j = choose|j: int| 0 <= j < v.len() && #[trigger] in_ext(v[j], s - 1);
            if j < i {
                assert(ext_end(v[j]) < v[i].start);
            } else if j > i {
                assert(ext_end(v[i]) < v[j].start);
            }
        }
    }
}

/// The starts of a canonical list increase with the index.
pub proof fn lemma_canonical_starts(v: Seq<FreeExtent>, i: int, j: int)
    requires
        canonical(v),
        0 <= i < v.len(),
        0 <= j < v.len(),
        v[j].start < v[i].start,
    ensures
        j < i,
{
    if j > i {
        assert(ext_end(v[i]) < v[j].start);
    }
}

/// What `alloc_first_fit` picks from the canonical form `v` of a free list
/// `u` is the first fit of `u`.
pub proof fn lemma_first_fit_found(u: Seq<FreeExtent>, v: Seq<FreeExtent>, i: int, need: int)
    requires
        canonical(v),
        need > 0,
        forall|c: int| #[trigger] covers(u, c) == covers(v, c),
        0 <= i < v.len(),
        v[i].n_chunks >= need,
        forall|j: int| 0 <= j < i ==> #[trigger] v[j].n_chunks < need,
    ensures
        first_fit_at(u, v[i].start as int, need),
        free_window(u, v[i].start as int, need),
{
    lemma_run_is_extent(v, v[i].start as int, need);
    assert forall|t: int| t < v[i].start implies !#[trigger] free_run_at(v, t, need) by {
        lemma_run_is_extent(v, t, need);
        if free_run_at(v, t, need) {
            let j = choose|j: int| 0 <= j < v.len() && #[trigger] v[j].start == t && v[j].n_chunks >= need;
            lemma_canonical_starts(v, i, j);
        }
    }
    lemma_same_cover_runs(u, v, need);
}

/// When no extent of the canonical form `v` of `u` is long enough, `u`
/// has no window of `need` free chunks.
pub proof fn lemma_first_fit_none(u: Seq<FreeExtent>, v: Seq<FreeExtent>, need: int)
    requires
        canonical(v),
        need > 0,
        forall|c: int| #[trigger] covers(u, c) == covers(v, c),
        forall|j: int| 0 <= j < v.len() ==> #[trigger] v[j].n_chunks < need,
    ensures
        !exists|s: int| #[trigger] free_window(u, s, need),
{
    lemma_same_cover_runs(u, v, need);
    if exists|s: int| #[trigger] free_window(u, s, need) {
        let s = choose|s: int| #[trigger] free_window(u, s, need);
        assert(free_window(v, s, need));
        lemma_window_in_one(v, s, need);
        let i = choose|i: int| 0 <= i < v.len() && #[trigger] v[i].start <= s && s + need <= ext_end(v[i]);
        assert(v[i].n_chunks < need);
    }
}

/// Past its first extent, a canonical list frees exactly the chunks from
/// the end of that extent on that it freed before.
proof fn lemma_canonical_tail(v: Seq<FreeExtent>)
    requires
        canonical(v),
        v.len() > 0,
    ensures
        canonical(v.drop_first()),
        forall|c: int| #[trigger] covers(v.drop_first(), c) == (covers(v, c) && c >= ext_end(v[0])),
        covers(v, v[0].start as int),
        forall|c: int| covers(v, c) ==> v[0].start <= c,
        forall|c: int| v[0].start <= c < ext_end(v[0]) ==> covers(v, c),
        !covers(v, ext_end(v[0])),
{
    let t = v.drop_first();
    assert forall|i: int, j: int| 0 <= i < j < t.len() implies ext_end(#[trigger] t[i]) < #[trigger] t[j].start by {
        assert(t[i] == v[i + 1] && t[j] == v[j + 1]);
    }
    assert forall|c: int| #[trigger] covers(t, c) == (covers(v, c) && c >= ext_end(v[0])) by {
        if covers(t, c) {
            let i = choose|i: int| 0 <= i < t.len() && #[trigger] in_ext(t[i], c);
            assert(in_ext(v[i + 1], c));
            assert(ext_end(v[0]) < v[i + 1].start);
        }
        if covers(v, c) && c >= ext_end(v[0]) {
            let i = choose|i: int| 0 <= i < v.len() && #[trigger] in_ext(v[i], c);
            assert(i != 0);
            assert(in_ext(t[i - 1], c));
        }
    }
    assert(in_ext(v[0], v[0].start as int));
    assert forall|c: int| covers(v, c) implies v[0].start <= c by {
        let i = choose|i: int| 0 <= i < v.len() && #[trigger] in_ext(v[i], c);
        if i > 0 {
            assert(ext_end(v[0]) < v[i].start);
        }
    }
    assert forall|c: int| v[0].start <= c < ext_end(v[0]) implies covers(v, c) by {
        assert(in_ext(v[0], c));
    }
    if covers(v, ext_end(v[0])) {
        let i = choose|i: int| 0 <= i < v.len() && #[trigger] in_ext(v[i], ext_end(v[0]));
        if i > 0 {
            assert(ext_end(v[0]) < v[i].start);
        }
    }
}

/// A canonical free list is the only one of its chunks: two canonical
/// lists that free the same chunks are equal.
pub proof fn lemma_canonical_unique(a: Seq<FreeExtent>, b: Seq<FreeExtent>)
    requires
        canonical(a),
        canonical(b),
        forall|c: int| #[trigger] covers(a, c) == covers(b, c),
    ensures
        a == b,
    decreases a.len(),
{
    if a.len() == 0 || b.len() == 0 {
        if a.len() > 0 {
            lemma_canonical_tail(a);
            assert(covers(b, a[0].start as int));
        }
        if b.len() > 0 {
            lemma_canonical_tail(b);
            assert(covers(a, b[0].start as int));
        }
        assert(a =~= b);
    } else {
        lemma_canonical_tail(a);
        lemma_canonical_tail(b);
        assert(covers(b, a[0].start as int));
        assert(covers(a, b[0].start as int));
        assert(a[0].start == b[0].start);
        if ext_end(a[0]) < ext_end(b[0]) {
            assert(covers(b, ext_end(a[0])));
        }
        if ext_end(b[0]) < ext_end(a[0]) {
            assert(covers(a, ext_end(b[0])));
        }
        assert(a[0] == b[0]);
        lemma_canonical_unique(a.drop_first(), b.drop_first());
        assert(a =~= seq![a[0]] + a.drop_first());
        assert(b =~= seq![b[0]] + b.drop_first());
    }
}

/// Extents that share no chunk are disjoint as ranges.
pub proof fn lemma_no_common_chunk(a: FreeExtent, b: FreeExtent)
    requires
        a.n_chunks > 0,
        b.n_chunks > 0,
        forall|c: int| in_ext(a, c) ==> !in_ext(b, c),
    ensures
        exts_disjoint(a, b),
{
    let c = if a.start <= b.start {
        b.start as int
    } else {
        a.start as int
    };
    if !exts_disjoint(a, b) {
        assert(in_ext(a, c) && in_ext(b, c));
    }
}

/// A stable insertion sort of extents by start chunk.
fn sort_by_start(v: &Vec<FreeExtent>) -> (r: Vec<FreeExtent>)
    ensures
        r@.to_multiset() == v@.to_multiset(),
        sorted_by_start(r@),
        r@.len() == v@.len(),
{
    let mut r: Vec<FreeExtent> = Vec::new();
    let mut i: usize = 0;
    while i < v.len()
        invariant
            i <= v@.len(),
            r@.to_multiset() == v@.take(i as int).to_multiset(),
            sorted_by_start(r@),
            r@.len() == i,
        decreases v@.len() - i,
    {
        let x = v[i];
        let mut pos: usize = 0;
        while pos < r.len() && r[pos].start <= x.start
            invariant
                pos <= r@.len(),
                forall|k: int| 0 <= k < pos ==> r@[k].start <= x.start,
            decreases r@.len() - pos,
        {
            pos = pos + 1;
        }
        let ghost old_r = r@;
        proof {
            old_r.insert_ensures(pos as int, x);
        }
        r.insert(pos, x);
        proof {
            assert forall|a: int, b: int| 0 <= a <= b < r@.len() implies (#[trigger] r@[a]).start <= (
            #[trigger] r@[b]).start by {
                if b < pos {
                } else if a > pos {
                    assert(r@[a] == old_r[a - 1]);
                    assert(r@[b] == old_r[b - 1]);
                } else if a == pos && b == pos {
                } else if a == pos {
                    assert(r@[b] == old_r[b - 1]);
                    assert(old_r[pos as int].start > x.start);
                    assert(old_r[pos as int].start <= old_r[b - 1].start);
                } else if b == pos {
                    assert(r@[a] == old_r[a]);
                } else {
                    assert(r@[a] == old_r[a]);
                    assert(r@[b] == old_r[b - 1]);
                }
            }
            assert(v@.take(i + 1) =~= v@.take(i as int).push(x));
        }
        i = i + 1;
    }
    assert(v@.take(v@.len() as int) =~= v@);
    r
}

/// Sorts the free list by start and coalesces extents that touch.
///
/// The free chunks stay the same; when the list held non-empty extents that
/// share no chunk, the result is in normal form.
pub(crate) fn normalize_free_extents(v: &mut Vec<FreeExtent>, limit: u32)
    requires
        within(old(v)@, limit as int),
    ensures
        forall|c: int| #[trigger] covers(final(v)@, c) == covers(old(v)@, c),
        within(final(v)@, limit as int),
        final(v)@.len() <= old(v)@.len(),
        separate(old(v)@) ==> canonical(final(v)@),
        canonical(old(v)@) ==> final(v)@ == old(v)@,
{
    if v.len() == 0 {
        return;
    }
    let sorted = sort_by_start(v);
    proof {
        assert forall|c: int| covers(sorted@, c) == covers(old(v)@, c) by {
            lemma_perm_covers(sorted@, old(v)@, c);
        }
        lemma_perm_within(old(v)@, sorted@, limit as int);
        if separate(old(v)@) {
            lemma_perm_separate(old(v)@, sorted@);
        }
    }
    let ghost sep = separate(sorted@);
    let mut merged: Vec<FreeExtent> = Vec::new();
    let mut cur = sorted[0];
    proof {
        assert forall|c: int| covers(merged@.push(cur), c) == covers(sorted@.take(1), c) by {
            assert(merged@.push(cur) =~= sorted@.take(1));
        }
    }
    let mut k: usize = 1;
    while k < sorted.len()
        invariant
            1 <= k <= sorted@.len(),
            merged@.len() < k,
            sep == separate(sorted@),
            sorted_by_start(sorted@),
            within(sorted@, limit as int),
            within(merged@.push(cur), limit as int),
            forall|c: int| covers(merged@.push(cur), c) == covers(sorted@.take(k as int), c),
            sep ==> canonical(merged@.push(cur)),
            sep ==> ext_end(cur) == ext_end(sorted@[k - 1]),
        decreases sorted@.len() - k,
    {
        let ext = sorted[k];
        let ghost old_merged = merged@;
        let ghost old_cur = cur;
        proof {
            assert(ext_end(merged@.push(cur)[merged@.len() as int]) <= limit);
            assert(ext_end(sorted@[k as int]) <= limit);
            assert(sorted@.take(k + 1) =~= sorted@.take(k as int).push(ext));
            if sep {
                assert(exts_disjoint(sorted@[k - 1], sorted@[k as int]));
                assert(sorted@[k - 1].start <= sorted@[k as int].start);
                assert(sorted@[k as int].n_chunks > 0);
                assert(ext_end(cur) <= ext.start);
            }
        }
        if cur.start + cur.n_chunks == ext.start {
            cur.n_chunks = cur.n_chunks + ext.n_chunks;
            proof {
                assert forall|c: int| covers(merged@.push(cur), c) == covers(
                    sorted@.take(k + 1),
                    c,
                ) by {
                    lemma_covers_push(merged@, cur, c);
                    lemma_covers_push(old_merged, old_cur, c);
                    lemma_covers_push(sorted@.take(k as int), ext, c);
                }
                assert(within(merged@.push(cur), limit as int)) by {
                    assert forall|i: int| 0 <= i < merged@.push(cur).len() implies #[trigger] ext_end(
                        merged@.push(cur)[i],
                    ) <= limit by {
                        if i < merged@.len() {
                            assert(merged@.push(cur)[i] == old_merged.push(old_cur)[i]);
                        }
                    }
                }
                if sep {
                    assert(canonical(merged@.push(cur))) by {
                        assert forall|i: int, j: int|
                            0 <= i < j < merged@.push(cur).len() implies ext_end(
                            #[trigger] merged@.push(cur)[i],
                        ) < #[trigger] merged@.push(cur)[j].start by {
                            assert(merged@.push(cur)[i] == old_merged.push(old_cur)[i]);
                            if j < merged@.len() {
                                assert(merged@.push(cur)[j] == old_merged.push(old_cur)[j]);
                            } else {
                                assert(old_merged.push(old_cur)[j] == old_cur);
                            }
                        }
                        assert forall|i: int| 0 <= i < merged@.push(cur).len() implies #[trigger] merged@.push(
                            cur,
                        )[i].n_chunks > 0 by {
                            if i < merged@.len() {
                                assert(merged@.push(cur)[i] == old_merged.push(old_cur)[i]);
                            }
                        }
                    }
                }
            }
        } else {
            merged.push(cur);
            cur = ext;
            proof {
                assert(merged@ == old_merged.push(old_cur));
                assert forall|c: int| covers(merged@.push(cur), c) == covers(
                    sorted@.take(k + 1),
                    c,
                ) by {
                    lemma_covers_push(merged@, cur, c);
                    lemma_covers_push(sorted@.take(k as int), ext, c);
                }
                assert(within(merged@.push(cur), limit as int)) by {
                    assert forall|i: int| 0 <= i < merged@.push(cur).len() implies #[trigger] ext_end(
                        merged@.push(cur)[i],
                    ) <= limit by {
                        if i < merged@.len() {
                            assert(merged@.push(cur)[i] == old_merged.push(old_cur)[i]);
                        }
                    }
                }
                if sep {
                    assert(ext_end(old_cur) < ext.start);
                    assert(canonical(merged@.push(cur))) by {
                        assert forall|i: int, j: int|
                            0 <= i < j < merged@.push(cur).len() implies ext_end(
                            #[trigger] merged@.push(cur)[i],
                        ) < #[trigger] merged@.push(cur)[j].start by {
                            assert(merged@.push(cur)[i] == old_merged.push(old_cur)[i]);
                            if j < merged@.len() {
                                assert(merged@.push(cur)[j] == old_merged.push(old_cur)[j]);
                            } else {
                                if i < old_merged.len() {
                                    assert(old_merged.push(old_cur)[i] == old_merged[i]);
                                    assert(ext_end(old_merged.push(old_cur)[i]) < old_merged.push(
                                        old_cur,
                                    )[old_merged.len() as int].start);
                                    assert(old_cur.n_chunks > 0) by {
                                        assert(old_merged.push(old_cur)[old_merged.len() as int]
                                            == old_cur);
                                    }
                                }
                            }
                        }
                        assert forall|i: int| 0 <= i < merged@.push(cur).len() implies #[trigger] merged@.push(
                            cur,
                        )[i].n_chunks > 0 by {
                            if i < merged@.len() {
                                assert(merged@.push(cur)[i] == old_merged.push(old_cur)[i]);
                            }
                        }
                    }
                }
            }
        }
        k = k + 1;
    }
    merged.push(cur);
    proof {
        assert(sorted@.take(sorted@.len() as int) =~= sorted@);
    }
    *v = merged;
    proof {
        if canonical(old(v)@) {
            lemma_canonical_separate(old(v)@);
            lemma_canonical_unique(v@, old(v)@);
        }
    }
}


/// Puts an extent back on the free list and coalesces.
pub(crate) fn free_extent(v: &mut Vec<FreeExtent>, ext: FreeExtent, limit: u32)
    requires
        within(old(v)@, limit as int),
        ext_end(ext) <= limit,
    ensures
        forall|c: int| #[trigger] covers(final(v)@, c) == (covers(old(v)@, c) || in_ext(ext, c)),
        within(final(v)@, limit as int),
        ext.n_chunks == 0 ==> final(v)@ == old(v)@,
        (canonical(old(v)@) && ext.n_chunks > 0 && (forall|c: int|
            in_ext(ext, c) ==> !covers(old(v)@, c))) ==> canonical(final(v)@),
{
    if ext.n_chunks == 0 {
        assert forall|c: int| covers(v@, c) == (covers(old(v)@, c) || in_ext(ext, c)) by {}
        return;
    }
    let ghost before = v@;
    v.push(ext);
    proof {
        assert(within(v@, limit as int)) by {
            assert forall|i: int| 0 <= i < v@.len() implies #[trigger] ext_end(v@[i]) <= limit by {
                if i < before.len() {
                    assert(v@[i] == before[i]);
                }
            }
        }
        if canonical(before) && (forall|c: int| in_ext(ext, c) ==> !covers(before, c)) {
            lemma_canonical_separate(before);
            assert(separate(v@)) by {
                assert forall|i: int| 0 <= i < v@.len() implies #[trigger] v@[i].n_chunks > 0 by {
                    if i < before.len() {
                        assert(v@[i] == before[i]);
                    }
                }
                assert forall|i: int, j: int|
                    0 <= i < v@.len() && 0 <= j < v@.len() && i != j implies exts_disjoint(
                    #[trigger] v@[i],
                    #[trigger] v@[j],
                ) by {
                    if i < before.len() && j < before.len() {
                        assert(v@[i] == before[i]);
                        assert(v@[j] == before[j]);
                    } else if i < before.len() {
                        assert(v@[i] == before[i]);
                        assert forall|c: int| in_ext(ext, c) implies !in_ext(before[i], c) by {
                            if in_ext(before[i], c) {
                                assert(covers(before, c));
                            }
                        }
                        lemma_no_common_chunk(ext, before[i]);
                    } else {
                        assert(v@[j] == before[j]);
                        assert forall|c: int| in_ext(ext, c) implies !in_ext(before[j], c) by {
                            if in_ext(before[j], c) {
                                assert(covers(before, c));
                            }
                        }
                        lemma_no_common_chunk(ext, before[j]);
                    }
                }
            }
        }
    }
    normalize_free_extents(v, limit);
    proof {
        assert forall|c: int| covers(v@, c) == (covers(before, c) || in_ext(ext, c)) by {
            lemma_covers_push(before, ext, c);
        }
    }
}

/// First-fit allocation of `need` chunks from the free list, without
/// growing the data file.
///
/// `Some(e)`: `e` is the first `need` chunks of the first extent that holds
/// at least `need` chunks; those chunks leave the list. `None`: no extent is
/// large enough and the list is unchanged.
pub(crate) fn alloc_first_fit(v: &mut Vec<FreeExtent>, need: u32, limit: u32) -> (r: Option<
    FreeExtent,
>)
    requires
        within(old(v)@, limit as int),
        need > 0,
    ensures
        within(final(v)@, limit as int),
        match r {
            None => final(v)@ == old(v)@ && forall|i: int|
                0 <= i < old(v)@.len() ==> #[trigger] old(v)@[i].n_chunks < need,
            Some(e) => {
                &&& e.n_chunks == need
                &&& exists|i: int|
                    0 <= i < old(v)@.len() && #[trigger] old(v)@[i].start == e.start
                        && old(v)@[i].n_chunks >= need && forall|j: int|
                        0 <= j < i ==> #[trigger] old(v)@[j].n_chunks < need
                &&& ext_end(e) <= limit
                &&& forall|c: int| in_ext(e, c) ==> covers(old(v)@, c)
                &&& forall|c: int| #[trigger] covers(final(v)@, c) ==> covers(old(v)@, c)
                &&& canonical(old(v)@) ==> canonical(final(v)@)
                &&& canonical(old(v)@) ==> forall|c: int|
                    covers(final(v)@, c) == (covers(old(v)@, c) && !in_ext(e, c))
            },
        },
{
    let ghost before = v@;
    let mut i: usize = 0;
    while i < v.len()
        invariant
            i <= v@.len(),
            v@ == before,
            before == old(v)@,
            within(before, limit as int),
            need > 0,
            forall|j: int| 0 <= j < i ==> #[trigger] before[j].n_chunks < need,
        decreases v@.len() - i,
    {
        let cand = v[i];
        if cand.n_chunks >= need {
            let start = cand.start;
            let e = FreeExtent { start, n_chunks: need };
            proof {
                assert(ext_end(before[i as int]) <= limit);
            }
            if cand.n_chunks == need {
                v.remove(i);
                proof {
                    before.remove_ensures(i as int);
                }
            } else {
                v.set(i, FreeExtent { start: start + need, n_chunks: cand.n_chunks - need });
            }
            proof {
                let ii = i as int;
                assert(before[ii].start == e.start);
                assert(old(v)@[ii].start == e.start && old(v)@[ii].n_chunks >= need);
                assert forall|c: int| in_ext(e, c) implies covers(before, c) by {
                    assert(in_ext(before[ii], c));
                }
                assert(within(v@, limit as int)) by {
                    assert forall|k: int| 0 <= k < v@.len() implies #[trigger] ext_end(v@[k]) <= limit by {
                        if cand.n_chunks == need {
                            if k < ii {
                                assert(v@[k] == before[k]);
                            } else {
                                assert(v@[k] == before[k + 1]);
                            }
                        } else if k != ii {
                            assert(v@[k] == before[k]);
                        }
                    }
                }
                assert forall|c: int| covers(v@, c) implies covers(before, c) by {
                    let k = choose|k: int| 0 <= k < v@.len() && #[trigger] in_ext(v@[k], c);
                    if cand.n_chunks == need {
                        if k < ii {
                            assert(in_ext(before[k], c));
                        } else {
                            assert(in_ext(before[k + 1], c));
                        }
                    } else if k != ii {
                        assert(in_ext(before[k], c));
                    } else {
                        assert(in_ext(before[ii], c));
                    }
                }
                if canonical(before) {
                    assert(canonical(v@)) by {
                        assert forall|a: int| 0 <= a < v@.len() implies #[trigger] v@[a].n_chunks > 0 by {
                            if cand.n_chunks == need {
                                if a < ii {
                                    assert(v@[a] == before[a]);
                                } else {
                                    assert(v@[a] == before[a + 1]);
                                }
                            } else if a != ii {
                                assert(v@[a] == before[a]);
                            }
                        }
                        assert forall|a: int, b: int| 0 <= a < b < v@.len() implies ext_end(
                            #[trigger] v@[a],
                        ) < #[trigger] v@[b].start by {
                            if cand.n_chunks == need {
                                let pa = if a < ii {
                                    a
                                } else {
                                    a + 1
                                };
                                let pb = if b < ii {
                                    b
                                } else {
                                    b + 1
                                };
                                assert(v@[a] == before[pa]);
                                assert(v@[b] == before[pb]);
                                assert(pa < pb);
                            } else {
                                if a == ii {
                                    assert(v@[b] == before[b]);
                                    assert(ext_end(before[a]) < before[b].start);
                                } else if b == ii {
                                    assert(v@[a] == before[a]);
                                    assert(ext_end(before[a]) < before[b].start);
                                } else {
                                    assert(v@[a] == before[a]);
                                    assert(v@[b] == before[b]);
                                }
                            }
                        }
                    }
                    lemma_canonical_separate(before);
                    assert forall|c: int| covers(v@, c) == (covers(before, c) && !in_ext(e, c)) by {
                        if covers(before, c) && !in_ext(e, c) {
                            let k = choose|k: int| 0 <= k < before.len() && #[trigger] in_ext(
                                before[k],
                                c,
                            );
                            if k == ii {
                                assert(cand.n_chunks > need);
                                assert(in_ext(v@[ii], c));
                            } else if cand.n_chunks == need {
                                if k < ii {
                                    assert(in_ext(v@[k], c));
                                } else {
                                    assert(v@[k - 1] == before[k]);
                                    assert(in_ext(v@[k - 1], c));
                                }
                            } else {
                                assert(in_ext(v@[k], c));
                            }
                        }
                        if covers(v@, c) {
                            let k = choose|k: int| 0 <= k < v@.len() && #[trigger] in_ext(v@[k], c);
                            if cand.n_chunks == need {
                                let pk = if k < ii {
                                    k
                                } else {
                                    k + 1
                                };
                                assert(v@[k] == before[pk]);
                                assert(pk != ii);
                                assert(exts_disjoint(before[pk], before[ii]));
                            } else if k != ii {
                                assert(v@[k] == before[k]);
                                assert(exts_disjoint(before[k], before[ii]));
                            }
                        }
                    }
                }
            }
            return Some(e);
        }
        i = i + 1;
    }
    None
}

} // verus!
