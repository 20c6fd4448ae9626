//! Text as sequences of characters: prefixes, suffixes, searching,
//! trimming, splitting and joining, with what std's `str` methods of the
//! same names do as their specification.
use vstd::prelude::*;

use crate::text::push_char;

verus! {

/// `s` ends with `suf`.
pub open spec fn ends_with(s: Seq<char>, suf: Seq<char>) -> bool {
    suf.len() <= s.len() && s.subrange(s.len() - suf.len(), s.len() as int) == suf
}

/// `s` begins with `pre`.
pub open spec fn starts_with(s: Seq<char>, pre: Seq<char>) -> bool {
    pre.len() <= s.len() && s.subrange(0, pre.len() as int) == pre
}

/// `pat` occurs in `s` at index `i`.
pub open spec fn occurs_at(s: Seq<char>, pat: Seq<char>, i: int) -> bool {
    0 <= i && i + pat.len() <= s.len() && s.subrange(i, i + pat.len()) == pat
}

/// `pat` occurs somewhere in `s`.
pub open spec fn contains(s: Seq<char>, pat: Seq<char>) -> bool {
    exists|i: int| #[trigger] occurs_at(s, pat, i)
}

/// The first index at or after `from` where `pat` occurs in `s`.
pub open spec fn find_from(s: Seq<char>, pat: Seq<char>, from: int) -> Option<int>
    decreases s.len() - from,
{
    if from < 0 || from + pat.len() > s.len() {
        None
    } else if occurs_at(s, pat, from) {
        Some(from)
    } else if from >= s.len() {
        None
    } else {
        find_from(s, pat, from + 1)
    }
}

/// A character of Unicode's White_Space property: what `char::is_whitespace`
/// accepts and `str::trim` strips.
pub open spec fn white_space(c: char) -> bool {
    ('\u{9}' <= c && c <= '\u{d}') || c == ' ' || c == '\u{85}' || c == '\u{a0}' || c == '\u{1680}'
        || ('\u{2000}' <= c && c <= '\u{200a}') || c == '\u{2028}' || c == '\u{2029}' || c
        == '\u{202f}' || c == '\u{205f}' || c == '\u{3000}'
}

/// `s` without its leading characters that satisfy `p`.
pub open spec fn trim_start_by(s: Seq<char>, p: spec_fn(char) -> bool) -> Seq<char>
    decreases s.len(),
{
    if s.len() > 0 && p(s[0]) {
        trim_start_by(s.drop_first(), p)
    } else {
        s
    }
}

/// `s` without its trailing characters that satisfy `p`.
pub open spec fn trim_end_by(s: Seq<char>, p: spec_fn(char) -> bool) -> Seq<char>
    decreases s.len(),
{
    if s.len() > 0 && p(s.last()) {
        trim_end_by(s.drop_last(), p)
    } else {
        s
    }
}

/// `s` without leading and trailing characters that satisfy `p`
/// (`str::trim_matches`).
pub open spec fn trim_by(s: Seq<char>, p: spec_fn(char) -> bool) -> Seq<char> {
    trim_end_by(trim_start_by(s, p), p)
}

/// White_Space characters, as a class to trim.
pub open spec fn ws_class() -> spec_fn(char) -> bool {
    |c: char| white_space(c)
}

/// `<` and `>`.
pub open spec fn angle_class() -> spec_fn(char) -> bool {
    |c: char| c == '<' || c == '>'
}

/// `"` and `'`.
pub open spec fn quote_class() -> spec_fn(char) -> bool {
    |c: char| c == '"' || c == '\''
}

/// `/`.
pub open spec fn slash_class() -> spec_fn(char) -> bool {
    |c: char| c == '/'
}

/// What `str::trim` leaves of `s`.
pub open spec fn trimmed(s: Seq<char>) -> Seq<char> {
    trim_by(s, ws_class())
}

/// The pieces of `s` between the separators `sep` (`str::split`): one more
/// piece than separators, empty pieces included.
pub open spec fn segments(s: Seq<char>, sep: char) -> Seq<Seq<char>>
    decreases s.len(),
{
    if s.len() == 0 {
        seq![Seq::empty()]
    } else if s.last() == sep {
        segments(s.drop_last(), sep).push(Seq::empty())
    } else {
        let prev = segments(s.drop_last(), sep);
        prev.update(prev.len() - 1, prev.last().push(s.last()))
    }
}

/// The pieces joined with `sep` between them (`slice::join`).
pub open spec fn join(parts: Seq<Seq<char>>, sep: char) -> Seq<char>
    decreases parts.len(),
{
    if parts.len() == 0 {
        Seq::empty()
    } else if parts.len() == 1 {
        parts[0]
    } else {
        join(parts.drop_last(), sep).push(sep) + parts.last()
    }
}

/// `.`
pub open spec fn dot() -> Seq<char> {
    seq!['.']
}

/// `..`
pub open spec fn dot_dot() -> Seq<char> {
    seq!['.', '.']
}

/// The path segments left after the first `n` of `segs` are applied in
/// turn: an empty segment or `.` changes nothing, `..` drops the last one
/// kept, any other is kept. `None` once a `..` finds nothing to drop.
pub open spec fn fold_path(segs: Seq<Seq<char>>, n: int) -> Option<Seq<Seq<char>>>
    decreases n,
{
    if n <= 0 {
        Some(Seq::empty())
    } else {
        match fold_path(segs, n - 1) {
            None => None,
            Some(kept) => {
                let g = segs[n - 1];
                if g.len() == 0 || g == dot() {
                    Some(kept)
                } else if g == dot_dot() {
                    if kept.len() == 0 {
                        None
                    } else {
                        Some(kept.drop_last())
                    }
                } else {
                    Some(kept.push(g))
                }
            },
        }
    }
}

/// The characters of `s`, in order.
pub fn chars_of(s: &str) -> (v: Vec<char>)
    ensures
        v@ == s@,
{
    broadcast use vstd::string::group_string_axioms;

    let mut v: Vec<char> = Vec::new();
    for c in iter: s.chars()
        invariant
            iter.seq() == s@,
            v@ == iter.seq().take(iter.index() as int),
    {
        v.push(c);
    }
    v
}

/// The characters `s[from..to]` as a string.
pub fn string_of(s: &Vec<char>, from: usize, to: usize) -> (r: String)
    requires
        from <= to <= s@.len(),
    ensures
        r@ == s@.subrange(from as int, to as int),
{
    let mut r = String::new();
    let mut i = from;
    while i < to
        invariant
            from <= i <= to <= s@.len(),
            r@ == s@.subrange(from as int, i as int),
        decreases to - i,
    {
        push_char(&mut r, s[i]);
        proof {
            assert(s@.subrange(from as int, i + 1) =~= s@.subrange(from as int, i as int).push(s@[i as int]));
        }
        i = i + 1;
    }
    r
}

/// The characters `s[from..to]`.
pub fn sub_chars(s: &Vec<char>, from: usize, to: usize) -> (r: Vec<char>)
    requires
        from <= to <= s@.len(),
    ensures
        r@ == s@.subrange(from as int, to as int),
{
    let mut r: Vec<char> = Vec::new();
    let mut i = from;
    while i < to
        invariant
            from <= i <= to <= s@.len(),
            r@ == s@.subrange(from as int, i as int),
        decreases to - i,
    {
        r.push(s[i]);
        proof {
            assert(s@.subrange(from as int, i + 1) =~= s@.subrange(from as int, i as int).push(s@[i as int]));
        }
        i = i + 1;
    }
    r
}

/// `pat` occurs in `s` at `i`.
pub fn matches_at(s: &Vec<char>, pat: &Vec<char>, i: usize) -> (b: bool)
    ensures
        b == occurs_at(s@, pat@, i as int),
{
    let n = s.len();
    if i > n || pat.len() > n - i {
        return false;
    }
    let mut k: usize = 0;
    while k < pat.len()
        invariant
            n == s@.len(),
            i + pat@.len() <= s@.len(),
            k <= pat@.len(),
            forall|j: int| 0 <= j < k ==> s@[i + j] == pat@[j],
        decreases pat@.len() - k,
    {
        if s[i + k] != pat[k] {
            proof {
                assert(s@.subrange(i as int, i + pat@.len())[k as int] != pat@[k as int]);
            }
            return false;
        }
        k = k + 1;
    }
    assert(s@.subrange(i as int, i + pat@.len()) =~= pat@);
    true
}

/// `s` ends with `suf`.
pub fn chars_end_with(s: &Vec<char>, suf: &Vec<char>) -> (b: bool)
    ensures
        b == ends_with(s@, suf@),
{
    if suf.len() > s.len() {
        return false;
    }
    matches_at(s, suf, s.len() - suf.len())
}

/// `s` begins with `pre`.
pub fn chars_start_with(s: &Vec<char>, pre: &Vec<char>) -> (b: bool)
    ensures
        b == starts_with(s@, pre@),
{
    matches_at(s, pre, 0)
}

/// The first index at or after `from` where `pat` occurs in `s`.
pub fn find_chars(s: &Vec<char>, pat: &Vec<char>, from: usize) -> (r: Option<usize>)
    ensures
        match find_from(s@, pat@, from as int) {
            Some(i) => r == Some(i as usize),
            None => r is None,
        },
{
    let n = s.len();
    let mut i = from;
    while i <= n && pat.len() <= n - i
        invariant
            n == s@.len(),
            from <= i,
            find_from(s@, pat@, from as int) == find_from(s@, pat@, i as int),
        decreases s@.len() + 1 - i,
    {
        if matches_at(s, pat, i) {
            return Some(i);
        }
        proof {
            if i == n {
                assert(s@.subrange(i as int, i as int) =~= pat@);
            }
        }
        i = i + 1;
    }
    None
}

/// The first index at or after `from` where `pat` occurs in `s`, if any:
/// then `pat` occurs there and nowhere between `from` and it.
pub proof fn lemma_find_from(s: Seq<char>, pat: Seq<char>, from: int)
    requires
        0 <= from,
    ensures
        find_from(s, pat, from) matches Some(i) ==> from <= i && occurs_at(s, pat, i) && forall|j: int|
            from <= j < i ==> !occurs_at(s, pat, j),
        find_from(s, pat, from) is None ==> forall|j: int| from <= j ==> !occurs_at(s, pat, j),
    decreases s.len() - from,
{
    if from + pat.len() <= s.len() && !occurs_at(s, pat, from) && from < s.len() {
        lemma_find_from(s, pat, from + 1);
    }
}

/// `pat` occurs somewhere in `s`.
pub fn chars_contain(s: &Vec<char>, pat: &Vec<char>) -> (b: bool)
    ensures
        b == contains(s@, pat@),
{
    let r = find_chars(s, pat, 0);
    proof {
        lemma_find_from(s@, pat@, 0);
    }
    r.is_some()
}

/// The bounds of `s[from..to]` once characters of `p` are trimmed from both
/// ends.
pub proof fn lemma_trim_step(s: Seq<char>, p: spec_fn(char) -> bool, a: int, b: int)
    requires
        0 <= a <= b <= s.len(),
    ensures
        a < b && p(s[a]) ==> trim_start_by(s.subrange(a, b), p) == trim_start_by(s.subrange(a + 1, b), p),
        a < b && p(s[b - 1]) ==> trim_end_by(s.subrange(a, b), p) == trim_end_by(s.subrange(a, b - 1), p),
        (a == b || !p(s[a])) ==> trim_start_by(s.subrange(a, b), p) == s.subrange(a, b),
        (a == b || !p(s[b - 1])) ==> trim_end_by(s.subrange(a, b), p) == s.subrange(a, b),
{
    if a < b {
        assert(s.subrange(a, b).drop_first() =~= s.subrange(a + 1, b));
        assert(s.subrange(a, b).drop_last() =~= s.subrange(a, b - 1));
    }
}

/// The bounds of what `str::trim_matches` with `p` leaves of `s[from..to]`.
pub fn trim_range(s: &Vec<char>, from: usize, to: usize, which: u8) -> (r: (usize, usize))
    requires
        from <= to <= s@.len(),
        which <= 3,
    ensures
        from <= r.0 <= r.1 <= to,
        s@.subrange(r.0 as int, r.1 as int) == trim_by(s@.subrange(from as int, to as int), trim_class(which)),
{
    let ghost p = trim_class(which);
    let mut a = from;
    while a < to && in_trim_class(s[a], which)
        invariant
            which <= 3,
            p == trim_class(which),
            from <= a <= to <= s@.len(),
            trim_start_by(s@.subrange(from as int, to as int), p) == trim_start_by(s@.subrange(a as int, to as int), p),
        decreases to - a,
    {
        proof {
            lemma_trim_step(s@, p, a as int, to as int);
        }
        a = a + 1;
    }
    proof {
        lemma_trim_step(s@, p, a as int, to as int);
    }
    let mut b = to;
    while b > a && in_trim_class(s[b - 1], which)
        invariant
            which <= 3,
            p == trim_class(which),
            from <= a <= b <= to <= s@.len(),
            trim_end_by(s@.subrange(a as int, to as int), p) == trim_end_by(s@.subrange(a as int, b as int), p),
        decreases b - a,
    {
        proof {
            lemma_trim_step(s@, p, a as int, b as int);
        }
        b = b - 1;
    }
    proof {
        lemma_trim_step(s@, p, a as int, b as int);
    }
    (a, b)
}

/// The classes of characters that the text logic trims: White_Space,
/// angle brackets, quotes, and slashes.
pub open spec fn trim_class(which: u8) -> spec_fn(char) -> bool {
    if which == 0 {
        ws_class()
    } else if which == 1 {
        angle_class()
    } else if which == 2 {
        quote_class()
    } else {
        slash_class()
    }
}

/// `c` is in trim class `which`.
pub fn in_trim_class(c: char, which: u8) -> (b: bool)
    requires
        which <= 3,
    ensures
        b == (trim_class(which))(c),
{
    if which == 0 {
        is_white_space(c)
    } else if which == 1 {
        c == '<' || c == '>'
    } else if which == 2 {
        c == '"' || c == '\''
    } else {
        c == '/'
    }
}

/// `c` is a White_Space character.
pub fn is_white_space(c: char) -> (b: bool)
    ensures
        b == white_space(c),
{
    ('\u{9}' <= c && c <= '\u{d}') || c == ' ' || c == '\u{85}' || c == '\u{a0}' || c == '\u{1680}'
        || ('\u{2000}' <= c && c <= '\u{200a}') || c == '\u{2028}' || c == '\u{2029}' || c
        == '\u{202f}' || c == '\u{205f}' || c == '\u{3000}'
}

/// The views of the vectors of `v`.
pub open spec fn views(v: Seq<Vec<char>>) -> Seq<Seq<char>> {
    Seq::new(v.len(), |i: int| v[i]@)
}

pub proof fn lemma_views_push(v: Seq<Vec<char>>, x: Vec<char>)
    ensures
        views(v.push(x)) == views(v).push(x@),
{
    assert(views(v.push(x)) =~= views(v).push(x@));
}

pub proof fn lemma_views_add(a: Seq<Vec<char>>, b: Seq<Vec<char>>)
    ensures
        views(a + b) == views(a) + views(b),
{
    assert(views(a + b) =~= views(a) + views(b));
}

/// The pieces of `s[from..to]` between the separators `sep`.
pub fn split_chars(s: &Vec<char>, from: usize, to: usize, sep: char) -> (r: Vec<Vec<char>>)
    requires
        from <= to <= s@.len(),
    ensures
        views(r@) == segments(s@.subrange(from as int, to as int), sep),
{
    let mut r: Vec<Vec<char>> = Vec::new();
    let mut cur: Vec<char> = Vec::new();
    let mut i = from;
    while i < to
        invariant
            from <= i <= to <= s@.len(),
            views(r@).push(cur@) == segments(s@.subrange(from as int, i as int), sep),
        decreases to - i,
    {
        let ghost t = s@.subrange(from as int, i + 1);
        proof {
            assert(t.drop_last() =~= s@.subrange(from as int, i as int));
            assert(t.last() == s@[i as int]);
        }
        if s[i] == sep {
            let ghost before = views(r@);
            r.push(cur);
            cur = Vec::new();
            proof {
                assert(views(r@) =~= before.push(r@.last()@));
                assert(views(r@).push(cur@) =~= segments(t, sep));
            }
        } else {
            let ghost before = cur@;
            cur.push(s[i]);
            proof {
                assert(views(r@).push(cur@) =~= segments(t, sep));
            }
        }
        i = i + 1;
    }
    let ghost before = views(r@);
    r.push(cur);
    proof {
        assert(views(r@) =~= before.push(r@.last()@));
    }
    r
}

/// The pieces joined with `sep` between them, as a string.
pub fn join_chars(parts: &Vec<Vec<char>>, sep: char) -> (r: String)
    ensures
        r@ == join(views(parts@), sep),
{
    let mut r = String::new();
    let mut k: usize = 0;
    while k < parts.len()
        invariant
            k <= parts@.len(),
            r@ == join(views(parts@).take(k as int), sep),
        decreases parts@.len() - k,
    {
        let ghost pre = r@;
        if k > 0 {
            push_char(&mut r, sep);
        }
        let piece = &parts[k];
        let mut i: usize = 0;
        while i < piece.len()
            invariant
                i <= piece@.len(),
                r@ == (if k > 0 {
                    pre.push(sep)
                } else {
                    pre
                }) + piece@.subrange(0, i as int),
            decreases piece@.len() - i,
        {
            push_char(&mut r, piece[i]);
            proof {
                assert(piece@.subrange(0, i + 1) =~= piece@.subrange(0, i as int).push(piece@[i as int]));
            }
            i = i + 1;
        }
        proof {
            let t = views(parts@).take(k + 1);
            assert(t.drop_last() =~= views(parts@).take(k as int));
            assert(t.last() == piece@);
            assert(piece@.subrange(0, piece@.len() as int) =~= piece@);
            if k == 0 {
                assert(t.len() == 1);
                assert(pre =~= Seq::<char>::empty());
            }
            assert(r@ =~= join(t, sep));
        }
        k = k + 1;
    }
    proof {
        assert(views(parts@).take(parts@.len() as int) =~= views(parts@));
    }
    r
}

/// Applies the segments in turn: `.` and empty ones change nothing, `..`
/// drops the last segment kept; `None` once it finds nothing to drop.
pub fn fold_segments(segs: Vec<Vec<char>>) -> (r: Option<Vec<Vec<char>>>)
    ensures
        match fold_path(views(segs@), segs@.len() as int) {
            Some(kept) => r matches Some(v) && views(v@) == kept,
            None => r is None,
        },
{
    let ghost sv = views(segs@);
    let n = segs.len();
    let mut kept: Vec<Vec<char>> = Vec::new();
    let mut k: usize = 0;
    while k < n
        invariant
            n == sv.len(),
            segs@.len() == n,
            views(segs@) == sv,
            k <= n,
            fold_path(sv, k as int) == Some(views(kept@)),
        decreases n - k,
    {
        let g_len = segs[k].len();
        let is_dot = g_len == 1 && segs[k][0] == '.';
        let is_dot_dot = g_len == 2 && segs[k][0] == '.' && segs[k][1] == '.';
        proof {
            let g = sv[k as int];
            assert(g == segs@[k as int]@);
            assert(is_dot == (g == dot())) by {
                if g_len == 1 && g[0] == '.' {
                    assert(g =~= dot());
                }
            }
            assert(is_dot_dot == (g == dot_dot())) by {
                if g_len == 2 && g[0] == '.' && g[1] == '.' {
                    assert(g =~= dot_dot());
                }
            }
        }
        if g_len == 0 || is_dot {
        } else if is_dot_dot {
            if kept.len() == 0 {
                proof {
                    lemma_fold_none(sv, k + 1);
                }
                return None;
            }
            let ghost before = views(kept@);
            kept.pop();
            proof {
                assert(views(kept@) =~= before.drop_last());
            }
        } else {
            let g = sub_chars(&segs[k], 0, g_len);
            let ghost before = views(kept@);
            kept.push(g);
            proof {
                assert(segs@[k as int]@.subrange(0, g_len as int) =~= segs@[k as int]@);
                assert(views(kept@) =~= before.push(sv[k as int]));
            }
        }
        k = k + 1;
    }
    Some(kept)
}

/// Once folding fails it stays failed.
pub proof fn lemma_fold_none(segs: Seq<Seq<char>>, k: int)
    requires
        0 <= k <= segs.len(),
        fold_path(segs, k) is None,
    ensures
        fold_path(segs, segs.len() as int) is None,
    decreases segs.len() - k,
{
    if k < segs.len() {
        lemma_fold_none(segs, k + 1);
    }
}

/// No piece that `segments` cuts holds the separator, nor a character that
/// `s` does not hold.
pub proof fn lemma_segments_avoid(s: Seq<char>, sep: char, c: char)
    requires
        c == sep || !s.contains(c),
    ensures
        segments(s, sep).len() >= 1,
        forall|k: int| 0 <= k < segments(s, sep).len() ==> !(#[trigger] segments(s, sep)[k]).contains(c),
    decreases s.len(),
{
    if s.len() > 0 {
        let s0 = s.drop_last();
        if s0.contains(c) && c != sep {
            let i = choose|i: int| 0 <= i < s0.len() && s0[i] == c;
            assert(s[i] == c);
        }
        lemma_segments_avoid(s0, sep, c);
        let prev = segments(s0, sep);
        if s.last() != sep {
            let p = prev.last().push(s.last());
            assert(s[s.len() - 1] != c);
            if p.contains(c) {
                let i = choose|i: int| 0 <= i < p.len() && p[i] == c;
                assert(prev.last()[i] == c);
                assert(prev[prev.len() - 1].contains(c));
            }
            assert forall|k: int| 0 <= k < segments(s, sep).len() implies !(#[trigger] segments(s, sep)[k]).contains(c) by {
                if k < prev.len() - 1 {
                    assert(segments(s, sep)[k] == prev[k]);
                }
            }
        } else {
            assert forall|k: int| 0 <= k < segments(s, sep).len() implies !(#[trigger] segments(s, sep)[k]).contains(c) by {
                if k < prev.len() {
                    assert(segments(s, sep)[k] == prev[k]);
                }
            }
        }
    }
}

/// Text without the separator is one piece.
pub proof fn lemma_segments_plain(t: Seq<char>, sep: char)
    requires
        !t.contains(sep),
    ensures
        segments(t, sep) == seq![t],
    decreases t.len(),
{
    if t.len() == 0 {
        assert(t =~= Seq::<char>::empty());
    } else {
        let t0 = t.drop_last();
        if t0.contains(sep) {
            let i = choose|i: int| 0 <= i < t0.len() && t0[i] == sep;
            assert(t[i] == sep);
        }
        lemma_segments_plain(t0, sep);
        assert(t[t.len() - 1] != sep);
        assert(t0.push(t.last()) =~= t);
        assert(segments(t, sep) =~= seq![t]);
    }
}

/// A separator and a piece without it after `s` add that piece to the
/// pieces of `s`.
pub proof fn lemma_segments_after(s: Seq<char>, t: Seq<char>, sep: char)
    requires
        !t.contains(sep),
    ensures
        segments(s.push(sep) + t, sep) == segments(s, sep).push(t),
    decreases t.len(),
{
    if t.len() == 0 {
        assert(s.push(sep) + t =~= s.push(sep));
        assert(s.push(sep).drop_last() =~= s);
        assert(t =~= Seq::<char>::empty());
    } else {
        let t0 = t.drop_last();
        if t0.contains(sep) {
            let i = choose|i: int| 0 <= i < t0.len() && t0[i] == sep;
            assert(t[i] == sep);
        }
        lemma_segments_after(s, t0, sep);
        let u = s.push(sep) + t;
        assert(u.drop_last() =~= s.push(sep) + t0);
        assert(u.last() == t[t.len() - 1]);
        assert(t[t.len() - 1] != sep);
        assert(t0.push(t.last()) =~= t);
        assert(segments(u, sep) =~= segments(s, sep).push(t));
    }
}

/// Pieces without the separator, joined with it, split back into the same
/// pieces.
pub proof fn lemma_segments_join(parts: Seq<Seq<char>>, sep: char)
    requires
        parts.len() >= 1,
        forall|k: int| 0 <= k < parts.len() ==> !(#[trigger] parts[k]).contains(sep),
    ensures
        segments(join(parts, sep), sep) == parts,
    decreases parts.len(),
{
    if parts.len() == 1 {
        lemma_segments_plain(parts[0], sep);
        assert(parts =~= seq![parts[0]]);
    } else {
        let p0 = parts.drop_last();
        assert forall|k: int| 0 <= k < p0.len() implies !(#[trigger] p0[k]).contains(sep) by {
            assert(p0[k] == parts[k]);
        }
        lemma_segments_join(p0, sep);
        assert(!parts[parts.len() - 1].contains(sep));
        lemma_segments_after(join(p0, sep), parts.last(), sep);
        assert(p0.push(parts.last()) =~= parts);
    }
}

/// The first piece begins what the pieces joined spell.
pub proof fn lemma_join_prefix(parts: Seq<Seq<char>>, sep: char)
    requires
        parts.len() >= 1,
    ensures
        join(parts, sep).len() >= parts[0].len(),
        forall|i: int| 0 <= i < parts[0].len() ==> #[trigger] join(parts, sep)[i] == parts[0][i],
    decreases parts.len(),
{
    if parts.len() > 1 {
        let p0 = parts.drop_last();
        lemma_join_prefix(p0, sep);
        assert(p0[0] == parts[0]);
        let j = join(p0, sep);
        assert forall|i: int| 0 <= i < parts[0].len() implies #[trigger] join(parts, sep)[i] == parts[0][i] by {
            assert((j.push(sep) + parts.last())[i] == j[i]);
        }
    }
}

/// Pieces that lack `c`, joined with another separator, lack `c`.
pub proof fn lemma_join_avoid(parts: Seq<Seq<char>>, sep: char, c: char)
    requires
        c != sep,
        forall|k: int| 0 <= k < parts.len() ==> !(#[trigger] parts[k]).contains(c),
    ensures
        !join(parts, sep).contains(c),
    decreases parts.len(),
{
    if parts.len() == 1 {
        assert(!parts[0].contains(c));
    } else if parts.len() > 1 {
        let p0 = parts.drop_last();
        assert forall|k: int| 0 <= k < p0.len() implies !(#[trigger] p0[k]).contains(c) by {
            assert(p0[k] == parts[k]);
        }
        lemma_join_avoid(p0, sep, c);
        let j = join(p0, sep);
        let last = parts[parts.len() - 1];
        assert(!last.contains(c));
        let u = j.push(sep) + last;
        if u.contains(c) {
            let i = choose|i: int| 0 <= i < u.len() && u[i] == c;
            if i < j.len() {
                assert(j[i] == c);
            } else if i > j.len() {
                assert(last[i - j.len() - 1] == c);
            }
        }
    }
}

/// Segments that are all kept fold to themselves.
pub proof fn lemma_fold_clean(segs: Seq<Seq<char>>, n: int)
    requires
        0 <= n <= segs.len(),
        forall|k: int|
            0 <= k < segs.len() ==> (#[trigger] segs[k]).len() > 0 && segs[k] != dot() && segs[k] != dot_dot(),
    ensures
        fold_path(segs, n) == Some(segs.take(n)),
    decreases n,
{
    if n > 0 {
        lemma_fold_clean(segs, n - 1);
        assert(segs[n - 1].len() > 0 && segs[n - 1] != dot() && segs[n - 1] != dot_dot());
        assert(segs.take(n - 1).push(segs[n - 1]) =~= segs.take(n));
    }
}

/// What folding keeps is non-empty, neither `.` nor `..`, and lacks every
/// character that all the segments lack.
pub proof fn lemma_fold_kept(segs: Seq<Seq<char>>, n: int, c: char)
    requires
        0 <= n <= segs.len(),
        forall|k: int| 0 <= k < segs.len() ==> !(#[trigger] segs[k]).contains(c),
    ensures
        fold_path(segs, n) matches Some(kept) ==> forall|i: int|
            0 <= i < kept.len() ==> (#[trigger] kept[i]).len() > 0 && kept[i] != dot() && kept[i] != dot_dot()
                && !kept[i].contains(c),
    decreases n,
{
    if n > 0 {
        lemma_fold_kept(segs, n - 1, c);
        if let Some(kept0) = fold_path(segs, n - 1) {
            let g = segs[n - 1];
            assert(!g.contains(c));
            if let Some(kept) = fold_path(segs, n) {
                assert forall|i: int| 0 <= i < kept.len() implies (#[trigger] kept[i]).len() > 0
                    && kept[i] != dot() && kept[i] != dot_dot() && !kept[i].contains(c) by {
                    if i < kept0.len() {
                        assert(kept[i] == kept0[i]);
                    }
                }
            }
        }
    }
}

/// Trimming trailing characters keeps out what was not there.
pub proof fn lemma_trim_end_avoid(s: Seq<char>, p: spec_fn(char) -> bool, c: char)
    requires
        !s.contains(c),
    ensures
        !trim_end_by(s, p).contains(c),
    decreases s.len(),
{
    if s.len() > 0 && p(s.last()) {
        let t = s.drop_last();
        if t.contains(c) {
            let j = choose|j: int| 0 <= j < t.len() && t[j] == c;
            assert(s[j] == c);
        }
        lemma_trim_end_avoid(t, p, c);
    }
}

/// Trimming the end of `s` leaves a prefix of `s`.
pub proof fn lemma_trim_end_prefix(s: Seq<char>, p: spec_fn(char) -> bool)
    ensures
        trim_end_by(s, p).len() <= s.len(),
        forall|i: int| 0 <= i < trim_end_by(s, p).len() ==> #[trigger] trim_end_by(s, p)[i] == s[i],
    decreases s.len(),
{
    if s.len() > 0 && p(s.last()) {
        lemma_trim_end_prefix(s.drop_last(), p);
    }
}

} // verus!
