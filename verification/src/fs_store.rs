//! The logic of the document-root browser: file types by name, relative
//! path normalization (Unix path rules), the containment check of a
//! resolved path, directory listings, and the search for asset files that
//! no document refers to. The file system itself is read by the caller.
use vstd::prelude::*;
use vstd::utf8::encode_utf8;
use vstd::string::StringSliceAdditionalSpecFns;

use crate::chars::{
    chars_of, chars_end_with, chars_start_with, string_of, split_chars, fold_segments, join_chars,
    ends_with, starts_with, segments, fold_path, join, views, dot, dot_dot, trim_by,
    trim_range, trim_class, trimmed, white_space, ws_class, angle_class, quote_class, slash_class, find_from, occurs_at, trim_start_by,
    find_chars, chars_contain, is_white_space, lemma_find_from, sub_chars,
};
use crate::lex::{lex_lt, bytes_lt};

verus! {

pub const FILE_TYPE_OPAQUE: u16 = 0;
pub const FILE_TYPE_TEXT: u16 = 1;
pub const FILE_TYPE_MARKDOWN: u16 = 2;

/// Soft cap for a single directory listing to keep the UI responsive.
pub const MAX_DIR_ENTRIES: usize = 5000;
/// Soft cap on the entries an orphan-asset scan visits.
pub const MAX_WALK_ENTRIES: usize = 50_000;
/// Documents larger than this are not scanned for references.
pub const MAX_DOC_BYTES: u64 = 8_388_608;

/// A file or directory under the document root.
#[derive(Debug, Clone)]
pub struct FileInfo {
    pub name: String,
    pub size: u64,
    pub ctime_ms: u64,
    pub mtime_ms: u64,
    pub atime_ms: u64,
    pub file_type: u16,
    pub content_hash: String,
    pub is_dir: bool,
}

/// One directory listing.
#[derive(Debug, Clone)]
pub struct ListResult {
    pub entries: Vec<FileInfo>,
    pub truncated: bool,
}

/// The asset files that no document refers to.
#[derive(Debug, Clone)]
pub struct OrphanAssetsResult {
    pub orphans: Vec<FileInfo>,
    pub asset_count: usize,
    pub doc_count: usize,
    pub truncated: bool,
}

// ---------------------------------------------------------------------------
// File types by name.

/// The lower-case form of `s` as std's `str::to_lowercase` maps it.
pub uninterp spec fn spec_to_lowercase(s: Seq<char>) -> Seq<char>;

/// Calls std's `str::to_lowercase`; the Unicode mapping is named, not
/// described.
#[verifier::external_body]
fn str_to_lowercase(s: &str) -> (r: String)
    ensures
        r@ == spec_to_lowercase(s@),
{
    s.to_lowercase()
}

/// `s` ends with the literal `suf`.
fn ends_with_lit(s: &Vec<char>, suf: &str) -> (b: bool)
    ensures
        b == ends_with(s@, suf@),
{
    chars_end_with(s, &chars_of(suf))
}

/// A lower-cased name of a markdown file.
pub open spec fn markdown_name(lower: Seq<char>) -> bool {
    ends_with(lower, ".md"@) || ends_with(lower, ".markdown"@) || ends_with(lower, ".mdx"@)
}

/// A lower-cased name of another text file.
pub open spec fn text_name(lower: Seq<char>) -> bool {
    ends_with(lower, ".txt"@) || ends_with(lower, ".text"@) || ends_with(lower, ".json"@)
        || ends_with(lower, ".csv"@) || ends_with(lower, ".yml"@) || ends_with(lower, ".yaml"@)
        || ends_with(lower, ".toml"@) || ends_with(lower, ".rs"@) || ends_with(lower, ".js"@)
        || ends_with(lower, ".ts"@) || ends_with(lower, ".css"@) || ends_with(lower, ".html"@)
        || ends_with(lower, ".excalidraw"@)
}

/// The file type of a file whose lower-cased name is `lower`.
pub open spec fn type_of_name(lower: Seq<char>) -> u16 {
    if markdown_name(lower) {
        FILE_TYPE_MARKDOWN
    } else if text_name(lower) {
        FILE_TYPE_TEXT
    } else {
        FILE_TYPE_OPAQUE
    }
}

/// A name that ends with a suffix ends with its last two characters.
proof fn lemma_suffix_tail(x: Seq<char>, a: Seq<char>)
    requires
        ends_with(x, a),
        a.len() >= 2,
    ensures
        x.last() == a.last(),
        x[x.len() - 2] == a[a.len() - 2],
{
    assert(x.subrange(x.len() - a.len(), x.len() as int)[a.len() - 1] == a[a.len() - 1]);
    assert(x.subrange(x.len() - a.len(), x.len() as int)[a.len() - 2] == a[a.len() - 2]);
}

/// Files are typed by suffix, case aside: a (lower-cased) name ending in
/// one of the markdown suffixes is markdown, and one ending in one of the
/// other text suffixes (`.json` among them) is text.
pub proof fn lemma_file_type_by_suffix(lower: Seq<char>)
    ensures
        ends_with(lower, ".txt"@) ==> type_of_name(lower) == FILE_TYPE_TEXT,
        ends_with(lower, ".text"@) ==> type_of_name(lower) == FILE_TYPE_TEXT,
        ends_with(lower, ".json"@) ==> type_of_name(lower) == FILE_TYPE_TEXT,
        ends_with(lower, ".csv"@) ==> type_of_name(lower) == FILE_TYPE_TEXT,
        ends_with(lower, ".yml"@) ==> type_of_name(lower) == FILE_TYPE_TEXT,
        ends_with(lower, ".yaml"@) ==> type_of_name(lower) == FILE_TYPE_TEXT,
        ends_with(lower, ".toml"@) ==> type_of_name(lower) == FILE_TYPE_TEXT,
        ends_with(lower, ".rs"@) ==> type_of_name(lower) == FILE_TYPE_TEXT,
        ends_with(lower, ".js"@) ==> type_of_name(lower) == FILE_TYPE_TEXT,
        ends_with(lower, ".ts"@) ==> type_of_name(lower) == FILE_TYPE_TEXT,
        ends_with(lower, ".css"@) ==> type_of_name(lower) == FILE_TYPE_TEXT,
        ends_with(lower, ".html"@) ==> type_of_name(lower) == FILE_TYPE_TEXT,
        ends_with(lower, ".excalidraw"@) ==> type_of_name(lower) == FILE_TYPE_TEXT,
        ends_with(lower, ".md"@) ==> type_of_name(lower) == FILE_TYPE_MARKDOWN,
        ends_with(lower, ".markdown"@) ==> type_of_name(lower) == FILE_TYPE_MARKDOWN,
        ends_with(lower, ".mdx"@) ==> type_of_name(lower) == FILE_TYPE_MARKDOWN,
{
    reveal_strlit(".txt");
    reveal_strlit(".text");
    reveal_strlit(".json");
    reveal_strlit(".csv");
    reveal_strlit(".yml");
    reveal_strlit(".yaml");
    reveal_strlit(".toml");
    reveal_strlit(".rs");
    reveal_strlit(".js");
    reveal_strlit(".ts");
    reveal_strlit(".css");
    reveal_strlit(".html");
    reveal_strlit(".excalidraw");
    reveal_strlit(".md");
    reveal_strlit(".markdown");
    reveal_strlit(".mdx");
    if markdown_name(lower) {
        if ends_with(lower, ".md"@) {
            lemma_suffix_tail(lower, ".md"@);
        }
        if ends_with(lower, ".markdown"@) {
            lemma_suffix_tail(lower, ".markdown"@);
        }
        if ends_with(lower, ".mdx"@) {
            lemma_suffix_tail(lower, ".mdx"@);
        }
        if ends_with(lower, ".txt"@) {
            lemma_suffix_tail(lower, ".txt"@);
        }
        if ends_with(lower, ".text"@) {
            lemma_suffix_tail(lower, ".text"@);
        }
        if ends_with(lower, ".json"@) {
            lemma_suffix_tail(lower, ".json"@);
        }
        if ends_with(lower, ".csv"@) {
            lemma_suffix_tail(lower, ".csv"@);
        }
        if ends_with(lower, ".yml"@) {
            lemma_suffix_tail(lower, ".yml"@);
        }
        if ends_with(lower, ".yaml"@) {
            lemma_suffix_tail(lower, ".yaml"@);
        }
        if ends_with(lower, ".toml"@) {
            lemma_suffix_tail(lower, ".toml"@);
        }
        if ends_with(lower, ".rs"@) {
            lemma_suffix_tail(lower, ".rs"@);
        }
        if ends_with(lower, ".js"@) {
            lemma_suffix_tail(lower, ".js"@);
        }
        if ends_with(lower, ".ts"@) {
            lemma_suffix_tail(lower, ".ts"@);
        }
        if ends_with(lower, ".css"@) {
            lemma_suffix_tail(lower, ".css"@);
        }
        if ends_with(lower, ".html"@) {
            lemma_suffix_tail(lower, ".html"@);
        }
        if ends_with(lower, ".excalidraw"@) {
            lemma_suffix_tail(lower, ".excalidraw"@);
        }
    }
}

/// The file type of `name`, judged by its suffix, case aside.
pub fn guess_file_type(name: &str) -> (t: u16)
    ensures
        t == type_of_name(spec_to_lowercase(name@)),
{
    let lower_s = str_to_lowercase(name);
    let lower = chars_of(lower_s.as_str());
    if ends_with_lit(&lower, ".md") || ends_with_lit(&lower, ".markdown") || ends_with_lit(
        &lower,
        ".mdx",
    ) {
        FILE_TYPE_MARKDOWN
    } else if ends_with_lit(&lower, ".txt") || ends_with_lit(&lower, ".text") || ends_with_lit(
        &lower,
        ".json",
    ) || ends_with_lit(&lower, ".csv") || ends_with_lit(&lower, ".yml") || ends_with_lit(
        &lower,
        ".yaml",
    ) || ends_with_lit(&lower, ".toml") || ends_with_lit(&lower, ".rs") || ends_with_lit(
        &lower,
        ".js",
    ) || ends_with_lit(&lower, ".ts") || ends_with_lit(&lower, ".css") || ends_with_lit(
        &lower,
        ".html",
    ) || ends_with_lit(&lower, ".excalidraw") {
        FILE_TYPE_TEXT
    } else {
        FILE_TYPE_OPAQUE
    }
}

/// A lower-cased name of a document that the orphan scan reads.
pub open spec fn scan_doc_name(lower: Seq<char>) -> bool {
    ends_with(lower, ".md"@) || ends_with(lower, ".markdown"@) || ends_with(lower, ".mdx"@)
        || ends_with(lower, ".txt"@) || ends_with(lower, ".html"@) || ends_with(lower, ".htm"@)
}

/// `name` names a document that the orphan scan reads.
pub open spec fn is_doc_name(name: Seq<char>) -> bool {
    scan_doc_name(spec_to_lowercase(name))
}

/// The orphan scan reads every document whose (lower-cased) name ends in
/// one of its suffixes: markdown, plain text and HTML.
pub proof fn lemma_scan_doc_suffixes(lower: Seq<char>)
    ensures
        ends_with(lower, ".md"@) ==> scan_doc_name(lower),
        ends_with(lower, ".markdown"@) ==> scan_doc_name(lower),
        ends_with(lower, ".mdx"@) ==> scan_doc_name(lower),
        ends_with(lower, ".txt"@) ==> scan_doc_name(lower),
        ends_with(lower, ".html"@) ==> scan_doc_name(lower),
        ends_with(lower, ".htm"@) ==> scan_doc_name(lower),
{
}

/// `name` is a document that the orphan scan reads.
pub fn is_scan_doc(name: &str) -> (b: bool)
    ensures
        b == is_doc_name(name@),
{
    let lower_s = str_to_lowercase(name);
    let lower = chars_of(lower_s.as_str());
    ends_with_lit(&lower, ".md") || ends_with_lit(&lower, ".markdown") || ends_with_lit(&lower, ".mdx")
        || ends_with_lit(&lower, ".txt") || ends_with_lit(&lower, ".html") || ends_with_lit(
        &lower,
        ".htm",
    )
}

/// `a` and `b` hold the same characters.
pub fn chars_eq(a: &Vec<char>, b: &Vec<char>) -> (r: bool)
    ensures
        r == (a@ == b@),
{
    if a.len() != b.len() {
        return false;
    }
    let r = chars_start_with(a, b);
    proof {
        assert(a@.subrange(0, a@.len() as int) =~= a@);
        if r {
            assert(a@ =~= b@);
        }
    }
    r
}

/// `s` is the literal `lit`.
fn is_lit(s: &Vec<char>, lit: &str) -> (b: bool)
    ensures
        b == (s@ == lit@),
{
    chars_eq(s, &chars_of(lit))
}

/// Names that listings and scans pass over.
pub open spec fn skipped_name(name: Seq<char>) -> bool {
    name == ".git"@ || name == "node_modules"@ || name == "target"@ || name == ".DS_Store"@
}

pub fn should_skip_name(name: &str) -> (b: bool)
    ensures
        b == skipped_name(name@),
{
    let n = chars_of(name);
    is_lit(&n, ".git") || is_lit(&n, "node_modules") || is_lit(&n, "target") || is_lit(&n, ".DS_Store")
}

// ---------------------------------------------------------------------------
// Relative paths.

/// What `normalize_rel` makes of `rel`: the relative path with `.` and
/// empty segments dropped and each `..` applied, segments joined by `/`;
/// or the reason it is refused.
pub open spec fn normalized(rel: Seq<char>) -> Result<Seq<char>, Seq<char>> {
    if rel.len() == 0 {
        Err("路径不能为空"@)
    } else if rel.contains('\0') {
        Err("路径包含非法字符"@)
    } else if rel[0] == '/' {
        Err("不允许绝对路径"@)
    } else {
        let segs = segments(rel, '/');
        match fold_path(segs, segs.len() as int) {
            None => Err("路径越界"@),
            Some(parts) => if parts.len() == 0 {
                Err("路径不能为空"@)
            } else {
                Ok(join(parts, '/'))
            },
        }
    }
}

/// A string result by its views.
pub open spec fn text_result(r: Result<String, String>) -> Result<Seq<char>, Seq<char>> {
    match r {
        Ok(s) => Ok(s@),
        Err(e) => Err(e@),
    }
}

/// The segments that normalization keeps of `rel`.
pub open spec fn kept_parts(rel: Seq<char>) -> Seq<Seq<char>> {
    let segs = segments(rel, '/');
    fold_path(segs, segs.len() as int)->Some_0
}

/// Normalizes `rel` into its kept segments.
fn normalize_parts(rel: &str) -> (r: Result<Vec<Vec<char>>, String>)
    ensures
        match normalized(rel@) {
            Err(e) => r matches Err(x) && x@ == e,
            Ok(norm) => r matches Ok(parts) && views(parts@) == kept_parts(rel@) && parts@.len() > 0
                && norm == join(kept_parts(rel@), '/'),
        },
{
    let cs = chars_of(rel);
    let n = cs.len();
    if n == 0 {
        return Err(String::from_str("路径不能为空"));
    }
    let mut i: usize = 0;
    while i < n
        invariant
            n == cs@.len(),
            cs@ == rel@,
            i <= n,
            forall|k: int| 0 <= k < i ==> cs@[k] != '\0',
        decreases n - i,
    {
        if cs[i] == '\0' {
            proof {
                assert(cs@[i as int] == '\0');
                assert(rel@.contains('\0'));
            }
            return Err(String::from_str("路径包含非法字符"));
        }
        i = i + 1;
    }
    if cs[0] == '/' {
        return Err(String::from_str("不允许绝对路径"));
    }
    let segs = split_chars(&cs, 0, n, '/');
    proof {
        assert(cs@.subrange(0, n as int) =~= cs@);
    }
    match fold_segments(segs) {
        None => Err(String::from_str("路径越界")),
        Some(parts) => {
            if parts.len() == 0 {
                Err(String::from_str("路径不能为空"))
            } else {
                Ok(parts)
            }
        },
    }
}

/// Normalizes a relative path: no absolute path, no `..` escape, forward
/// slashes.
pub fn normalize_rel(rel: &str) -> (r: Result<String, String>)
    ensures
        text_result(r) == normalized(rel@),
{
    match normalize_parts(rel) {
        Err(e) => Err(e),
        Ok(parts) => Ok(join_chars(&parts, '/')),
    }
}

/// Normalizing a normalized path gives it back unchanged.
pub proof fn lemma_normalized_stable(rel: Seq<char>)
    requires
        normalized(rel) is Ok,
    ensures
        normalized(normalized(rel)->Ok_0) == normalized(rel),
{
    let segs = segments(rel, '/');
    let parts = fold_path(segs, segs.len() as int)->Some_0;
    let n = join(parts, '/');
    assert(!rel.contains('\0'));
    crate::chars::lemma_segments_avoid(rel, '/', '/');
    crate::chars::lemma_segments_avoid(rel, '/', '\0');
    crate::chars::lemma_fold_kept(segs, segs.len() as int, '/');
    crate::chars::lemma_fold_kept(segs, segs.len() as int, '\0');
    assert(parts.len() > 0);
    crate::chars::lemma_join_prefix(parts, '/');
    assert(parts[0].len() > 0 && !parts[0].contains('/'));
    assert(n[0] == parts[0][0]);
    assert(n[0] != '/');
    crate::chars::lemma_join_avoid(parts, '/', '\0');
    crate::chars::lemma_segments_join(parts, '/');
    crate::chars::lemma_fold_clean(parts, parts.len() as int);
    assert(parts.take(parts.len() as int) =~= parts);
}

/// `rel` appended to `base` as `Path::join` does on Unix: an absolute
/// `rel` replaces `base`; otherwise a `/` goes between them unless `base`
/// is empty or already ends with one.
pub open spec fn path_join(base: Seq<char>, rel: Seq<char>) -> Seq<char> {
    if rel.len() > 0 && rel[0] == '/' {
        rel
    } else if base.len() > 0 && base.last() != '/' {
        base.push('/') + rel
    } else {
        base + rel
    }
}

/// Joins a relative path to a base path.
pub fn join_path(base: &str, rel: &str) -> (r: String)
    ensures
        r@ == path_join(base@, rel@),
{
    let b = chars_of(base);
    let rc = chars_of(rel);
    if rc.len() > 0 && rc[0] == '/' {
        return string_of(&rc, 0, rc.len());
    }
    let mut v = b;
    if v.len() > 0 && v[v.len() - 1] != '/' {
        v.push('/');
    }
    let ghost mid = v@;
    let mut i: usize = 0;
    while i < rc.len()
        invariant
            i <= rc@.len(),
            v@ == mid + rc@.subrange(0, i as int),
        decreases rc@.len() - i,
    {
        v.push(rc[i]);
        proof {
            assert(rc@.subrange(0, i + 1) =~= rc@.subrange(0, i as int).push(rc@[i as int]));
        }
        i = i + 1;
    }
    proof {
        assert(rc@.subrange(0, rc@.len() as int) =~= rc@);
        assert(b@.len() > 0 ==> b@.last() == b@[b@.len() - 1]);
    }
    string_of(&v, 0, v.len())
}

/// The segments among the first `n` of `segs` that are neither empty nor
/// `.`.
pub open spec fn named_segments(segs: Seq<Seq<char>>, n: int) -> Seq<Seq<char>>
    decreases n,
{
    if n <= 0 {
        Seq::empty()
    } else {
        let prev = named_segments(segs, n - 1);
        let g = segs[n - 1];
        if g.len() == 0 || g == dot() {
            prev
        } else {
            prev.push(g)
        }
    }
}

/// The components of a Unix path as `Path::components` yields them: `/`
/// for the root, `.` for a leading current-directory segment of a
/// relative path, then each segment that is neither empty nor `.`.
pub open spec fn path_components(s: Seq<char>) -> Seq<Seq<char>> {
    let segs = segments(s, '/');
    if s.len() > 0 && s[0] == '/' {
        seq![seq!['/']] + named_segments(segs, segs.len() as int)
    } else if segs[0] == dot() {
        seq![dot()] + named_segments(segs, segs.len() as int)
    } else {
        named_segments(segs, segs.len() as int)
    }
}

/// `Path::starts_with`: the components of `base` begin those of `p`.
pub open spec fn path_starts_with(p: Seq<char>, base: Seq<char>) -> bool {
    path_components(base).is_prefix_of(path_components(p))
}

/// The first segment of a split is never absent.
proof fn lemma_segments_nonempty(s: Seq<char>, sep: char)
    ensures
        segments(s, sep).len() >= 1,
    decreases s.len(),
{
    if s.len() > 0 {
        lemma_segments_nonempty(s.drop_last(), sep);
    }
}

/// The components of a path.
fn components_of(s: &Vec<char>) -> (r: Vec<Vec<char>>)
    ensures
        views(r@) == path_components(s@),
{
    let segs = split_chars(s, 0, s.len(), '/');
    proof {
        assert(s@.subrange(0, s@.len() as int) =~= s@);
        lemma_segments_nonempty(s@, '/');
    }
    let mut r: Vec<Vec<char>> = Vec::new();
    if s.len() > 0 && s[0] == '/' {
        let mut root: Vec<char> = Vec::new();
        root.push('/');
        r.push(root);
        proof {
            assert(views(r@) =~= seq![seq!['/']]);
        }
    } else if segs[0].len() == 1 && segs[0][0] == '.' {
        let mut d: Vec<char> = Vec::new();
        d.push('.');
        r.push(d);
        proof {
            assert(views(r@) =~= seq![dot()]);
            assert(segs@[0]@ =~= dot());
        }
    }
    proof {
        if !(s@.len() > 0 && s@[0] == '/') && !(segs@[0]@.len() == 1 && segs@[0]@[0] == '.') {
            assert(views(segs@)[0] != dot());
        }
    }
    let ghost head = views(r@);
    let mut k: usize = 0;
    while k < segs.len()
        invariant
            k <= segs@.len(),
            views(r@) == head + named_segments(views(segs@), k as int),
        decreases segs@.len() - k,
    {
        let g = &segs[k];
        let skip = g.len() == 0 || (g.len() == 1 && g[0] == '.');
        proof {
            assert(views(segs@)[k as int] == g@);
            if g@.len() == 1 && g@[0] == '.' {
                assert(g@ =~= dot());
            }
        }
        if !skip {
            let ghost before = views(r@);
            r.push(crate::chars::sub_chars(g, 0, g.len()));
            proof {
                assert(g@.subrange(0, g@.len() as int) =~= g@);
                assert(views(r@) =~= before.push(g@));
            }
        }
        k = k + 1;
    }
    r
}

/// The components of `base` begin those of `p` (`Path::starts_with`).
pub fn path_within(p: &str, base: &str) -> (b: bool)
    ensures
        b == path_starts_with(p@, base@),
{
    let pc = components_of(&chars_of(p));
    let bc = components_of(&chars_of(base));
    if bc.len() > pc.len() {
        return false;
    }
    let mut k: usize = 0;
    while k < bc.len()
        invariant
            views(pc@) == path_components(p@),
            views(bc@) == path_components(base@),
            bc@.len() <= pc@.len(),
            k <= bc@.len(),
            forall|j: int| 0 <= j < k ==> views(bc@)[j] == views(pc@)[j],
        decreases bc@.len() - k,
    {
        if !chars_eq(&bc[k], &pc[k]) {
            proof {
                assert(views(bc@)[k as int] != views(pc@)[k as int]);
                assert(views(pc@).subrange(0, views(bc@).len() as int)[k as int] != views(bc@)[k as int]);
            }
            return false;
        }
        k = k + 1;
    }
    proof {
        assert(views(pc@).subrange(0, views(bc@).len() as int) =~= views(bc@));
    }
    true
}

/// `cands` are the paths a resolve checks when the target does not exist:
/// `root` joined with the first one, two, ... kept segments of `rel`.
pub open spec fn is_candidates(root: Seq<char>, rel: Seq<char>, cands: Seq<String>) -> bool {
    let parts = kept_parts(rel);
    &&& cands.len() == parts.len()
    &&& forall|k: int|
        0 <= k < cands.len() ==> (#[trigger] cands[k])@ == path_join(root, join(parts.take(k + 1), '/'))
}

/// What resolving `rel` under `root` looks at: the joined path, and the
/// paths to check on the way to it.
pub fn resolve_plan(root: &str, rel: &str) -> (r: Result<(String, Vec<String>), String>)
    ensures
        match normalized(rel@) {
            Err(e) => r matches Err(x) && x@ == e,
            Ok(norm) => r matches Ok(p) && p.0@ == path_join(root@, norm) && is_candidates(
                root@,
                rel@,
                p.1@,
            ),
        },
{
    let parts = match normalize_parts(rel) {
        Err(e) => return Err(e),
        Ok(p) => p,
    };
    let norm = join_chars(&parts, '/');
    let joined = join_path(root, norm.as_str());
    let mut cands: Vec<String> = Vec::new();
    let mut k: usize = 0;
    while k < parts.len()
        invariant
            k <= parts@.len(),
            views(parts@) == kept_parts(rel@),
            cands@.len() == k,
            forall|j: int|
                0 <= j < k ==> (#[trigger] cands@[j])@ == path_join(root@, join(views(parts@).take(j + 1), '/')),
        decreases parts@.len() - k,
    {
        let mut prefix: Vec<Vec<char>> = Vec::new();
        let np = parts.len();
        let mut j: usize = 0;
        while j <= k
            invariant
                np == parts@.len(),
                k < np,
                j <= k + 1,
                views(prefix@) == views(parts@).take(j as int),
            decreases k + 1 - j,
        {
            let ghost before = views(prefix@);
            let ghost oldp = prefix@;
            let piece = crate::chars::sub_chars(&parts[j], 0, parts[j].len());
            proof {
                assert(parts@[j as int]@.subrange(0, parts@[j as int]@.len() as int) =~= parts@[j as int]@);
                assert(views(parts@)[j as int] == parts@[j as int]@);
            }
            prefix.push(piece);
            proof {
                crate::chars::lemma_views_push(oldp, piece);
                assert(views(prefix@) =~= views(parts@).take(j + 1));
            }
            j = j + 1;
        }
        let p = join_chars(&prefix, '/');
        cands.push(join_path(root, p.as_str()));
        k = k + 1;
    }
    Ok((joined, cands))
}

/// A probe result by its views.
pub open spec fn probe_view(p: Option<Result<String, String>>) -> Option<Result<Seq<char>, Seq<char>>> {
    match p {
        Some(r) => Some(text_result(r)),
        None => None,
    }
}

/// The error the checks of the first `n` probes meet first, if any: a
/// probe that exists needs the canonical root and its own canonical path,
/// and the latter within the former.
pub open spec fn first_probe_error(
    probes: Seq<Option<Result<Seq<char>, Seq<char>>>>,
    root: Result<Seq<char>, Seq<char>>,
    n: int,
) -> Option<Seq<char>>
    decreases n,
{
    if n <= 0 {
        None
    } else {
        match first_probe_error(probes, root, n - 1) {
            Some(e) => Some(e),
            None => match probes[n - 1] {
                None => None,
                Some(c) => match root {
                    Err(e) => Some(e),
                    Ok(rc) => match c {
                        Err(e) => Some(e),
                        Ok(cp) => if path_starts_with(cp, rc) {
                            None
                        } else {
                            Some("路径越界"@)
                        },
                    },
                },
            },
        }
    }
}

/// What resolving gives, from what the file system said: `joined_probe`
/// is the canonical form of the joined path (or the error of computing
/// it) when that path exists; otherwise each candidate's probe, in order,
/// is checked.
pub open spec fn verdict(
    joined: Seq<char>,
    joined_probe: Option<Result<Seq<char>, Seq<char>>>,
    root: Result<Seq<char>, Seq<char>>,
    probes: Seq<Option<Result<Seq<char>, Seq<char>>>>,
) -> Result<Seq<char>, Seq<char>> {
    match joined_probe {
        Some(c) => match root {
            Err(e) => Err(e),
            Ok(rc) => match c {
                Err(e) => Err(e),
                Ok(cp) => if path_starts_with(cp, rc) {
                    Ok(cp)
                } else {
                    Err("路径越界"@)
                },
            },
        },
        None => match first_probe_error(probes, root, probes.len() as int) {
            Some(e) => Err(e),
            None => Ok(joined),
        },
    }
}

/// The probes by their views.
pub open spec fn probes_view(p: Seq<Option<Result<String, String>>>) -> Seq<Option<Result<Seq<char>, Seq<char>>>> {
    Seq::new(p.len(), |i: int| probe_view(p[i]))
}

fn copy_string(s: &String) -> (r: String)
    ensures
        r@ == s@,
{
    let c = chars_of(s.as_str());
    string_of(&c, 0, c.len())
}

/// Checks the canonical path `cp` against the canonical root.
fn check_within(cp: &String, root: &Result<String, String>) -> (r: Option<String>)
    ensures
        match root {
            Err(e) => r matches Some(x) && x@ == e@,
            Ok(rc) => if path_starts_with(cp@, rc@) {
                r is None
            } else {
                r matches Some(x) && x@ == "路径越界"@
            },
        },
{
    match root {
        Err(e) => Some(copy_string(e)),
        Ok(rc) => {
            if path_within(cp.as_str(), rc.as_str()) {
                None
            } else {
                Some(String::from_str("路径越界"))
            }
        },
    }
}

/// Decides a resolve from what the file system said of the paths that
/// `resolve_plan` named.
fn resolve_verdict(
    joined: String,
    joined_probe: Option<Result<String, String>>,
    root_canon: Result<String, String>,
    probes: Vec<Option<Result<String, String>>>,
) -> (r: Result<String, String>)
    ensures
        text_result(r) == verdict(joined@, probe_view(joined_probe), text_result(root_canon), probes_view(probes@)),
{
    match joined_probe {
        Some(c) => {
            let cp = match c {
                Err(e) => {
                    return match root_canon {
                        Err(re) => Err(re),
                        Ok(_) => Err(e),
                    };
                },
                Ok(cp) => cp,
            };
            match check_within(&cp, &root_canon) {
                Some(e) => Err(e),
                None => Ok(cp),
            }
        },
        None => {
            let ghost pv = probes_view(probes@);
            let ghost rv = text_result(root_canon);
            let mut k: usize = 0;
            while k < probes.len()
                invariant
                    probe_view(joined_probe) is None,
                    k <= probes@.len(),
                    pv == probes_view(probes@),
                    rv == text_result(root_canon),
                    first_probe_error(pv, rv, k as int) is None,
                decreases probes@.len() - k,
            {
                match &probes[k] {
                    None => {},
                    Some(c) => {
                        proof {
                            assert(pv[k as int] == probe_view(probes@[k as int]));
                            lemma_first_error_stays(pv, rv, k + 1);
                        }
                        match &root_canon {
                            Err(e) => {
                                return Err(copy_string(e));
                            },
                            Ok(_) => {},
                        }
                        match c {
                            Err(e) => {
                                proof {
                                    assert(first_probe_error(pv, rv, k + 1) == Some(e@));
                                    lemma_first_error_stays(pv, rv, k + 1);
                                    assert(first_probe_error(pv, rv, pv.len() as int) == Some(e@));
                                }
                                return Err(copy_string(e));
                            },
                            Ok(cp) => {
                                match check_within(cp, &root_canon) {
                                    Some(e) => {
                                        proof {
                                            assert(first_probe_error(pv, rv, k + 1) == Some(e@));
                                            lemma_first_error_stays(pv, rv, k + 1);
                                            assert(first_probe_error(pv, rv, pv.len() as int) == Some(e@));
                                        }
                                        return Err(e);
                                    },
                                    None => {},
                                }
                            },
                        }
                    },
                }
                proof {
                    assert(pv[k as int] == probe_view(probes@[k as int]));
                }
                k = k + 1;
            }
            Ok(joined)
        },
    }
}

/// Resolves `rel` under `root`: the path must normalize, and whatever of
/// it exists must lie, canonically, within the canonical root. The file
/// system's answers for the paths `resolve_plan` names are given:
/// `joined_probe` for the joined path (`None` when it does not exist, else
/// its canonical form or the error of computing it), `root_canon` for the
/// root, and `probes` for the candidates in order (consulted only when the
/// joined path does not exist).
pub fn resolve_under_root(
    root: &str,
    rel: &str,
    joined_probe: Option<Result<String, String>>,
    root_canon: Result<String, String>,
    probes: Vec<Option<Result<String, String>>>,
) -> (r: Result<String, String>)
    ensures
        text_result(r) == match normalized(rel@) {
            Err(e) => Err(e),
            Ok(norm) => verdict(
                path_join(root@, norm),
                probe_view(joined_probe),
                text_result(root_canon),
                probes_view(probes@),
            ),
        },
{
    match resolve_plan(root, rel) {
        Err(e) => Err(e),
        Ok((joined, _candidates)) => resolve_verdict(joined, joined_probe, root_canon, probes),
    }
}

/// Once a probe fails, the first error stays that one.
proof fn lemma_first_error_stays(
    probes: Seq<Option<Result<Seq<char>, Seq<char>>>>,
    root: Result<Seq<char>, Seq<char>>,
    n: int,
)
    requires
        0 <= n <= probes.len(),
    ensures
        first_probe_error(probes, root, n) is Some ==> first_probe_error(probes, root, probes.len() as int)
            == first_probe_error(probes, root, n),
    decreases probes.len() - n,
{
    if n < probes.len() {
        lemma_first_error_stays(probes, root, n + 1);
    }
}

/// `s` without leading and trailing `/`.
pub open spec fn without_slashes(s: Seq<char>) -> Seq<char> {
    trim_by(s, slash_class())
}

/// A listing prefix without leading and trailing `/`; empty for the root.
pub fn trim_slashes(prefix: &str) -> (r: String)
    ensures
        r@ == without_slashes(prefix@),
{
    let cs = chars_of(prefix);
    let (a, b) = trim_range(&cs, 0, cs.len(), 3);
    proof {
        assert(cs@.subrange(0, cs@.len() as int) =~= cs@);
    }
    string_of(&cs, a, b)
}

/// What the names in a listing of `prefix` begin with: the trimmed prefix
/// and a `/`, or nothing at the root.
pub open spec fn name_prefix(prefix: Seq<char>) -> Seq<char> {
    let p = without_slashes(prefix);
    if p.len() == 0 {
        Seq::empty()
    } else {
        p.push('/')
    }
}

pub fn listing_prefix(prefix: &str) -> (r: String)
    ensures
        r@ == name_prefix(prefix@),
{
    let mut p = trim_slashes(prefix);
    if p.as_str().is_empty() {
        String::new()
    } else {
        crate::text::push_char(&mut p, '/');
        p
    }
}

/// The kind of a directory entry, as listings and walks see it.
pub enum EntryKind {
    Dir,
    File,
    /// Neither a directory nor a regular file, or a kind that could not be
    /// read.
    Other,
}

/// What a listing does with one directory entry.
pub enum ListAction {
    /// The listing is full: it stops here and is marked truncated.
    Stop,
    /// The entry is not listed.
    Skip,
    /// The entry is listed under this relative path.
    Take(String),
}

/// A listing of `taken` entries is full: it stops and is marked truncated.
pub fn listing_full(taken: usize) -> (b: bool)
    ensures
        b == (taken >= MAX_DIR_ENTRIES),
{
    taken >= MAX_DIR_ENTRIES
}

/// Decides one entry `name` of the directory listed under `prefix_norm`
/// (as `listing_prefix` gives it), once `taken` entries are listed.
pub fn list_step(taken: usize, prefix_norm: &str, name: &str, kind: EntryKind) -> (a: ListAction)
    ensures
        taken >= MAX_DIR_ENTRIES ==> a is Stop,
        taken < MAX_DIR_ENTRIES && (skipped_name(name@) || kind is Other) ==> a is Skip,
        taken < MAX_DIR_ENTRIES && !skipped_name(name@) && !(kind is Other) ==> (a matches ListAction::Take(rel)
            && rel@ == prefix_norm@ + name@),
{
    if taken >= MAX_DIR_ENTRIES {
        return ListAction::Stop;
    }
    if should_skip_name(name) {
        return ListAction::Skip;
    }
    match kind {
        EntryKind::Other => ListAction::Skip,
        _ => ListAction::Take(String::from_str(prefix_norm).concat(name)),
    }
}

/// What the orphan walk does with one directory entry.
pub enum WalkAction {
    /// The walk has seen its cap of entries: it stops, marked truncated.
    Stop,
    /// The entry is passed over.
    Skip,
    /// Walk the directory at this relative path for documents and assets.
    Descend(String),
    /// Collect the asset files under the directory at this relative path.
    CollectAssets(String),
    /// A document to scan, at this relative path.
    Doc(String),
    /// An asset file, at this relative path.
    Asset(String),
}

/// How far the orphan walk has come.
pub struct WalkCount {
    /// Entries seen so far, over all directories.
    pub entries: usize,
    /// The walk hit its cap.
    pub truncated: bool,
}

/// `name` in the directory `rel_dir` of a walk: joined with `/`, or `name`
/// alone at the root.
pub open spec fn child_rel(rel_dir: Seq<char>, name: Seq<char>) -> Seq<char> {
    if rel_dir.len() == 0 {
        name
    } else {
        rel_dir.push('/') + name
    }
}

/// Decides one entry `name` of the directory `rel_dir` in the orphan walk:
/// in the document walk (`in_assets` false), or in the collection of an
/// `.assets` directory and its subdirectories (`in_assets` true), where
/// names beginning with `.` are passed over too.
pub fn walk_step(count: &mut WalkCount, rel_dir: &str, name: &str, kind: EntryKind, in_assets: bool) -> (a: WalkAction)
    ensures
        old(count).entries >= MAX_WALK_ENTRIES ==> (a is Stop && final(count).entries == old(count).entries
            && final(count).truncated),
        old(count).entries < MAX_WALK_ENTRIES ==> {
            let skip = skipped_name(name@) || (in_assets && name@.len() > 0 && name@[0] == '.') || kind is Other;
            let rel = if in_assets {
                rel_dir@.push('/') + name@
            } else {
                child_rel(rel_dir@, name@)
            };
            &&& final(count).entries == old(count).entries + 1
            &&& final(count).truncated == old(count).truncated
            &&& skip ==> a is Skip
            &&& (!skip && kind is Dir && (in_assets || name@ == ".assets"@)) ==> (a matches WalkAction::CollectAssets(r)
                && r@ == rel)
            &&& (!skip && kind is Dir && !in_assets && name@ != ".assets"@) ==> (a matches WalkAction::Descend(r)
                && r@ == rel)
            &&& (!skip && kind is File && in_assets) ==> (a matches WalkAction::Asset(r) && r@ == rel)
            &&& (!skip && kind is File && !in_assets && is_doc_name(name@)) ==> (a matches WalkAction::Doc(r)
                && r@ == rel)
            &&& (!skip && kind is File && !in_assets && !is_doc_name(name@)) ==> a is Skip
        },
{
    if count.entries >= MAX_WALK_ENTRIES {
        count.truncated = true;
        return WalkAction::Stop;
    }
    count.entries = count.entries + 1;
    if should_skip_name(name) {
        return WalkAction::Skip;
    }
    let n = chars_of(name);
    if in_assets && n.len() > 0 && n[0] == '.' {
        return WalkAction::Skip;
    }
    let rel = if in_assets || !rel_dir.is_empty() {
        let mut r = String::from_str(rel_dir);
        crate::text::push_char(&mut r, '/');
        r.concat(name)
    } else {
        String::from_str(name)
    };
    match kind {
        EntryKind::Other => WalkAction::Skip,
        EntryKind::Dir => {
            if in_assets || is_lit(&n, ".assets") {
                WalkAction::CollectAssets(rel)
            } else {
                WalkAction::Descend(rel)
            }
        },
        EntryKind::File => {
            if in_assets {
                WalkAction::Asset(rel)
            } else if is_scan_doc(name) {
                WalkAction::Doc(rel)
            } else {
                WalkAction::Skip
            }
        },
    }
}

/// A document the orphan scan reads: a regular file of at most
/// `MAX_DOC_BYTES` bytes.
pub fn doc_scannable(is_file: bool, len: u64) -> (b: bool)
    ensures
        b == (is_file && len <= MAX_DOC_BYTES),
{
    is_file && len <= MAX_DOC_BYTES
}

/// The record of a listed file or directory, from its relative name and
/// what its metadata says: missing times fall back to the modification
/// time, and that to 0.
pub fn meta_to_info(
    rel: String,
    is_dir: bool,
    len: u64,
    modified_ms: Option<u64>,
    accessed_ms: Option<u64>,
    created_ms: Option<u64>,
) -> (f: FileInfo)
    ensures
        f.name@ == rel@,
        f.is_dir == is_dir,
        f.size == if is_dir {
            0
        } else {
            len
        },
        f.mtime_ms == match modified_ms {
            Some(t) => t,
            None => 0,
        },
        f.atime_ms == match accessed_ms {
            Some(t) => t,
            None => f.mtime_ms,
        },
        f.ctime_ms == match created_ms {
            Some(t) => t,
            None => f.mtime_ms,
        },
        f.file_type == if is_dir {
            FILE_TYPE_OPAQUE
        } else {
            type_of_name(spec_to_lowercase(rel@))
        },
        f.content_hash@.len() == 0,
{
    let mtime = match modified_ms {
        Some(t) => t,
        None => 0,
    };
    let atime = match accessed_ms {
        Some(t) => t,
        None => mtime,
    };
    let ctime = match created_ms {
        Some(t) => t,
        None => mtime,
    };
    let file_type = if is_dir {
        FILE_TYPE_OPAQUE
    } else {
        guess_file_type(rel.as_str())
    };
    FileInfo {
        name: rel,
        size: if is_dir {
            0
        } else {
            len
        },
        ctime_ms: ctime,
        mtime_ms: mtime,
        atime_ms: atime,
        file_type,
        content_hash: String::new(),
        is_dir,
    }
}

/// In a listing, `a` comes strictly before `b`: directories first, then
/// by name.
pub open spec fn listed_before(a: FileInfo, b: FileInfo) -> bool {
    (a.is_dir && !b.is_dir) || (a.is_dir == b.is_dir && lex_lt(encode_utf8(a.name@), encode_utf8(b.name@)))
}

/// `v` is in listing order.
pub open spec fn in_listing_order(v: Seq<FileInfo>) -> bool {
    forall|a: int, b: int| #![trigger v[a], v[b]] 0 <= a < b < v.len() ==> !listed_before(v[b], v[a])
}

fn comes_before(a: &FileInfo, b: &FileInfo) -> (r: bool)
    ensures
        r == listed_before(*a, *b),
{
    if a.is_dir && !b.is_dir {
        true
    } else if a.is_dir == b.is_dir {
        bytes_lt(a.name.as_str().as_bytes(), b.name.as_str().as_bytes())
    } else {
        false
    }
}

/// Not coming before is transitive.
proof fn lemma_listed_order(a: FileInfo, b: FileInfo, c: FileInfo)
    ensures
        !listed_before(a, a),
        listed_before(a, b) ==> !listed_before(b, a),
        !listed_before(b, a) && !listed_before(c, b) ==> !listed_before(c, a),
{
    let (na, nb, nc) = (encode_utf8(a.name@), encode_utf8(b.name@), encode_utf8(c.name@));
    crate::lex::lemma_lex_irreflexive(na);
    crate::lex::lemma_lex_total(na, nb);
    crate::lex::lemma_lex_total(nb, nc);
    crate::lex::lemma_lex_total(na, nc);
    if lex_lt(nc, nb) && lex_lt(nb, na) {
        crate::lex::lemma_lex_transitive(nc, nb, na);
    }
    if lex_lt(nc, na) {
        if lex_lt(nb, nc) {
            crate::lex::lemma_lex_transitive(nb, nc, na);
        }
        if lex_lt(na, nb) {
            crate::lex::lemma_lex_transitive(nc, na, nb);
        }
    }
}

/// `p` places the items of `s` as `r` holds them (`r[i]` is `s[p[i]]`,
/// each item of `s` once), in an order where no item comes `before` an
/// earlier one, and where two items neither of which comes `before` the
/// other keep the order they have in `s`.
pub open spec fn stable_order(
    s: Seq<FileInfo>,
    r: Seq<FileInfo>,
    p: Seq<int>,
    before: spec_fn(FileInfo, FileInfo) -> bool,
) -> bool {
    &&& r.len() == s.len()
    &&& p.len() == s.len()
    &&& forall|i: int| #![trigger p[i]] 0 <= i < r.len() ==> 0 <= p[i] < s.len() && r[i] == s[p[i]]
    &&& forall|i: int, j: int| #![trigger p[i], p[j]] 0 <= i < j < r.len() ==> p[i] != p[j]
    &&& forall|i: int, j: int|
        #![trigger r[i], r[j]]
        0 <= i < j < r.len() ==> !before(r[j], r[i]) && (!before(r[i], r[j]) ==> p[i] < p[j])
}

/// `r` is `s` sorted stably by `before`, as `slice::sort_by` sorts.
pub open spec fn stably_sorted(s: Seq<FileInfo>, r: Seq<FileInfo>, before: spec_fn(FileInfo, FileInfo) -> bool) -> bool {
    exists|p: Seq<int>| #[trigger] stable_order(s, r, p, before)
}

/// The order of a listing, as a relation.
pub open spec fn listing_order() -> spec_fn(FileInfo, FileInfo) -> bool {
    |a: FileInfo, b: FileInfo| listed_before(a, b)
}

/// Puts a listing in order: directories first, then by name; entries that
/// tie keep their order.
pub fn sort_listing(entries: Vec<FileInfo>) -> (r: Vec<FileInfo>)
    ensures
        r@.to_multiset() == entries@.to_multiset(),
        in_listing_order(r@),
        stably_sorted(entries@, r@, listing_order()),
{
    broadcast use vstd::seq_lib::group_to_multiset_ensures;

    let ghost all = entries@;
    let mut input = entries;
    let mut out: Vec<FileInfo> = Vec::new();
    let ghost mut p: Seq<int> = Seq::empty();
    while input.len() > 0
        invariant
            out@.to_multiset().add(input@.to_multiset()) == all.to_multiset(),
            in_listing_order(out@),
            input@.len() <= all.len(),
            input@ == all.take(input@.len() as int),
            p.len() == out@.len(),
            out@.len() + input@.len() == all.len(),
            forall|i: int| #![trigger p[i]] 0 <= i < p.len() ==> input@.len() <= p[i] < all.len() && out@[i] == all[p[i]],
            forall|i: int, j: int| #![trigger p[i], p[j]] 0 <= i < j < p.len() ==> p[i] != p[j],
            forall|i: int, j: int|
                #![trigger out@[i], out@[j]]
                0 <= i < j < out@.len() && !listed_before(out@[i], out@[j]) ==> p[i] < p[j],
        decreases input@.len(),
    {
        let ghost before_in = input@;
        let x = input.pop().unwrap();
        let ghost m = input@.len() as int;
        proof {
            assert(before_in =~= input@.push(x));
            assert(input@ =~= all.take(m));
            assert(x == all[m]);
        }
        let mut pos: usize = 0;
        while pos < out.len() && comes_before(&out[pos], &x)
            invariant
                pos <= out@.len(),
                forall|k: int| 0 <= k < pos ==> listed_before(#[trigger] out@[k], x),
            decreases out@.len() - pos,
        {
            pos = pos + 1;
        }
        let ghost old_out = out@;
        let ghost old_p = p;
        proof {
            old_out.insert_ensures(pos as int, x);
        }
        out.insert(pos, x);
        proof {
            p = old_p.insert(pos as int, m);
            assert forall|i: int| #![trigger p[i]] 0 <= i < p.len() implies input@.len() <= p[i] < all.len() && out@[i] == all[p[i]] by {
                if i < pos {
                    assert(p[i] == old_p[i]);
                } else if i > pos {
                    assert(p[i] == old_p[i - 1]);
                }
            }
            assert forall|i: int, j: int| #![trigger p[i], p[j]] 0 <= i < j < p.len() implies p[i] != p[j] by {
                let i0 = if i < pos { i } else { i - 1 };
                let j0 = if j < pos { j } else { j - 1 };
                if i != pos && j != pos {
                    assert(p[i] == old_p[i0]);
                    assert(p[j] == old_p[j0]);
                } else if i == pos {
                    assert(p[j] == old_p[j0]);
                } else {
                    assert(p[i] == old_p[i0]);
                }
            }
            assert forall|i: int, j: int|
                #![trigger out@[i], out@[j]]
                0 <= i < j < out@.len() && !listed_before(out@[i], out@[j]) implies p[i] < p[j] by {
                let i0 = if i < pos { i } else { i - 1 };
                let j0 = if j < pos { j } else { j - 1 };
                if i != pos && j != pos {
                    assert(p[i] == old_p[i0]);
                    assert(p[j] == old_p[j0]);
                    assert(out@[i] == old_out[i0]);
                    assert(out@[j] == old_out[j0]);
                } else if i == pos {
                    assert(p[j] == old_p[j0]);
                } else {
                    assert(out@[i] == old_out[i]);
                }
            }
            assert forall|a: int, b: int| #![trigger out@[a], out@[b]] 0 <= a < b < out@.len() implies !listed_before(out@[b], out@[a]) by {
                if b == pos {
                    lemma_listed_order(old_out[a], x, x);
                    assert(out@[a] == old_out[a]);
                } else if a == pos {
                    assert(out@[b] == old_out[b - 1]);
                    lemma_listed_order(x, old_out[pos as int], old_out[b - 1]);
                    if b - 1 > pos {
                        assert(!listed_before(old_out[b - 1], old_out[pos as int]));
                    }
                } else {
                    let a0 = if a < pos { a } else { a - 1 };
                    let b0 = if b < pos { b } else { b - 1 };
                    assert(out@[a] == old_out[a0]);
                    assert(out@[b] == old_out[b0]);
                    assert(a0 < b0);
                }
            }
            vstd::seq_lib::to_multiset_insert(old_out, pos as int, x);
            vstd::seq_lib::to_multiset_build(input@, x);
            assert(out@.to_multiset() == old_out.to_multiset().insert(x));
            assert(before_in.to_multiset() == input@.to_multiset().insert(x));
            assert(out@.to_multiset().add(input@.to_multiset()) =~= all.to_multiset());
        }
    }
    proof {
        assert(input@.to_multiset() =~= vstd::multiset::Multiset::empty());
        assert(out@.to_multiset().add(vstd::multiset::Multiset::empty()) =~= out@.to_multiset());
        assert forall|i: int, j: int|
            #![trigger out@[i], out@[j]]
            0 <= i < j < out@.len() implies !listing_order()(out@[j], out@[i]) && (!listing_order()(
                out@[i],
                out@[j],
            ) ==> p[i] < p[j]) by {}
        assert(stable_order(all, out@, p, listing_order()));
    }
    out
}

// ---------------------------------------------------------------------------
// References from documents to assets.

/// The directory part of a note path: up to and including its last `/`,
/// or nothing.
pub open spec fn dir_part(p: Seq<char>) -> Seq<char>
    decreases p.len(),
{
    if p.len() == 0 {
        p
    } else if p.last() == '/' {
        p
    } else {
        dir_part(p.drop_last())
    }
}

/// The directory of a note, with its trailing `/` (empty at the root).
pub fn note_dir_rel(note_path: &str) -> (r: String)
    ensures
        r@ == dir_part(note_path@),
{
    let cs = chars_of(note_path);
    let mut n = cs.len();
    assert(cs@.subrange(0, n as int) =~= cs@);
    while n > 0 && cs[n - 1] != '/'
        invariant
            n <= cs@.len(),
            dir_part(cs@) == dir_part(cs@.subrange(0, n as int)),
        decreases n,
    {
        proof {
            assert(cs@.subrange(0, n as int).drop_last() =~= cs@.subrange(0, n - 1));
        }
        n = n - 1;
    }
    string_of(&cs, 0, n)
}

/// `h` up to its first `?` or `#`.
pub open spec fn before_query(h: Seq<char>) -> Seq<char>
    decreases h.len(),
{
    if h.len() == 0 || h[0] == '?' || h[0] == '#' {
        Seq::empty()
    } else {
        seq![h[0]] + before_query(h.drop_first())
    }
}

/// The asset path a reference `href` in the note at `note` names, relative
/// to the document root: `None` for an empty, external (`data:`, `blob:`,
/// anything with `://`) or fragment-only reference, or one that climbs
/// above the root.
pub open spec fn resolved_href(note: Seq<char>, href: Seq<char>) -> Option<Seq<char>> {
    let h0 = trimmed(href);
    let h = before_query(h0);
    if h0.len() == 0 || not_a_path(h) {
        None
    } else {
        let cleaned = crate::chars::trim_start_by(h, slash_class());
        if cleaned.len() == 0 {
            None
        } else {
            let base = if h[0] == '/' {
                Seq::empty()
            } else {
                dir_part(note)
            };
            folded_path(base + cleaned)
        }
    }
}

/// What is kept before the first `?` or `#` holds neither.
proof fn lemma_before_query_clean(h: Seq<char>)
    ensures
        !before_query(h).contains('?'),
        !before_query(h).contains('#'),
        forall|c: char| !h.contains(c) ==> !#[trigger] before_query(h).contains(c),
    decreases h.len(),
{
    if h.len() > 0 && h[0] != '?' && h[0] != '#' {
        let t = h.drop_first();
        lemma_before_query_clean(t);
        let b = seq![h[0]] + before_query(t);
        assert forall|c: char| (c == '?' || c == '#' || !h.contains(c)) implies !b.contains(c) by {
            if b.contains(c) {
                let i = choose|i: int| 0 <= i < b.len() && b[i] == c;
                if i > 0 {
                    assert(before_query(t)[i - 1] == c);
                    assert(before_query(t).contains(c));
                    if !h.contains(c) {
                        assert(t.contains(c) ==> h.contains(c)) by {
                            if t.contains(c) {
                                let j = choose|j: int| 0 <= j < t.len() && t[j] == c;
                                assert(h[j + 1] == c);
                            }
                        }
                    }
                } else {
                    assert(h[0] == c);
                    assert(h.contains(c));
                }
            }
        }
    } else {
        assert(before_query(h) =~= Seq::<char>::empty());
    }
}

/// Trimming leading characters keeps out what was not there.
proof fn lemma_trim_start_avoid(s: Seq<char>, p: spec_fn(char) -> bool, c: char)
    requires
        !s.contains(c),
    ensures
        !crate::chars::trim_start_by(s, p).contains(c),
    decreases s.len(),
{
    if s.len() > 0 && p(s[0]) {
        let t = s.drop_first();
        if t.contains(c) {
            let j = choose|j: int| 0 <= j < t.len() && t[j] == c;
            assert(s[j + 1] == c);
        }
        lemma_trim_start_avoid(t, p, c);
    }
}

/// The directory part of a note path keeps out what the path lacks.
proof fn lemma_dir_part_avoid(p: Seq<char>, c: char)
    requires
        !p.contains(c),
    ensures
        !dir_part(p).contains(c),
    decreases p.len(),
{
    if p.len() > 0 && p.last() != '/' {
        let t = p.drop_last();
        if t.contains(c) {
            let j = choose|j: int| 0 <= j < t.len() && t[j] == c;
            assert(p[j] == c);
        }
        lemma_dir_part_avoid(t, c);
    }
}

/// A reference is cut at its first `?` or `#` before it is resolved: the
/// path it resolves to holds no `?` or `#` but what the note's own path
/// holds, and no character that neither the note's path nor the reference
/// holds.
pub proof fn lemma_resolved_href_clean(note: Seq<char>, href: Seq<char>, c: char)
    requires
        c != '/',
        !note.contains(c),
        c == '?' || c == '#' || !href.contains(c),
    ensures
        resolved_href(note, href) matches Some(p) ==> !p.contains(c),
{
    let h0 = trimmed(href);
    let h = before_query(h0);
    lemma_before_query_clean(h0);
    if !href.contains(c) {
        lemma_trim_start_avoid(href, ws_class(), c);
        crate::chars::lemma_trim_end_avoid(crate::chars::trim_start_by(href, ws_class()), ws_class(), c);
    }
    assert(!h.contains(c));
    if resolved_href(note, href) is Some {
        let cleaned = crate::chars::trim_start_by(h, slash_class());
        lemma_trim_start_avoid(h, slash_class(), c);
        let base = if h[0] == '/' {
            Seq::empty()
        } else {
            dir_part(note)
        };
        lemma_dir_part_avoid(note, c);
        let x = base + cleaned;
        if x.contains(c) {
            let i = choose|i: int| 0 <= i < x.len() && x[i] == c;
            if i < base.len() {
                assert(base[i] == c);
                assert(base.contains(c));
            } else {
                assert(cleaned[i - base.len()] == c);
                assert(cleaned.contains(c));
            }
        }
        let segs = segments(x, '/');
        crate::chars::lemma_segments_avoid(x, '/', c);
        crate::chars::lemma_fold_kept(segs, segs.len() as int, c);
        let parts = fold_path(segs, segs.len() as int)->Some_0;
        crate::chars::lemma_join_avoid(parts, '/', c);
    }
}

/// Cutting at the first `?` or `#` passes over a clean prefix.
proof fn lemma_before_query_append(a: Seq<char>, b: Seq<char>)
    requires
        !a.contains('?'),
        !a.contains('#'),
    ensures
        before_query(a + b) == a + before_query(b),
    decreases a.len(),
{
    if a.len() > 0 {
        let a1 = a.drop_first();
        if a1.contains('?') {
            let j = choose|j: int| 0 <= j < a1.len() && a1[j] == '?';
            assert(a[j + 1] == '?');
        }
        if a1.contains('#') {
            let j = choose|j: int| 0 <= j < a1.len() && a1[j] == '#';
            assert(a[j + 1] == '#');
        }
        lemma_before_query_append(a1, b);
        assert((a + b)[0] == a[0]);
        assert((a + b).drop_first() =~= a1 + b);
        assert(a =~= seq![a[0]] + a1);
    } else {
        assert(a + b =~= b);
    }
}

/// Trimming the end of `a + b`, where `a` ends with a character that is
/// kept, trims only `b`.
proof fn lemma_trim_end_append(a: Seq<char>, b: Seq<char>, p: spec_fn(char) -> bool)
    requires
        a.len() > 0,
        !p(a.last()),
    ensures
        crate::chars::trim_end_by(a + b, p) == a + crate::chars::trim_end_by(b, p),
    decreases b.len(),
{
    if b.len() > 0 {
        assert((a + b).last() == b.last());
        if p(b.last()) {
            assert((a + b).drop_last() =~= a + b.drop_last());
            lemma_trim_end_append(a, b.drop_last(), p);
        }
    } else {
        assert(a + b =~= a);
        assert((a + b).last() == a.last());
    }
}

/// Everything from the first `?` or `#` of a reference on is cut before it
/// is resolved: a trimmed reference `h` without `?` or `#` resolves, with
/// any query or fragment after it, to what `h` alone resolves to.
pub proof fn lemma_query_fragment_ignored(note: Seq<char>, h: Seq<char>, c: char, rest: Seq<char>)
    requires
        c == '?' || c == '#',
        h.len() > 0,
        !white_space(h[0]),
        !white_space(h.last()),
        !h.contains('?'),
        !h.contains('#'),
    ensures
        resolved_href(note, h.push(c) + rest) == resolved_href(note, h),
{
    let x = h.push(c) + rest;
    assert(x[0] == h[0]);
    assert(crate::chars::trim_start_by(x, ws_class()) == x);
    assert(crate::chars::trim_start_by(h, ws_class()) == h);
    assert(crate::chars::trim_end_by(h, ws_class()) == h);
    assert(x =~= h + (seq![c] + rest));
    lemma_trim_end_append(h, seq![c] + rest, ws_class());
    let tail = crate::chars::trim_end_by(seq![c] + rest, ws_class());
    assert(trimmed(x) == h + tail);
    assert(trimmed(h) == h);
    lemma_before_query_append(h, tail);
    if tail.len() > 0 {
        assert(tail[0] == c) by {
            crate::chars::lemma_trim_end_prefix(seq![c] + rest, ws_class());
        }
        assert(before_query(tail) =~= Seq::<char>::empty());
    } else {
        assert(before_query(tail) =~= Seq::<char>::empty());
    }
    assert(before_query(trimmed(x)) =~= h);
    assert(before_query(h) =~= h) by {
        lemma_before_query_append(h, Seq::empty());
        assert(h + Seq::<char>::empty() =~= h);
    }
}

/// An optional string by its view.
pub open spec fn opt_text(r: Option<String>) -> Option<Seq<char>> {
    match r {
        Some(s) => Some(s@),
        None => None,
    }
}

/// The end of the part of `s[from..to]` before the first `?` or `#`.
fn query_cut(s: &Vec<char>, from: usize, to: usize) -> (e: usize)
    requires
        from <= to <= s@.len(),
    ensures
        from <= e <= to,
        s@.subrange(from as int, e as int) == before_query(s@.subrange(from as int, to as int)),
{
    let mut e = from;
    while e < to && s[e] != '?' && s[e] != '#'
        invariant
            from <= e <= to <= s@.len(),
            before_query(s@.subrange(from as int, to as int)) == s@.subrange(from as int, e as int)
                + before_query(s@.subrange(e as int, to as int)),
        decreases to - e,
    {
        proof {
            let t = s@.subrange(e as int, to as int);
            assert(t.drop_first() =~= s@.subrange(e + 1, to as int));
            assert(s@.subrange(from as int, e + 1) =~= s@.subrange(from as int, e as int) + seq![t[0]]);
        }
        e = e + 1;
    }
    proof {
        assert(s@.subrange(from as int, from as int) =~= Seq::<char>::empty());
        let t = s@.subrange(e as int, to as int);
        assert(before_query(t) =~= Seq::<char>::empty());
    }
    e
}

/// The characters as a vector holding them.
fn lit(s: &str) -> (v: Vec<char>)
    ensures
        v@ == s@,
{
    chars_of(s)
}

/// `h` is a reference that names nothing under the root: empty, a
/// fragment, a `data:` or `blob:` URL, or anything with `://`.
pub open spec fn not_a_path(h: Seq<char>) -> bool {
    h.len() == 0 || starts_with(h, "#"@) || starts_with(h, "data:"@) || starts_with(h, "blob:"@)
        || crate::chars::contains(h, "://"@)
}

fn is_not_a_path(h: &Vec<char>) -> (b: bool)
    ensures
        b == not_a_path(h@),
{
    h.len() == 0 || chars_start_with(h, &lit("#")) || chars_start_with(h, &lit("data:")) || chars_start_with(
        h,
        &lit("blob:"),
    ) || chars_contain(h, &lit("://"))
}

/// Where the leading `/` of `h` end.
fn leading_slashes(h: &Vec<char>) -> (c: usize)
    ensures
        c <= h@.len(),
        h@.subrange(c as int, h@.len() as int) == trim_start_by(h@, slash_class()),
{
    let mut c: usize = 0;
    assert(h@.subrange(0, h@.len() as int) =~= h@);
    while c < h.len() && h[c] == '/'
        invariant
            c <= h@.len(),
            trim_start_by(h@, slash_class()) == trim_start_by(h@.subrange(c as int, h@.len() as int), slash_class()),
        decreases h@.len() - c,
    {
        proof {
            crate::chars::lemma_trim_step(h@, slash_class(), c as int, h@.len() as int);
        }
        c = c + 1;
    }
    proof {
        crate::chars::lemma_trim_step(h@, slash_class(), c as int, h@.len() as int);
    }
    c
}

/// `base` followed by `h[from..]`.
fn append_tail(base: Vec<char>, h: &Vec<char>, from: usize) -> (r: Vec<char>)
    requires
        from <= h@.len(),
    ensures
        r@ == base@ + h@.subrange(from as int, h@.len() as int),
{
    let mut joined = base;
    let ghost b0 = joined@;
    let mut k = from;
    while k < h.len()
        invariant
            from <= k <= h@.len(),
            joined@ == b0 + h@.subrange(from as int, k as int),
        decreases h@.len() - k,
    {
        joined.push(h[k]);
        proof {
            assert(h@.subrange(from as int, k + 1) =~= h@.subrange(from as int, k as int).push(h@[k as int]));
        }
        k = k + 1;
    }
    joined
}

/// The path that folding the `/`-separated segments of `p` gives, if any
/// segment is left.
pub open spec fn folded_path(p: Seq<char>) -> Option<Seq<char>> {
    let segs = segments(p, '/');
    match fold_path(segs, segs.len() as int) {
        None => None,
        Some(parts) => if parts.len() == 0 {
            None
        } else {
            Some(join(parts, '/'))
        },
    }
}

fn fold_text_path(p: &Vec<char>) -> (r: Option<String>)
    ensures
        opt_text(r) == folded_path(p@),
{
    let segs = split_chars(p, 0, p.len(), '/');
    proof {
        assert(p@.subrange(0, p@.len() as int) =~= p@);
    }
    match fold_segments(segs) {
        None => None,
        Some(parts) => {
            if parts.len() == 0 {
                None
            } else {
                Some(join_chars(&parts, '/'))
            }
        },
    }
}

/// The reference path a note at `note_path` makes with `href`, relative to
/// the document root.
pub fn resolve_href(note_path: &str, href: &str) -> (r: Option<String>)
    ensures
        opt_text(r) == resolved_href(note_path@, href@),
{
    let hs = chars_of(href);
    let (a, b) = trim_range(&hs, 0, hs.len(), 0);
    proof {
        assert(hs@.subrange(0, hs@.len() as int) =~= hs@);
    }
    if a == b {
        return None;
    }
    let e = query_cut(&hs, a, b);
    let h = sub_chars(&hs, a, e);
    if is_not_a_path(&h) {
        return None;
    }
    let root_abs = h[0] == '/';
    let c = leading_slashes(&h);
    if c == h.len() {
        return None;
    }
    let base: Vec<char> = if root_abs {
        Vec::new()
    } else {
        chars_of(note_dir_rel(note_path).as_str())
    };
    let joined = append_tail(base, &h, c);
    fold_text_path(&joined)
}

/// `s` up to its first White_Space character.
pub open spec fn take_until_ws(s: Seq<char>) -> Seq<char>
    decreases s.len(),
{
    if s.len() == 0 || white_space(s[0]) {
        Seq::empty()
    } else {
        seq![s[0]] + take_until_ws(s.drop_first())
    }
}

/// The first whitespace-separated word of `s` (`split_whitespace().next()`),
/// or nothing.
pub open spec fn first_word(s: Seq<char>) -> Seq<char> {
    take_until_ws(trim_start_by(s, ws_class()))
}

/// The reference a raw attribute or link target holds: trimmed, without
/// angle brackets, its first word, without quotes; `None` when nothing is
/// left.
pub open spec fn href_token(raw: Seq<char>) -> Option<Seq<char>> {
    let t = trim_by(first_word(trim_by(trimmed(raw), angle_class())), quote_class());
    if t.len() == 0 {
        None
    } else {
        Some(t)
    }
}

/// The views of the strings of `v`.
pub open spec fn str_views(v: Seq<String>) -> Seq<Seq<char>> {
    Seq::new(v.len(), |i: int| v[i]@)
}

/// The bounds of the reference in `s[from..to]`, if any.
fn token_range(s: &Vec<char>, from: usize, to: usize) -> (r: (usize, usize))
    requires
        from <= to <= s@.len(),
    ensures
        r.0 <= r.1 <= s@.len(),
        s@.subrange(r.0 as int, r.1 as int) == trim_by(
            first_word(trim_by(trimmed(s@.subrange(from as int, to as int)), angle_class())),
            quote_class(),
        ),
{
    let (a, b) = trim_range(s, from, to, 0);
    let (a2, b2) = trim_range(s, a, b, 1);
    let mut w = a2;
    while w < b2 && is_white_space(s[w])
        invariant
            a2 <= w <= b2 <= s@.len(),
            trim_start_by(s@.subrange(a2 as int, b2 as int), ws_class()) == trim_start_by(
                s@.subrange(w as int, b2 as int),
                ws_class(),
            ),
        decreases b2 - w,
    {
        proof {
            crate::chars::lemma_trim_step(s@, ws_class(), w as int, b2 as int);
        }
        w = w + 1;
    }
    proof {
        crate::chars::lemma_trim_step(s@, ws_class(), w as int, b2 as int);
    }
    let mut x = w;
    while x < b2 && !is_white_space(s[x])
        invariant
            w <= x <= b2 <= s@.len(),
            take_until_ws(s@.subrange(w as int, b2 as int)) == s@.subrange(w as int, x as int) + take_until_ws(
                s@.subrange(x as int, b2 as int),
            ),
        decreases b2 - x,
    {
        proof {
            let t = s@.subrange(x as int, b2 as int);
            assert(t.drop_first() =~= s@.subrange(x + 1, b2 as int));
            assert(s@.subrange(w as int, x + 1) =~= s@.subrange(w as int, x as int) + seq![t[0]]);
        }
        x = x + 1;
    }
    proof {
        assert(take_until_ws(s@.subrange(x as int, b2 as int)) =~= Seq::<char>::empty());
        assert(s@.subrange(w as int, x as int) + Seq::<char>::empty() =~= s@.subrange(w as int, x as int));
    }
    trim_range(s, w, x, 2)
}

/// Adds the reference in `s[from..to]` to `out`, unless it is empty or
/// already there.
fn push_token(out: &mut Vec<String>, s: &Vec<char>, from: usize, to: usize)
    requires
        from <= to <= s@.len(),
    ensures
        match href_token(s@.subrange(from as int, to as int)) {
            None => final(out)@ == old(out)@,
            Some(t) => if str_views(old(out)@).contains(t) {
                final(out)@ == old(out)@
            } else {
                str_views(final(out)@) == str_views(old(out)@).push(t)
            },
        },
{
    let (a, b) = token_range(s, from, to);
    if a == b {
        return;
    }
    let t = sub_chars(s, a, b);
    assert(href_token(s@.subrange(from as int, to as int)) == Some(t@));
    let mut k: usize = 0;
    while k < out.len()
        invariant
            out@ == old(out)@,
            href_token(s@.subrange(from as int, to as int)) == Some(t@),
            k <= out@.len(),
            forall|j: int| 0 <= j < k ==> out@[j]@ != t@,
        decreases out@.len() - k,
    {
        if chars_eq(&chars_of(out[k].as_str()), &t) {
            proof {
                assert(str_views(out@)[k as int] == t@);
                assert(str_views(out@).contains(t@));
            }
            return;
        }
        k = k + 1;
    }
    let ghost before = out@;
    out.push(string_of(&t, 0, t.len()));
    proof {
        assert(t@.subrange(0, t@.len() as int) =~= t@);
        assert(!str_views(before).contains(t@)) by {
            if str_views(before).contains(t@) {
                let j = choose|j: int| 0 <= j < str_views(before).len() && str_views(before)[j] == t@;
                assert(before[j]@ == t@);
            }
        }
        assert(str_views(out@) =~= str_views(before).push(t@));
    }
}

/// Adds the reference that `raw` holds to `out`, unless it is empty or
/// already there.
pub fn push_href(out: &mut Vec<String>, raw: &str)
    ensures
        match href_token(raw@) {
            None => final(out)@ == old(out)@,
            Some(t) => if str_views(old(out)@).contains(t) {
                final(out)@ == old(out)@
            } else {
                str_views(final(out)@) == str_views(old(out)@).push(t)
            },
        },
{
    let cs = chars_of(raw);
    proof {
        assert(cs@.subrange(0, cs@.len() as int) =~= cs@);
    }
    push_token(out, &cs, 0, cs.len());
}

/// The targets of the markdown links `](…)` in `t` from index `i` on, in
/// order: what lies between `](` and the next `)`.
pub open spec fn md_links(t: Seq<char>, i: int) -> Seq<Seq<char>>
    decreases t.len() - i,
{
    if i < 0 || i + 1 >= t.len() {
        Seq::empty()
    } else if t[i] == ']' && t[i + 1] == '(' {
        match find_from(t, seq![')'], i + 2) {
            Some(j) => {
                proof {
                    lemma_find_from(t, seq![')'], i + 2);
                }
                seq![t.subrange(i + 2, j)] + md_links(t, j + 1)
            },
            None => md_links(t, i + 1),
        }
    } else {
        md_links(t, i + 1)
    }
}

/// The values of the attribute openings `needle` in `t` from index `from`
/// on, in order: what lies between the opening and the next `close`. The
/// search stops at an opening that is never closed.
pub open spec fn attr_values(t: Seq<char>, needle: Seq<char>, close: char, from: int) -> Seq<Seq<char>>
    decreases t.len() - from,
{
    if from < 0 {
        Seq::empty()
    } else {
        match find_from(t, needle, from) {
            None => Seq::empty(),
            Some(pos) => {
                let abs = pos + needle.len();
                match find_from(t, seq![close], abs) {
                    None => Seq::empty(),
                    Some(end) => {
                        proof {
                            lemma_find_from(t, needle, from);
                            lemma_find_from(t, seq![close], abs);
                        }
                        seq![t.subrange(abs, end)] + attr_values(t, needle, close, end + 1)
                    },
                }
            },
        }
    }
}

/// The lines of `t` (`str::lines`). A line's trailing carriage return is
/// left on: everything that reads a line trims it as White_Space.
pub open spec fn text_lines(t: Seq<char>) -> Seq<Seq<char>> {
    let segs = segments(t, '\n');
    if t.len() == 0 || t.last() == '\n' {
        segs.drop_last()
    } else {
        segs
    }
}

/// A line that is a bare reference to an asset: trimmed, with no space or
/// tab, not a heading, and naming something under `.assets/` or an
/// Excalidraw drawing.
pub open spec fn line_ref(line: Seq<char>) -> Option<Seq<char>> {
    let t = trimmed(line);
    if t.len() == 0 || starts_with(t, "#"@) || crate::chars::contains(t, " "@) || crate::chars::contains(t, "\t"@) {
        None
    } else if crate::chars::contains(t, ".assets/"@) || ends_with(t, ".excalidraw"@) {
        Some(t)
    } else {
        None
    }
}

/// The bare references among the first `n` lines.
pub open spec fn line_refs(lines: Seq<Seq<char>>, n: int) -> Seq<Seq<char>>
    decreases n,
{
    if n <= 0 {
        Seq::empty()
    } else {
        match line_ref(lines[n - 1]) {
            Some(t) => line_refs(lines, n - 1).push(t),
            None => line_refs(lines, n - 1),
        }
    }
}

/// The first occurrence of `pat` at or after `from` is at `i` when it
/// occurs there and nowhere between.
proof fn lemma_find_first(s: Seq<char>, pat: Seq<char>, from: int, i: int)
    requires
        0 <= from <= i,
        occurs_at(s, pat, i),
        forall|q: int| from <= q < i ==> !occurs_at(s, pat, q),
    ensures
        find_from(s, pat, from) == Some(i),
{
    crate::chars::lemma_find_from(s, pat, from);
}

/// The first value of the attribute opening `needle` (which ends with
/// `close` and holds it nowhere else) in `pre + needle + v + close + post`,
/// when neither `pre` nor `v` holds `close`, is `v`.
#[verifier::rlimit(40)]
proof fn lemma_attr_first_value(pre: Seq<char>, needle: Seq<char>, close: char, v: Seq<char>, post: Seq<char>)
    requires
        needle.len() > 0,
        needle.last() == close,
        forall|i: int| 0 <= i < needle.len() - 1 ==> needle[i] != close,
        !pre.contains(close),
        !v.contains(close),
    ensures
        ({
            let t = pre + needle + v + seq![close] + post;
            attr_values(t, needle, close, 0).len() > 0 && attr_values(t, needle, close, 0)[0] == v
        }),
{
    let t = pre + needle + v + seq![close] + post;
    let n = needle.len() as int;
    let at = pre.len() as int;
    let abs = at + n;
    let end = abs + v.len();
    assert(forall|q: int| 0 <= q < at ==> t[q] == pre[q]);
    assert(forall|q: int| at <= q < abs ==> t[q] == needle[q - at]);
    assert(forall|q: int| abs <= q < end ==> t[q] == v[q - abs]);
    assert(t[end] == close);
    assert(find_from(t, needle, 0) == Some(at)) by {
        assert(t.subrange(at, at + n) =~= needle);
        assert forall|q: int| 0 <= q < at implies !occurs_at(t, needle, q) by {
            if occurs_at(t, needle, q) {
                let e = q + n - 1;
                assert(t.subrange(q, q + n)[n - 1] == needle[n - 1]);
                if e < at {
                    assert(pre[e] == close);
                } else {
                    assert(needle[e - at] == close);
                }
            }
        }
        lemma_find_first(t, needle, 0, at);
    }
    assert(find_from(t, seq![close], abs) == Some(end)) by {
        assert(t.subrange(end, end + 1) =~= seq![close]);
        assert forall|q: int| abs <= q < end implies !occurs_at(t, seq![close], q) by {
            if occurs_at(t, seq![close], q) {
                assert(t.subrange(q, q + 1)[0] == close);
                assert(v[q - abs] == close);
            }
        }
        lemma_find_first(t, seq![close], abs, end);
    }
    assert(t.subrange(abs, end) =~= v);
}

/// Every value of a double-quoted `href` attribute is among the references
/// extracted from a document (as `extract_hrefs` states its output): an
/// asset that a document links with `<a href="...">` is referenced. This
/// holds of the first such attribute when no double quote comes before it.
pub proof fn lemma_href_attribute_extracted(pre: Seq<char>, v: Seq<char>, post: Seq<char>)
    requires
        !pre.contains('"'),
        !v.contains('"'),
    ensures
        ({
            let t = pre + "href=\""@ + v + "\""@ + post;
            href_token(v) matches Some(x) ==> exists|k: int|
                0 <= k < href_candidates(t).len() && href_token(#[trigger] href_candidates(t)[k]) == Some(x)
        }),
{
    reveal_strlit("href=\"");
    reveal_strlit("\"");
    let needle = "href=\""@;
    assert("\""@ =~= seq!['"']);
    let t = pre + needle + v + "\""@ + post;
    lemma_attr_first_value(pre, needle, '"', v, post);
    assert(t == pre + needle + v + seq!['"'] + post);
    let a = md_links(t, 0);
    let b = attr_values(t, "src=\""@, '"', 0);
    let c = attr_values(t, "src='"@, '\'', 0);
    let d = attr_values(t, needle, '"', 0);
    let k = a.len() + b.len() + c.len();
    assert(href_candidates(t)[k as int] == d[0]);
}

/// Text with no White_Space is its own first word.
proof fn lemma_take_until_ws_plain(v: Seq<char>)
    requires
        forall|i: int| 0 <= i < v.len() ==> !white_space(#[trigger] v[i]),
    ensures
        take_until_ws(v) == v,
    decreases v.len(),
{
    if v.len() > 0 {
        lemma_take_until_ws_plain(v.drop_first());
        assert(v =~= seq![v[0]] + v.drop_first());
    }
}

/// A plain reference (no White_Space, angle brackets or quotes) is its own
/// token.
pub proof fn lemma_plain_token(v: Seq<char>)
    requires
        v.len() > 0,
        forall|i: int|
            0 <= i < v.len() ==> !white_space(#[trigger] v[i]) && v[i] != '<' && v[i] != '>' && v[i] != '"'
                && v[i] != '\'',
    ensures
        href_token(v) == Some(v),
{
    assert(crate::chars::trim_start_by(v, ws_class()) == v);
    assert(crate::chars::trim_end_by(v, ws_class()) == v);
    assert(trimmed(v) == v);
    assert(crate::chars::trim_start_by(v, angle_class()) == v);
    assert(crate::chars::trim_end_by(v, angle_class()) == v);
    lemma_take_until_ws_plain(v);
    assert(first_word(v) == v);
    assert(crate::chars::trim_start_by(v, quote_class()) == v);
    assert(crate::chars::trim_end_by(v, quote_class()) == v);
}

/// An asset linked as `<a href="v">`, with a plain `v`, is referenced by
/// exactly that path: `v` is among the references extracted from the text.
pub proof fn lemma_href_value_extracted(pre: Seq<char>, v: Seq<char>, post: Seq<char>)
    requires
        !pre.contains('"'),
        v.len() > 0,
        forall|i: int|
            0 <= i < v.len() ==> !white_space(#[trigger] v[i]) && v[i] != '<' && v[i] != '>' && v[i] != '"'
                && v[i] != '\'',
    ensures
        ({
            let t = pre + "href=\""@ + v + "\""@ + post;
            exists|k: int| 0 <= k < href_candidates(t).len() && href_token(#[trigger] href_candidates(t)[k]) == Some(v)
        }),
{
    lemma_plain_token(v);
    if v.contains('"') {
        let i = choose|i: int| 0 <= i < v.len() && v[i] == '"';
        assert(v[i] != '"');
    }
    lemma_href_attribute_extracted(pre, v, post);
}

/// Every value of a double-quoted `src` attribute is among the references
/// extracted from a document (an image `<img src="...">` references its
/// asset). This holds of the first such attribute when no double quote
/// comes before it.
pub proof fn lemma_src_attribute_extracted(pre: Seq<char>, v: Seq<char>, post: Seq<char>)
    requires
        !pre.contains('"'),
        !v.contains('"'),
    ensures
        ({
            let t = pre + "src=\""@ + v + "\""@ + post;
            href_token(v) matches Some(x) ==> exists|k: int|
                0 <= k < href_candidates(t).len() && href_token(#[trigger] href_candidates(t)[k]) == Some(x)
        }),
{
    reveal_strlit("src=\"");
    reveal_strlit("\"");
    let needle = "src=\""@;
    assert("\""@ =~= seq!['"']);
    let t = pre + needle + v + "\""@ + post;
    lemma_attr_first_value(pre, needle, '"', v, post);
    assert(t == pre + needle + v + seq!['"'] + post);
    let a = md_links(t, 0);
    let b = attr_values(t, needle, '"', 0);
    assert(href_candidates(t)[a.len() as int] == b[0]);
}

/// Markdown link scanning passes over text without `]`.
proof fn lemma_md_links_skip(t: Seq<char>, i: int, j: int)
    requires
        0 <= i <= j,
        j + 1 < t.len(),
        forall|q: int| i <= q < j ==> t[q] != ']',
    ensures
        md_links(t, i) == md_links(t, j),
    decreases j - i,
{
    if i < j {
        lemma_md_links_skip(t, i + 1, j);
    }
}

/// Every markdown link target `](v)` is among the references extracted
/// from a document (`![](.assets/a.png)` references its asset). This holds
/// of the first link when no `]` comes before it.
pub proof fn lemma_markdown_link_extracted(pre: Seq<char>, v: Seq<char>, post: Seq<char>)
    requires
        !pre.contains(']'),
        !v.contains(')'),
    ensures
        ({
            let t = pre + "]("@ + v + ")"@ + post;
            href_token(v) matches Some(x) ==> exists|k: int|
                0 <= k < href_candidates(t).len() && href_token(#[trigger] href_candidates(t)[k]) == Some(x)
        }),
{
    reveal_strlit("](");
    reveal_strlit(")");
    let t = pre + "]("@ + v + ")"@ + post;
    let at = pre.len() as int;
    let end = at + 2 + v.len();
    assert(forall|q: int| 0 <= q < at ==> t[q] == pre[q]);
    assert(t[at] == ']' && t[at + 1] == '(');
    assert(forall|q: int| at + 2 <= q < end ==> t[q] == v[q - at - 2]);
    assert(t[end] == ')');
    assert forall|q: int| 0 <= q < at implies t[q] != ']' by {
        if t[q] == ']' {
            assert(pre[q] == ']');
        }
    }
    lemma_md_links_skip(t, 0, at);
    assert(find_from(t, seq![')'], at + 2) == Some(end)) by {
        assert(t.subrange(end, end + 1) =~= seq![')']);
        assert forall|q: int| at + 2 <= q < end implies !occurs_at(t, seq![')'], q) by {
            if occurs_at(t, seq![')'], q) {
                assert(t.subrange(q, q + 1)[0] == ')');
                assert(v[q - at - 2] == ')');
            }
        }
        lemma_find_first(t, seq![')'], at + 2, end);
    }
    assert(t.subrange(at + 2, end) =~= v);
    assert(md_links(t, 0)[0] == v);
    assert(href_candidates(t)[0] == v);
}

/// Every raw reference a document text holds, in the order they are
/// gathered: markdown link targets, then `src`/`href` attribute values for
/// each quoting, then bare reference lines.
pub open spec fn href_candidates(t: Seq<char>) -> Seq<Seq<char>> {
    md_links(t, 0) + attr_values(t, "src=\""@, '"', 0) + attr_values(t, "src='"@, '\'', 0) + attr_values(
        t,
        "href=\""@,
        '"',
        0,
    ) + attr_values(t, "href='"@, '\'', 0) + attr_values(t, "SRC=\""@, '"', 0) + attr_values(
        t,
        "HREF=\""@,
        '"',
        0,
    ) + line_refs(text_lines(t), text_lines(t).len() as int)
}

fn one_char(c: char) -> (v: Vec<char>)
    ensures
        v@ == seq![c],
{
    let mut v: Vec<char> = Vec::new();
    v.push(c);
    v
}

fn md_link_targets(t: &Vec<char>) -> (r: Vec<Vec<char>>)
    ensures
        views(r@) == md_links(t@, 0),
{
    let n = t.len();
    let close = one_char(')');
    let mut r: Vec<Vec<char>> = Vec::new();
    let mut i: usize = 0;
    while i < n && i + 1 < n
        invariant
            n == t@.len(),
            close@ == seq![')'],
            i <= n,
            md_links(t@, 0) == views(r@) + md_links(t@, i as int),
        decreases n - i,
    {
        if t[i] == ']' && t[i + 1] == '(' {
            match find_chars(t, &close, i + 2) {
                Some(j) => {
                    proof {
                        lemma_find_from(t@, seq![')'], i + 2);
                    }
                    let piece = sub_chars(t, i + 2, j);
                    let ghost before = views(r@);
                    proof {
                        crate::chars::lemma_views_push(r@, piece);
                    }
                    r.push(piece);
                    proof {
                        assert(md_links(t@, 0) == views(r@) + md_links(t@, j + 1)) by {
                            assert(before + (seq![t@.subrange(i + 2, j as int)] + md_links(t@, j + 1)) =~= before.push(
                                t@.subrange(i + 2, j as int),
                            ) + md_links(t@, j + 1));
                        }
                    }
                    i = j + 1;
                    continue;
                },
                None => {},
            }
        }
        i = i + 1;
    }
    proof {
        assert(views(r@) + Seq::<Seq<char>>::empty() =~= views(r@));
    }
    r
}

fn attr_targets(t: &Vec<char>, needle: &str, close: char) -> (r: Vec<Vec<char>>)
    ensures
        views(r@) == attr_values(t@, needle@, close, 0),
{
    let nd = chars_of(needle);
    let cl = one_char(close);
    let n = t.len();
    let mut r: Vec<Vec<char>> = Vec::new();
    let mut from: usize = 0;
    while from <= n
        invariant
            n == t@.len(),
            nd@ == needle@,
            cl@ == seq![close],
            attr_values(t@, needle@, close, 0) == views(r@) + attr_values(t@, needle@, close, from as int),
        ensures
            attr_values(t@, needle@, close, 0) == views(r@),
        decreases n + 1 - from,
    {
        proof {
            lemma_find_from(t@, needle@, from as int);
        }
        let pos = match find_chars(t, &nd, from) {
            None => {
                proof {
                    assert(views(r@) + Seq::<Seq<char>>::empty() =~= views(r@));
                }
                break;
            },
            Some(p) => p,
        };
        let abs = pos + nd.len();
        proof {
            lemma_find_from(t@, seq![close], abs as int);
        }
        let end = match find_chars(t, &cl, abs) {
            None => {
                proof {
                    assert(views(r@) + Seq::<Seq<char>>::empty() =~= views(r@));
                }
                break;
            },
            Some(e) => e,
        };
        let piece = sub_chars(t, abs, end);
        let ghost before = views(r@);
        proof {
            crate::chars::lemma_views_push(r@, piece);
        }
        r.push(piece);
        proof {
            assert(before + (seq![t@.subrange(abs as int, end as int)] + attr_values(t@, needle@, close, end + 1))
                =~= before.push(t@.subrange(abs as int, end as int)) + attr_values(t@, needle@, close, end + 1));
        }
        from = end + 1;
        proof {
            if from > n {
                lemma_find_from(t@, needle@, from as int);
                assert(attr_values(t@, needle@, close, from as int) =~= Seq::<Seq<char>>::empty());
                assert(views(r@) + Seq::<Seq<char>>::empty() =~= views(r@));
            }
        }
    }
    r
}

/// The bare reference `line` holds, if any.
fn line_reference(line: &Vec<char>) -> (r: Option<(usize, usize)>)
    ensures
        match line_ref(line@) {
            None => r is None,
            Some(t) => r matches Some(p) && p.0 <= p.1 <= line@.len() && line@.subrange(p.0 as int, p.1 as int) == t,
        },
{
    let (a, b) = trim_range(line, 0, line.len(), 0);
    proof {
        assert(line@.subrange(0, line@.len() as int) =~= line@);
    }
    let t = sub_chars(line, a, b);
    if t.len() == 0 || chars_start_with(&t, &lit("#")) || chars_contain(&t, &lit(" ")) || chars_contain(
        &t,
        &lit("\t"),
    ) {
        return None;
    }
    if chars_contain(&t, &lit(".assets/")) || chars_end_with(&t, &lit(".excalidraw")) {
        Some((a, b))
    } else {
        None
    }
}

fn bare_reference_lines(text: &Vec<char>) -> (r: Vec<Vec<char>>)
    ensures
        views(r@) == line_refs(text_lines(text@), text_lines(text@).len() as int),
{
    let n = text.len();
    let mut lines = split_chars(text, 0, n, '\n');
    proof {
        assert(text@.subrange(0, n as int) =~= text@);
        lemma_segments_nonempty(text@, '\n');
    }
    if n == 0 || text[n - 1] == '\n' {
        let ghost before = lines@;
        lines.pop();
        proof {
            assert(views(lines@) =~= views(before).drop_last());
        }
    }
    let ghost ls = views(lines@);
    assert(ls == text_lines(text@));
    let mut r: Vec<Vec<char>> = Vec::new();
    let mut k: usize = 0;
    while k < lines.len()
        invariant
            ls == views(lines@),
            k <= lines@.len(),
            views(r@) == line_refs(ls, k as int),
        decreases lines@.len() - k,
    {
        proof {
            assert(ls[k as int] == lines@[k as int]@);
        }
        match line_reference(&lines[k]) {
            None => {},
            Some((a, b)) => {
                let piece = sub_chars(&lines[k], a, b);
                proof {
                    crate::chars::lemma_views_push(r@, piece);
                }
                r.push(piece);
            },
        }
        k = k + 1;
    }
    r
}

fn append_all(a: &mut Vec<Vec<char>>, b: Vec<Vec<char>>)
    ensures
        views(final(a)@) == views(old(a)@) + views(b@),
{
    let mut b = b;
    let ghost bv = b@;
    a.append(&mut b);
    proof {
        crate::chars::lemma_views_add(old(a)@, bv);
    }
}

/// The references a document text makes, each once, in the order first
/// met.
pub fn extract_hrefs(text: &str) -> (out: Vec<String>)
    ensures
        str_views(out@).no_duplicates(),
        forall|x: Seq<char>|
            str_views(out@).contains(x) <==> exists|k: int|
                0 <= k < href_candidates(text@).len() && href_token(#[trigger] href_candidates(text@)[k]) == Some(x),
{
    let t = chars_of(text);
    let mut cands = md_link_targets(&t);
    append_all(&mut cands, attr_targets(&t, "src=\"", '"'));
    append_all(&mut cands, attr_targets(&t, "src='", '\''));
    append_all(&mut cands, attr_targets(&t, "href=\"", '"'));
    append_all(&mut cands, attr_targets(&t, "href='", '\''));
    append_all(&mut cands, attr_targets(&t, "SRC=\"", '"'));
    append_all(&mut cands, attr_targets(&t, "HREF=\"", '"'));
    append_all(&mut cands, bare_reference_lines(&t));
    let ghost cs = views(cands@);
    assert(cs == href_candidates(text@));
    let mut out: Vec<String> = Vec::new();
    let mut k: usize = 0;
    while k < cands.len()
        invariant
            cs == views(cands@),
            k <= cands@.len(),
            str_views(out@).no_duplicates(),
            forall|x: Seq<char>|
                str_views(out@).contains(x) <==> exists|j: int| 0 <= j < k && href_token(#[trigger] cs[j]) == Some(x),
        decreases cands@.len() - k,
    {
        let ghost before = out@;
        proof {
            assert(cands@[k as int]@.subrange(0, cands@[k as int]@.len() as int) =~= cands@[k as int]@);
            assert(cs[k as int] == cands@[k as int]@);
        }
        push_token(&mut out, &cands[k], 0, cands[k].len());
        proof {
            assert forall|x: Seq<char>|
                str_views(out@).contains(x) <==> exists|j: int| 0 <= j < k + 1 && href_token(#[trigger] cs[j]) == Some(x) by {
                if str_views(out@).contains(x) && !str_views(before).contains(x) {
                    assert(href_token(cs[k as int]) == Some(x)) by {
                        let i = choose|i: int| 0 <= i < str_views(out@).len() && str_views(out@)[i] == x;
                    }
                }
                if exists|j: int| 0 <= j < k + 1 && href_token(#[trigger] cs[j]) == Some(x) {
                    let j = choose|j: int| 0 <= j < k + 1 && href_token(#[trigger] cs[j]) == Some(x);
                    if j == k {
                        if !str_views(before).contains(x) {
                            assert(str_views(out@)[str_views(before).len() as int] == x);
                        }
                    }
                }
                if str_views(before).contains(x) && out@ != before {
                    let i = choose|i: int| 0 <= i < str_views(before).len() && str_views(before)[i] == x;
                    assert(str_views(out@)[i] == x);
                }
            }
            if out@ != before {
                let t = href_token(cs[k as int])->Some_0;
                assert(str_views(out@).no_duplicates()) by {
                    assert forall|a: int, b: int| 0 <= a < str_views(out@).len() && 0 <= b < str_views(out@).len() && a != b implies str_views(out@)[a] != str_views(out@)[b] by {
                        if a == str_views(before).len() {
                            assert(str_views(before)[b] == str_views(out@)[b]);
                        } else if b == str_views(before).len() {
                            assert(str_views(before)[a] == str_views(out@)[a]);
                        } else {
                            assert(str_views(before)[a] == str_views(out@)[a]);
                            assert(str_views(before)[b] == str_views(out@)[b]);
                        }
                    }
                }
            }
        }
        k = k + 1;
    }
    out
}

// ---------------------------------------------------------------------------
// Orphan assets.

/// The last `/`-separated piece of `p` (`rsplit('/').next()`).
pub open spec fn basename(p: Seq<char>) -> Seq<char>
    decreases p.len(),
{
    if p.len() == 0 || p.last() == '/' {
        Seq::empty()
    } else {
        basename(p.drop_last()).push(p.last())
    }
}

fn basename_of(p: &Vec<char>) -> (r: Vec<char>)
    ensures
        r@ == basename(p@),
{
    let mut s = p.len();
    assert(p@.subrange(0, p@.len() as int) =~= p@);
    while s > 0 && p[s - 1] != '/'
        invariant
            s <= p@.len(),
            basename(p@) == basename(p@.subrange(0, s as int)) + p@.subrange(s as int, p@.len() as int),
        decreases s,
    {
        proof {
            let q = p@.subrange(0, s as int);
            assert(q.drop_last() =~= p@.subrange(0, s - 1));
            assert(basename(q) == basename(q.drop_last()).push(q.last()));
            assert(p@.subrange(s - 1, p@.len() as int) =~= seq![q.last()] + p@.subrange(s as int, p@.len() as int));
            assert(basename(q) + p@.subrange(s as int, p@.len() as int) =~= basename(q.drop_last())
                + p@.subrange(s - 1, p@.len() as int));
        }
        s = s - 1;
    }
    proof {
        assert(basename(p@.subrange(0, s as int)) =~= Seq::<char>::empty());
        assert(Seq::<char>::empty() + p@.subrange(s as int, p@.len() as int) =~= p@.subrange(s as int, p@.len() as int));
    }
    sub_chars(p, s, p.len())
}

/// The indices among the first `n` of `paths` whose basename is `b`.
pub open spec fn base_matches(paths: Seq<Seq<char>>, b: Seq<char>, n: int) -> Seq<int>
    decreases n,
{
    if n <= 0 {
        Seq::empty()
    } else if basename(paths[n - 1]) == b {
        base_matches(paths, b, n - 1).push(n - 1)
    } else {
        base_matches(paths, b, n - 1)
    }
}

/// The one asset path whose basename is `b`, when exactly one has it.
pub open spec fn sole_with_base(paths: Seq<Seq<char>>, b: Seq<char>) -> Option<Seq<char>> {
    let m = base_matches(paths, b, paths.len() as int);
    if m.len() == 1 {
        Some(paths[m[0]])
    } else {
        None
    }
}

proof fn lemma_base_matches_bounds(paths: Seq<Seq<char>>, b: Seq<char>, n: int)
    requires
        0 <= n <= paths.len(),
    ensures
        forall|k: int|
            0 <= k < base_matches(paths, b, n).len() ==> 0 <= #[trigger] base_matches(paths, b, n)[k] < n
                && basename(paths[base_matches(paths, b, n)[k]]) == b,
    decreases n,
{
    if n > 0 {
        lemma_base_matches_bounds(paths, b, n - 1);
        let prev = base_matches(paths, b, n - 1);
        assert forall|k: int| 0 <= k < base_matches(paths, b, n).len() implies 0 <= #[trigger] base_matches(paths, b, n)[k] < n
            && basename(paths[base_matches(paths, b, n)[k]]) == b by {
            if k < prev.len() {
                assert(base_matches(paths, b, n)[k] == prev[k]);
            }
        }
    }
}

/// Every index whose basename is `b` is among the matches.
proof fn lemma_base_matches_member(paths: Seq<Seq<char>>, b: Seq<char>, n: int, i: int)
    requires
        0 <= i < n <= paths.len(),
        basename(paths[i]) == b,
    ensures
        base_matches(paths, b, n).contains(i),
    decreases n,
{
    if i < n - 1 {
        lemma_base_matches_member(paths, b, n - 1, i);
        let prev = base_matches(paths, b, n - 1);
        let k = choose|k: int| 0 <= k < prev.len() && prev[k] == i;
        if basename(paths[n - 1]) == b {
            assert(base_matches(paths, b, n)[k] == i);
        }
    } else {
        assert(base_matches(paths, b, n).last() == i);
    }
}

fn sole_index_with_base(paths: &Vec<Vec<char>>, b: &Vec<char>) -> (r: Option<usize>)
    ensures
        match sole_with_base(views(paths@), b@) {
            None => r is None,
            Some(p) => r matches Some(i) && i < paths@.len() && paths@[i as int]@ == p && i == base_matches(
                views(paths@),
                b@,
                paths@.len() as int,
            )[0],
        },
{
    let ghost pv = views(paths@);
    let mut count: usize = 0;
    let mut last: usize = 0;
    let mut k: usize = 0;
    while k < paths.len()
        invariant
            pv == views(paths@),
            k <= paths@.len(),
            count == base_matches(pv, b@, k as int).len() || (count == 2 && base_matches(pv, b@, k as int).len() >= 2),
            count <= 2,
            count >= 1 ==> last < k && last == base_matches(pv, b@, k as int).last(),
        decreases paths@.len() - k,
    {
        let bk = basename_of(&paths[k]);
        proof {
            assert(pv[k as int] == paths@[k as int]@);
        }
        if chars_eq(&bk, b) {
            if count < 2 {
                count = count + 1;
            }
            last = k;
        }
        k = k + 1;
    }
    proof {
        lemma_base_matches_bounds(pv, b@, pv.len() as int);
    }
    if count == 1 {
        Some(last)
    } else {
        None
    }
}

/// `h` is one of the references `text` makes.
pub open spec fn is_href_of(text: Seq<char>, h: Seq<char>) -> bool {
    exists|k: int| 0 <= k < href_candidates(text).len() && href_token(#[trigger] href_candidates(text)[k]) == Some(h)
}

/// The document at `note` with text `text` refers to the asset at `a`:
/// through a reference that resolves to it, through a reference whose
/// basename no other asset has, or by spelling out its path.
pub open spec fn doc_refers(note: Seq<char>, text: Seq<char>, paths: Seq<Seq<char>>, a: Seq<char>) -> bool {
    ||| exists|h: Seq<char>| #[trigger] is_href_of(text, h) && resolved_href(note, h) == Some(a) && paths.contains(a)
    ||| exists|h: Seq<char>| #[trigger] is_href_of(text, h) && sole_with_base(paths, basename(h)) == Some(a)
    ||| crate::chars::contains(text, a)
}

/// Marks the assets that one document refers to.
fn mark_doc(refd: &mut Vec<bool>, paths: &Vec<Vec<char>>, note: &str, text: &str)
    requires
        old(refd)@.len() == paths@.len(),
    ensures
        final(refd)@.len() == old(refd)@.len(),
        forall|i: int|
            0 <= i < paths@.len() ==> #[trigger] final(refd)@[i] == (old(refd)@[i] || doc_refers(
                note@,
                text@,
                views(paths@),
                paths@[i]@,
            )),
{
    let ghost pv = views(paths@);
    let hrefs = extract_hrefs(text);
    let np = paths.len();
    let mut j: usize = 0;
    while j < hrefs.len()
        invariant
            pv == views(paths@),
            np == paths@.len(),
            refd@.len() == np,
            old(refd)@.len() == np,
            j <= hrefs@.len(),
            forall|x: Seq<char>|
                str_views(hrefs@).contains(x) <==> #[trigger] is_href_of(text@, x),
            forall|i: int|
                0 <= i < np ==> #[trigger] refd@[i] == (old(refd)@[i] || exists|jj: int|
                    0 <= jj < j && ((resolved_href(note@, hrefs@[jj]@) == Some(pv[i]) && pv.contains(pv[i]))
                        || sole_with_base(pv, basename(hrefs@[jj]@)) == Some(pv[i]))),
        decreases hrefs@.len() - j,
    {
        let ghost before = refd@;
        let h = &hrefs[j];
        let resolved = resolve_href(note, h.as_str());
        let hc = chars_of(h.as_str());
        let base = basename_of(&hc);
        let sole = sole_index_with_base(paths, &base);
        let rc: Vec<char> = match &resolved {
            Some(r) => chars_of(r.as_str()),
            None => Vec::new(),
        };
        let mut i: usize = 0;
        while i < np
            invariant
                pv == views(paths@),
                np == paths@.len(),
                refd@.len() == np,
                before.len() == np,
                i <= np,
                resolved is Some ==> rc@ == opt_text(resolved)->Some_0,
                forall|k: int| i <= k < np ==> refd@[k] == before[k],
                forall|k: int|
                    0 <= k < i ==> #[trigger] refd@[k] == (before[k] || (resolved is Some && pv[k] == rc@)
                        || (sole matches Some(si) && si == k)),
            decreases np - i,
        {
            let hit_resolved = resolved.is_some() && chars_eq(&paths[i], &rc);
            let hit_sole = match sole {
                Some(si) => si == i,
                None => false,
            };
            if hit_resolved || hit_sole {
                refd.set(i, true);
            }
            proof {
                assert(pv[i as int] == paths@[i as int]@);
            }
            i = i + 1;
        }
        proof {
            assert forall|k: int|
                0 <= k < np implies #[trigger] refd@[k] == (old(refd)@[k] || exists|jj: int|
                    0 <= jj < j + 1 && ((resolved_href(note@, hrefs@[jj]@) == Some(pv[k]) && pv.contains(pv[k]))
                        || sole_with_base(pv, basename(hrefs@[jj]@)) == Some(pv[k]))) by {
                let hj = hrefs@[j as int]@;
                assert(h@ == hj);
                assert(pv.contains(pv[k])) by {
                    assert(pv[k] == pv[k]);
                }
                assert((resolved is Some && pv[k] == rc@) == (resolved_href(note@, hj) == Some(pv[k])));
                if sole_with_base(pv, basename(hj)) == Some(pv[k]) {
                    let si = sole->Some_0;
                    assert(pv[si as int] == pv[k]);
                    let m = base_matches(pv, basename(hj), pv.len() as int);
                    lemma_base_matches_bounds(pv, basename(hj), pv.len() as int);
                    assert(m[0] == si);
                    assert(basename(pv[k]) == basename(hj));
                    lemma_base_matches_member(pv, basename(hj), pv.len() as int, k);
                    let q = choose|q: int| 0 <= q < m.len() && m[q] == k;
                    assert(q == 0);
                }
                if sole matches Some(si) && si == k {
                    assert(sole_with_base(pv, basename(hj)) == Some(pv[k]));
                }
                if refd@[k] && !before[k] {
                    assert(0 <= j < j + 1);
                }
            }
        }
        j = j + 1;
    }
    let tc = chars_of(text);
    let mut i: usize = 0;
    let ghost mid = refd@;
    while i < np
        invariant
            pv == views(paths@),
            np == paths@.len(),
            refd@.len() == np,
            mid.len() == np,
            tc@ == text@,
            i <= np,
            forall|k: int| i <= k < np ==> refd@[k] == mid[k],
            forall|k: int| 0 <= k < i ==> #[trigger] refd@[k] == (mid[k] || crate::chars::contains(text@, pv[k])),
        decreases np - i,
    {
        if crate::chars::chars_contain(&tc, &paths[i]) {
            refd.set(i, true);
        }
        proof {
            assert(pv[i as int] == paths@[i as int]@);
        }
        i = i + 1;
    }
    proof {
        assert forall|i: int|
            0 <= i < paths@.len() implies #[trigger] refd@[i] == (old(refd)@[i] || doc_refers(
                note@,
                text@,
                pv,
                paths@[i]@,
            )) by {
            assert(pv[i] == paths@[i]@);
            let a = pv[i];
            if exists|jj: int|
                0 <= jj < hrefs@.len() && ((resolved_href(note@, hrefs@[jj]@) == Some(a) && pv.contains(a))
                    || sole_with_base(pv, basename(hrefs@[jj]@)) == Some(a)) {
                let jj = choose|jj: int|
                    0 <= jj < hrefs@.len() && ((resolved_href(note@, hrefs@[jj]@) == Some(a) && pv.contains(a))
                        || sole_with_base(pv, basename(hrefs@[jj]@)) == Some(a));
                assert(str_views(hrefs@)[jj] == hrefs@[jj]@);
                assert(str_views(hrefs@).contains(hrefs@[jj]@));
                assert(is_href_of(text@, hrefs@[jj]@));
            }
            if exists|h: Seq<char>| #[trigger] is_href_of(text@, h) && resolved_href(note@, h) == Some(a) && pv.contains(a) {
                let h = choose|h: Seq<char>| #[trigger] is_href_of(text@, h) && resolved_href(note@, h) == Some(a) && pv.contains(a);
                assert(str_views(hrefs@).contains(h));
                let jj = choose|jj: int| 0 <= jj < str_views(hrefs@).len() && str_views(hrefs@)[jj] == h;
                assert(hrefs@[jj]@ == h);
            }
            if exists|h: Seq<char>| #[trigger] is_href_of(text@, h) && sole_with_base(pv, basename(h)) == Some(a) {
                let h = choose|h: Seq<char>| #[trigger] is_href_of(text@, h) && sole_with_base(pv, basename(h)) == Some(a);
                assert(str_views(hrefs@).contains(h));
                let jj = choose|jj: int| 0 <= jj < str_views(hrefs@).len() && str_views(hrefs@)[jj] == h;
                assert(hrefs@[jj]@ == h);
            }
        }
    }
}

/// The documents by their views: path, and text where one was read.
pub open spec fn docs_view(docs: Seq<(String, Option<String>)>) -> Seq<(Seq<char>, Option<Seq<char>>)> {
    Seq::new(docs.len(), |i: int| (docs[i].0@, opt_text(docs[i].1)))
}

/// The asset paths of a list of asset records.
pub open spec fn asset_paths(assets: Seq<FileInfo>) -> Seq<Seq<char>> {
    Seq::new(assets.len(), |i: int| assets[i].name@)
}

/// Some document that was read refers to the asset path `a`.
pub open spec fn referenced(docs: Seq<(Seq<char>, Option<Seq<char>>)>, paths: Seq<Seq<char>>, a: Seq<char>) -> bool {
    exists|d: int|
        0 <= d < docs.len() && docs[d].1 is Some && #[trigger] doc_refers(docs[d].0, docs[d].1->Some_0, paths, a)
}

/// The assets among the first `n` that no document refers to, in order.
pub open spec fn unreferenced(
    assets: Seq<FileInfo>,
    docs: Seq<(Seq<char>, Option<Seq<char>>)>,
    n: int,
) -> Seq<FileInfo>
    decreases n,
{
    if n <= 0 {
        Seq::empty()
    } else if referenced(docs, asset_paths(assets), assets[n - 1].name@) {
        unreferenced(assets, docs, n - 1)
    } else {
        unreferenced(assets, docs, n - 1).push(assets[n - 1])
    }
}

/// No asset that some document refers to is left among the unreferenced.
proof fn lemma_unreferenced_names(
    assets: Seq<FileInfo>,
    docs: Seq<(Seq<char>, Option<Seq<char>>)>,
    n: int,
)
    requires
        n <= assets.len(),
    ensures
        forall|k: int|
            0 <= k < unreferenced(assets, docs, n).len() ==> !referenced(
                docs,
                asset_paths(assets),
                #[trigger] unreferenced(assets, docs, n)[k].name@,
            ),
    decreases n,
{
    if n > 0 {
        lemma_unreferenced_names(assets, docs, n - 1);
        let prev = unreferenced(assets, docs, n - 1);
        let cur = unreferenced(assets, docs, n);
        assert forall|k: int| 0 <= k < cur.len() implies !referenced(
            docs,
            asset_paths(assets),
            #[trigger] cur[k].name@,
        ) by {
            if k < prev.len() {
                assert(cur[k] == prev[k]);
            }
        }
    }
}

/// An asset that a scanned document links, by a reference that resolves
/// to its path from the document's directory, is not orphan; neither is
/// one whose full path the document's text spells out.
pub proof fn lemma_referenced_asset_not_orphan(
    assets: Seq<FileInfo>,
    docs: Seq<(Seq<char>, Option<Seq<char>>)>,
    i: int,
    d: int,
)
    requires
        0 <= i < assets.len(),
        0 <= d < docs.len(),
        docs[d].1 is Some,
        (exists|h: Seq<char>| #[trigger] is_href_of(docs[d].1->Some_0, h) && resolved_href(docs[d].0, h)
            == Some(assets[i].name@)) || crate::chars::contains(docs[d].1->Some_0, assets[i].name@),
    ensures
        forall|k: int|
            0 <= k < unreferenced(assets, docs, assets.len() as int).len() ==> (#[trigger] unreferenced(
                assets,
                docs,
                assets.len() as int,
            )[k]).name@ != assets[i].name@,
{
    let paths = asset_paths(assets);
    assert(paths[i] == assets[i].name@);
    assert(paths.contains(assets[i].name@));
    assert(doc_refers(docs[d].0, docs[d].1->Some_0, paths, assets[i].name@));
    assert(referenced(docs, paths, assets[i].name@));
    lemma_unreferenced_names(assets, docs, assets.len() as int);
}

/// `v` is in order of name.
pub open spec fn sorted_by_name(v: Seq<FileInfo>) -> bool {
    forall|a: int, b: int|
        #![trigger v[a], v[b]]
        0 <= a < b < v.len() ==> !lex_lt(encode_utf8(v[b].name@), encode_utf8(v[a].name@))
}

/// Order by name, as a relation.
pub open spec fn name_order() -> spec_fn(FileInfo, FileInfo) -> bool {
    |a: FileInfo, b: FileInfo| lex_lt(encode_utf8(a.name@), encode_utf8(b.name@))
}

/// Puts records in order of name; records of the same name keep their
/// order.
pub fn sort_by_name(entries: Vec<FileInfo>) -> (r: Vec<FileInfo>)
    ensures
        r@.to_multiset() == entries@.to_multiset(),
        sorted_by_name(r@),
        stably_sorted(entries@, r@, name_order()),
{
    broadcast use vstd::seq_lib::group_to_multiset_ensures;

    let ghost all = entries@;
    let mut input = entries;
    let mut out: Vec<FileInfo> = Vec::new();
    let ghost mut p: Seq<int> = Seq::empty();
    while input.len() > 0
        invariant
            out@.to_multiset().add(input@.to_multiset()) == all.to_multiset(),
            sorted_by_name(out@),
            input@.len() <= all.len(),
            input@ == all.take(input@.len() as int),
            p.len() == out@.len(),
            out@.len() + input@.len() == all.len(),
            forall|i: int| #![trigger p[i]] 0 <= i < p.len() ==> input@.len() <= p[i] < all.len() && out@[i] == all[p[i]],
            forall|i: int, j: int| #![trigger p[i], p[j]] 0 <= i < j < p.len() ==> p[i] != p[j],
            forall|i: int, j: int|
                #![trigger out@[i], out@[j]]
                0 <= i < j < out@.len() && !lex_lt(encode_utf8(out@[i].name@), encode_utf8(out@[j].name@))
                    ==> p[i] < p[j],
        decreases input@.len(),
    {
        let ghost before_in = input@;
        let x = input.pop().unwrap();
        let ghost m = input@.len() as int;
        proof {
            assert(before_in =~= input@.push(x));
            assert(input@ =~= all.take(m));
            assert(x == all[m]);
        }
        let mut pos: usize = 0;
        while pos < out.len() && bytes_lt(out[pos].name.as_str().as_bytes(), x.name.as_str().as_bytes())
            invariant
                pos <= out@.len(),
                forall|k: int| 0 <= k < pos ==> lex_lt(encode_utf8(#[trigger] out@[k].name@), encode_utf8(x.name@)),
            decreases out@.len() - pos,
        {
            pos = pos + 1;
        }
        let ghost old_out = out@;
        let ghost old_p = p;
        proof {
            old_out.insert_ensures(pos as int, x);
        }
        out.insert(pos, x);
        proof {
            p = old_p.insert(pos as int, m);
            assert forall|i: int| #![trigger p[i]] 0 <= i < p.len() implies input@.len() <= p[i] < all.len() && out@[i] == all[p[i]] by {
                if i < pos {
                    assert(p[i] == old_p[i]);
                } else if i > pos {
                    assert(p[i] == old_p[i - 1]);
                }
            }
            assert forall|i: int, j: int| #![trigger p[i], p[j]] 0 <= i < j < p.len() implies p[i] != p[j] by {
                let i0 = if i < pos { i } else { i - 1 };
                let j0 = if j < pos { j } else { j - 1 };
                if i != pos && j != pos {
                    assert(p[i] == old_p[i0]);
                    assert(p[j] == old_p[j0]);
                } else if i == pos {
                    assert(p[j] == old_p[j0]);
                } else {
                    assert(p[i] == old_p[i0]);
                }
            }
            assert forall|i: int, j: int|
                #![trigger out@[i], out@[j]]
                0 <= i < j < out@.len() && !lex_lt(encode_utf8(out@[i].name@), encode_utf8(out@[j].name@))
                    implies p[i] < p[j] by {
                let i0 = if i < pos { i } else { i - 1 };
                let j0 = if j < pos { j } else { j - 1 };
                if i != pos && j != pos {
                    assert(p[i] == old_p[i0]);
                    assert(p[j] == old_p[j0]);
                    assert(out@[i] == old_out[i0]);
                    assert(out@[j] == old_out[j0]);
                } else if i == pos {
                    assert(p[j] == old_p[j0]);
                } else {
                    assert(out@[i] == old_out[i]);
                }
            }
            let xn = encode_utf8(x.name@);
            assert forall|a: int, b: int| #![trigger out@[a], out@[b]] 0 <= a < b < out@.len() implies !lex_lt(
                encode_utf8(out@[b].name@),
                encode_utf8(out@[a].name@),
            ) by {
                if b == pos {
                    assert(out@[a] == old_out[a]);
                    crate::lex::lemma_lex_total(encode_utf8(old_out[a].name@), xn);
                } else if a == pos {
                    assert(out@[b] == old_out[b - 1]);
                    let p0 = encode_utf8(old_out[pos as int].name@);
                    let pb = encode_utf8(old_out[b - 1].name@);
                    crate::lex::lemma_lex_total(p0, xn);
                    crate::lex::lemma_lex_total(pb, xn);
                    crate::lex::lemma_lex_irreflexive(xn);
                    if lex_lt(pb, xn) {
                        if b - 1 > pos {
                            assert(!lex_lt(pb, p0));
                            crate::lex::lemma_lex_total(pb, p0);
                            if lex_lt(p0, pb) {
                                crate::lex::lemma_lex_transitive(p0, pb, xn);
                            }
                        }
                    }
                } else {
                    let a0 = if a < pos { a } else { a - 1 };
                    let b0 = if b < pos { b } else { b - 1 };
                    assert(out@[a] == old_out[a0]);
                    assert(out@[b] == old_out[b0]);
                    assert(a0 < b0);
                }
            }
            vstd::seq_lib::to_multiset_insert(old_out, pos as int, x);
            vstd::seq_lib::to_multiset_build(input@, x);
            assert(out@.to_multiset().add(input@.to_multiset()) =~= all.to_multiset());
        }
    }
    proof {
        assert(input@.to_multiset() =~= vstd::multiset::Multiset::empty());
        assert(out@.to_multiset().add(vstd::multiset::Multiset::empty()) =~= out@.to_multiset());
        assert forall|i: int, j: int|
            #![trigger out@[i], out@[j]]
            0 <= i < j < out@.len() implies !name_order()(out@[j], out@[i]) && (!name_order()(
                out@[i],
                out@[j],
            ) ==> p[i] < p[j]) by {}
        assert(stable_order(all, out@, p, name_order()));
    }
    out
}

/// The asset files that no document refers to, sorted by name, with the
/// numbers of assets and documents the scan found. `assets` are the
/// records of the files under `.assets/` directories; `docs` the documents
/// with their text where it was read.
pub fn orphan_assets(assets: Vec<FileInfo>, docs: Vec<(String, Option<String>)>, truncated: bool) -> (r: OrphanAssetsResult)
    ensures
        r.asset_count == assets@.len(),
        r.doc_count == docs@.len(),
        r.truncated == truncated,
        r.orphans@.to_multiset() == unreferenced(assets@, docs_view(docs@), assets@.len() as int).to_multiset(),
        sorted_by_name(r.orphans@),
        stably_sorted(unreferenced(assets@, docs_view(docs@), assets@.len() as int), r.orphans@, name_order()),
{
    let ghost dv = docs_view(docs@);
    let ghost av = assets@;
    let n = assets.len();
    let mut paths: Vec<Vec<char>> = Vec::new();
    let mut refd: Vec<bool> = Vec::new();
    let mut i: usize = 0;
    while i < n
        invariant
            n == assets@.len(),
            i <= n,
            paths@.len() == i,
            refd@.len() == i,
            forall|k: int| 0 <= k < i ==> #[trigger] paths@[k]@ == assets@[k].name@,
            forall|k: int| 0 <= k < i ==> !#[trigger] refd@[k],
        decreases n - i,
    {
        paths.push(chars_of(assets[i].name.as_str()));
        refd.push(false);
        i = i + 1;
    }
    let ghost pv = views(paths@);
    assert(pv =~= asset_paths(av));
    let mut d: usize = 0;
    while d < docs.len()
        invariant
            dv == docs_view(docs@),
            pv == views(paths@),
            pv == asset_paths(av),
            n == paths@.len(),
            refd@.len() == n,
            d <= docs@.len(),
            forall|k: int|
                0 <= k < n ==> #[trigger] refd@[k] == exists|e: int|
                    0 <= e < d && dv[e].1 is Some && #[trigger] doc_refers(dv[e].0, dv[e].1->Some_0, pv, pv[k]),
        decreases docs@.len() - d,
    {
        let ghost before = refd@;
        match &docs[d].1 {
            Some(text) => {
                mark_doc(&mut refd, &paths, docs[d].0.as_str(), text.as_str());
            },
            None => {},
        }
        proof {
            assert(dv[d as int] == (docs@[d as int].0@, opt_text(docs@[d as int].1)));
            assert forall|k: int|
                0 <= k < n implies #[trigger] refd@[k] == exists|e: int|
                    0 <= e < d + 1 && dv[e].1 is Some && #[trigger] doc_refers(dv[e].0, dv[e].1->Some_0, pv, pv[k]) by {
                assert(pv[k] == paths@[k]@);
                if refd@[k] && !before[k] {
                    assert(dv[d as int].1 is Some && doc_refers(dv[d as int].0, dv[d as int].1->Some_0, pv, pv[k]));
                }
            }
        }
        d = d + 1;
    }
    let mut kept: Vec<FileInfo> = Vec::new();
    let mut assets = assets;
    let mut stack: Vec<FileInfo> = Vec::new();
    while assets.len() > 0
        invariant
            assets@.len() <= n,
            n == av.len(),
            assets@ == av.subrange(0, assets@.len() as int),
            stack@ == av.subrange(assets@.len() as int, n as int).reverse(),
        decreases assets@.len(),
    {
        let ghost before = assets@;
        let x = assets.pop().unwrap();
        stack.push(x);
        proof {
            assert(assets@ =~= av.subrange(0, assets@.len() as int));
            assert(stack@ =~= av.subrange(assets@.len() as int, n as int).reverse());
        }
    }
    while stack.len() > 0
        invariant
            n == av.len(),
            refd@.len() == n,
            stack@.len() <= n,
            stack@ == av.subrange(n - stack@.len(), n as int).reverse(),
            kept@ == unreferenced(av, dv, n - stack@.len()),
            pv == asset_paths(av),
            forall|q: int|
                0 <= q < n ==> #[trigger] refd@[q] == referenced(dv, pv, pv[q]),
        decreases stack@.len(),
    {
        let ghost idx = n - stack@.len();
        let x = stack.pop().unwrap();
        proof {
            assert(x == av[idx]);
        }
        let q = n - stack.len() - 1;
        if !refd[q] {
            kept.push(x);
        }
        proof {
            assert(stack@ =~= av.subrange(n - stack@.len(), n as int).reverse());
        }
    }
    let orphans = sort_by_name(kept);
    OrphanAssetsResult { orphans, asset_count: n, doc_count: docs.len(), truncated }
}

} // verus!
