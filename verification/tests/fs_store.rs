use noteme::fs_store::{
    doc_scannable, list_step, listing_full, walk_step, EntryKind, ListAction, WalkAction, WalkCount, MAX_DIR_ENTRIES,
    MAX_DOC_BYTES, MAX_WALK_ENTRIES,
};
use noteme::fs_store::{
    extract_hrefs, guess_file_type, is_scan_doc, join_path, listing_prefix, meta_to_info, normalize_rel,
    note_dir_rel, orphan_assets, path_within, push_href, resolve_href, resolve_plan, resolve_under_root,
    should_skip_name, sort_listing, trim_slashes, FileInfo,
};

fn err(s: &str) -> Result<String, String> {
    Err(s.to_string())
}

fn ok(s: &str) -> Result<String, String> {
    Ok(s.to_string())
}

#[test]
fn normalize_rel_cases() {
    assert_eq!(normalize_rel(""), err("路径不能为空"));
    assert_eq!(normalize_rel("a\0b"), err("路径包含非法字符"));
    assert_eq!(normalize_rel("/etc/passwd"), err("不允许绝对路径"));
    assert_eq!(normalize_rel("../x"), err("路径越界"));
    assert_eq!(normalize_rel("a/../../x"), err("路径越界"));
    assert_eq!(normalize_rel("a/.."), err("路径不能为空"));
    assert_eq!(normalize_rel("."), err("路径不能为空"));
    assert_eq!(normalize_rel("./a//b/./c/"), ok("a/b/c"));
    assert_eq!(normalize_rel("notes/x/../y.md"), ok("notes/y.md"));
    assert_eq!(normalize_rel("笔记/日记.md"), ok("笔记/日记.md"));
}

#[test]
fn file_types_by_name() {
    assert_eq!(guess_file_type("A.MD"), 2);
    assert_eq!(guess_file_type("x.Markdown"), 2);
    assert_eq!(guess_file_type("x.mdx"), 2);
    assert_eq!(guess_file_type("n.txt"), 1);
    assert_eq!(guess_file_type("style.CSS"), 1);
    assert_eq!(guess_file_type("d.excalidraw"), 1);
    assert_eq!(guess_file_type("img.png"), 0);
    assert_eq!(guess_file_type("noext"), 0);
    assert!(is_scan_doc("a.md"));
    assert!(is_scan_doc("b.HTM"));
    assert!(!is_scan_doc("c.json"));
}

#[test]
fn skipped_names() {
    assert!(should_skip_name(".git"));
    assert!(should_skip_name("node_modules"));
    assert!(should_skip_name("target"));
    assert!(should_skip_name(".DS_Store"));
    assert!(!should_skip_name("src"));
    assert!(!should_skip_name(".gitignore"));
}

#[test]
fn note_directories() {
    assert_eq!(note_dir_rel("notes/a/b.md"), "notes/a/");
    assert_eq!(note_dir_rel("b.md"), "");
    assert_eq!(note_dir_rel("/x"), "/");
}

#[test]
fn href_resolution() {
    let r = |h: &str| resolve_href("notes/a.md", h);
    assert_eq!(r("img.png"), Some("notes/img.png".to_string()));
    assert_eq!(r("./.assets/p.png?x=1#frag"), Some("notes/.assets/p.png".to_string()));
    assert_eq!(r("../top.png"), Some("top.png".to_string()));
    assert_eq!(r("../../x.png"), None);
    assert_eq!(r("/abs/p.png"), Some("abs/p.png".to_string()));
    assert_eq!(r("https://x.com/p.png"), None);
    assert_eq!(r("http://localhost/a.png"), None);
    assert_eq!(r("data:image/png;base64,xx"), None);
    assert_eq!(r("blob:abc"), None);
    assert_eq!(r("#section"), None);
    assert_eq!(r("   "), None);
    assert_eq!(r("///"), None);
    assert_eq!(r("  sub/./c.png  "), Some("notes/sub/c.png".to_string()));
}

#[test]
fn href_tokens() {
    let mut out: Vec<String> = Vec::new();
    push_href(&mut out, " <\"img/a.png\" title> ");
    assert_eq!(out, vec!["img/a.png".to_string()]);
    push_href(&mut out, "img/a.png");
    assert_eq!(out.len(), 1);
    push_href(&mut out, "   ");
    push_href(&mut out, "''");
    assert_eq!(out.len(), 1);
    push_href(&mut out, "'b c'");
    assert_eq!(out, vec!["img/a.png".to_string(), "b".to_string()]);
}

#[test]
fn hrefs_of_a_document() {
    let text = "![a](img/a.png) and [b](docs/b.md \"t\")\n<img src=\"pic.jpg\"> <a href='x.html'>\n.assets/c.png\n# .assets/h.png\nfoo .assets/d.png\ndraw.excalidraw\r\n![a](img/a.png)";
    let refs = extract_hrefs(text);
    assert_eq!(
        refs,
        vec!["img/a.png", "docs/b.md", "pic.jpg", "x.html", ".assets/c.png", "draw.excalidraw"]
    );
    assert!(extract_hrefs("no links ](unclosed").is_empty());
    assert_eq!(extract_hrefs("src=\"a\" src=\"b\" src=\"c"), vec!["a", "b"]);
}

fn asset(name: &str) -> FileInfo {
    meta_to_info(name.to_string(), false, 10, Some(5), None, None)
}

#[test]
fn orphan_assets_found() {
    let assets = vec![
        asset("notes/.assets/a.png"),
        asset("notes/.assets/b.png"),
        asset("img/.assets/unique-123.png"),
        asset("z/.assets/dup.png"),
        asset("y/.assets/dup.png"),
        asset("w/.assets/spelled.png"),
    ];
    let docs = vec![
        (
            "notes/n.md".to_string(),
            Some("![x](.assets/a.png) ![y](dup.png) ![u](unique-123.png)".to_string()),
        ),
        ("other.md".to_string(), Some("plain mention w/.assets/spelled.png here".to_string())),
        ("skip.md".to_string(), None),
    ];
    let r = orphan_assets(assets, docs, true);
    let names: Vec<String> = r.orphans.iter().map(|f| f.name.clone()).collect();
    assert_eq!(names, vec!["notes/.assets/b.png", "y/.assets/dup.png", "z/.assets/dup.png"]);
    assert_eq!(r.asset_count, 6);
    assert_eq!(r.doc_count, 3);
    assert!(r.truncated);
}

#[test]
fn listing_order() {
    let entries = vec![
        meta_to_info("b".to_string(), false, 1, None, None, None),
        meta_to_info("z".to_string(), true, 1, None, None, None),
        meta_to_info("a".to_string(), false, 1, None, None, None),
        meta_to_info("c".to_string(), true, 1, None, None, None),
    ];
    let names: Vec<(String, bool)> = sort_listing(entries).into_iter().map(|f| (f.name, f.is_dir)).collect();
    assert_eq!(
        names,
        vec![("c".to_string(), true), ("z".to_string(), true), ("a".to_string(), false), ("b".to_string(), false)]
    );
}

#[test]
fn infos_from_metadata() {
    let f = meta_to_info("n.md".to_string(), false, 10, Some(5), None, Some(3));
    assert_eq!((f.file_type, f.size, f.mtime_ms, f.atime_ms, f.ctime_ms), (2, 10, 5, 5, 3));
    assert_eq!(f.content_hash, "");
    let d = meta_to_info("dir.md".to_string(), true, 10, None, None, None);
    assert_eq!((d.file_type, d.size, d.mtime_ms, d.atime_ms, d.ctime_ms), (0, 0, 0, 0, 0));
}

#[test]
fn path_containment() {
    assert!(path_within("/a/b/c", "/a/b"));
    assert!(!path_within("/a/bc", "/a/b"));
    assert!(path_within("/a/b", "/a/b"));
    assert!(!path_within("/a", "/a/b"));
    assert!(path_within("/a/./b", "/a"));
    assert!(!path_within("a/b", "/a"));
    assert!(path_within("/a/b/", "/a//b"));
}

#[test]
fn joins_and_prefixes() {
    assert_eq!(join_path("/root", "a/b"), "/root/a/b");
    assert_eq!(join_path("/root/", "a"), "/root/a");
    assert_eq!(join_path("", "a"), "a");
    assert_eq!(join_path("/r", "/x"), "/x");
    assert_eq!(trim_slashes("/a/b/"), "a/b");
    assert_eq!(listing_prefix("/a/b/"), "a/b/");
    assert_eq!(listing_prefix("//"), "");
    let (joined, cands) = resolve_plan("/root", "a/b/../c/d.md").unwrap();
    assert_eq!(joined, "/root/a/c/d.md");
    assert_eq!(cands, vec!["/root/a", "/root/a/c", "/root/a/c/d.md"]);
    assert_eq!(resolve_plan("/root", "../x"), Err("路径越界".to_string()));
}

#[test]
fn resolve_verdicts() {
    let root_ok = || Ok("/real/root".to_string());
    assert_eq!(
        resolve_under_root("/root", "a.md", Some(Ok("/real/root/a.md".to_string())), root_ok(), vec![]),
        ok("/real/root/a.md")
    );
    assert_eq!(
        resolve_under_root("/root", "a.md", Some(Ok("/elsewhere/a.md".to_string())), root_ok(), vec![]),
        err("路径越界")
    );
    assert_eq!(
        resolve_under_root(
            "/root",
            "a/b",
            None,
            root_ok(),
            vec![None, Some(Ok("/elsewhere/x".to_string()))]
        ),
        err("路径越界")
    );
    assert_eq!(
        resolve_under_root("/root", "a/b", None, root_ok(), vec![Some(Ok("/real/root/a".to_string())), None]),
        ok("/root/a/b")
    );
    assert_eq!(
        resolve_under_root("/root", "a.md", Some(Err("解析路径失败: boom".to_string())), root_ok(), vec![]),
        err("解析路径失败: boom")
    );
    assert_eq!(
        resolve_under_root(
            "/root",
            "a.md",
            Some(Err("解析路径失败: boom".to_string())),
            Err("解析文档根失败: x".to_string()),
            vec![]
        ),
        err("解析文档根失败: x")
    );
    assert_eq!(resolve_under_root("/root", "../x", None, root_ok(), vec![]), err("路径越界"));
    assert_eq!(resolve_under_root("/root", "new/file.md", None, root_ok(), vec![None, None]), ok("/root/new/file.md"));
}

#[test]
fn normalizing_twice_changes_nothing() {
    for rel in ["./a//b/./c/", "x/y/../z", "notes/a.md", "a/b/c/../../d/./e//"] {
        let once = normalize_rel(rel).unwrap();
        assert_eq!(normalize_rel(&once), Ok(once.clone()));
    }
}

#[test]
fn listing_ties_keep_their_order() {
    let entries = vec![
        meta_to_info("a".to_string(), false, 2, None, None, None),
        meta_to_info("d".to_string(), true, 9, None, None, None),
        meta_to_info("a".to_string(), false, 1, None, None, None),
        meta_to_info("a".to_string(), false, 3, None, None, None),
    ];
    let got: Vec<(String, u64)> = sort_listing(entries).into_iter().map(|f| (f.name, f.size)).collect();
    assert_eq!(
        got,
        vec![("d".to_string(), 0), ("a".to_string(), 2), ("a".to_string(), 1), ("a".to_string(), 3)]
    );
}

#[test]
fn list_step_cases() {
    assert!(matches!(list_step(MAX_DIR_ENTRIES, "a/", "x", EntryKind::File), ListAction::Stop));
    assert!(listing_full(MAX_DIR_ENTRIES));
    assert!(!listing_full(MAX_DIR_ENTRIES - 1));
    assert!(matches!(list_step(0, "a/", ".git", EntryKind::Dir), ListAction::Skip));
    assert!(matches!(list_step(0, "a/", "p", EntryKind::Other), ListAction::Skip));
    assert!(matches!(list_step(3, "a/", "n.md", EntryKind::File), ListAction::Take(r) if r == "a/n.md"));
    assert!(matches!(list_step(3, "", "d", EntryKind::Dir), ListAction::Take(r) if r == "d"));
}

#[test]
fn walk_step_cases() {
    let mut c = WalkCount { entries: 0, truncated: false };
    assert!(matches!(walk_step(&mut c, "", "notes", EntryKind::Dir, false), WalkAction::Descend(r) if r == "notes"));
    assert!(matches!(walk_step(&mut c, "notes", ".assets", EntryKind::Dir, false), WalkAction::CollectAssets(r) if r == "notes/.assets"));
    assert!(matches!(walk_step(&mut c, "notes", "A.MD", EntryKind::File, false), WalkAction::Doc(r) if r == "notes/A.MD"));
    assert!(matches!(walk_step(&mut c, "notes", "pic.png", EntryKind::File, false), WalkAction::Skip));
    assert!(matches!(walk_step(&mut c, "notes", "node_modules", EntryKind::Dir, false), WalkAction::Skip));
    assert!(matches!(walk_step(&mut c, "notes/.assets", "x.png", EntryKind::File, true), WalkAction::Asset(r) if r == "notes/.assets/x.png"));
    assert!(matches!(walk_step(&mut c, "notes/.assets", ".hidden", EntryKind::File, true), WalkAction::Skip));
    assert!(matches!(walk_step(&mut c, "notes/.assets", "sub", EntryKind::Dir, true), WalkAction::CollectAssets(r) if r == "notes/.assets/sub"));
    assert!(matches!(walk_step(&mut c, "notes", ".hidden.md", EntryKind::File, false), WalkAction::Doc(_)));
    assert_eq!(c.entries, 9);
    assert!(!c.truncated);
    let mut full = WalkCount { entries: MAX_WALK_ENTRIES, truncated: false };
    assert!(matches!(walk_step(&mut full, "", "x.md", EntryKind::File, false), WalkAction::Stop));
    assert!(full.truncated);
    assert_eq!(full.entries, MAX_WALK_ENTRIES);
    assert!(doc_scannable(true, MAX_DOC_BYTES));
    assert!(!doc_scannable(true, MAX_DOC_BYTES + 1));
    assert!(!doc_scannable(false, 1));
}
