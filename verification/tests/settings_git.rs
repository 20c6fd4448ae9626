use noteme::git_sync::{
    branch_or_main, branch_ref, commit_message, commit_report, count_changed, pull_plan, push_refspec,
    push_report, remote_url_arg, require_token, status_of_repo, status_without_repo, status_without_root,
    unix_stamp, upstream_ref, PullPlan, commit_plan, CommitPlan,
};
use noteme::settings::{checked_root, document_root, get_settings, set_settings, AppSettings, CryptoLabel, SettingsState};

#[test]
fn settings_roots() {
    let mut st = SettingsState::new();
    assert_eq!(document_root(&st), Err("尚未配置文档根目录，请先在设置中选择".to_string()));
    let mut s = AppSettings::default();
    s.document_root = "  /docs  ".to_string();
    s.crypto_labels.push(CryptoLabel { name: "work".to_string(), passphrase: "pw".to_string() });
    set_settings(&mut st, s);
    assert_eq!(document_root(&st), Ok("/docs".to_string()));
    let got = get_settings(&st);
    assert_eq!(got.document_root, "  /docs  ");
    assert_eq!(got.crypto_labels.len(), 1);
    assert_eq!(got.crypto_labels[0].name, "work");
    assert_eq!(checked_root("/docs".to_string(), true), Ok("/docs".to_string()));
    assert_eq!(checked_root("/d".to_string(), false), Err("文档根目录不存在或不是目录: /d".to_string()));
}

#[test]
fn status_panels() {
    let st = status_of_repo(Some("main".to_string()), 2, Some(1), Some(0), None, " https://x ");
    assert!(st.is_repo);
    assert_eq!(st.remote_url, Some("https://x".to_string()));
    assert!(st.has_remote);
    assert_eq!(st.message, "2 个文件有未提交变更");
    let clean = status_of_repo(None, 0, None, None, Some("git@o".to_string()), "");
    assert_eq!(clean.message, "工作区干净");
    assert_eq!(clean.remote_url, Some("git@o".to_string()));
    let none = status_of_repo(None, 0, None, None, None, "   ");
    assert!(!none.has_remote);
    let no_repo = status_without_repo(&"u ".to_string());
    assert_eq!(no_repo.remote_url, Some("u ".to_string()));
    assert!(no_repo.has_remote);
    assert_eq!(no_repo.message, "尚未初始化 git 仓库");
    assert!(!status_without_repo(&" ".to_string()).has_remote);
    let no_root = status_without_root("oops".to_string());
    assert!(!no_root.is_repo);
    assert_eq!(no_root.message, "oops");
}

#[test]
fn commit_texts() {
    assert_eq!(commit_message(Some("  ".to_string()), 42), "noteme sync unix:42");
    assert_eq!(commit_message(None, 7), "noteme sync unix:7");
    assert_eq!(commit_message(Some("fix".to_string()), 7), "fix");
    assert_eq!(commit_report("0123456789abcdef"), "已提交 0123456");
    assert_eq!(commit_report("abc"), "已提交 abc");
    assert_eq!(unix_stamp(0), "unix:0");
    assert_eq!(count_changed(&vec![0, 4, 0, 256]), 2);
}

#[test]
fn references_and_pull_plans() {
    assert_eq!(branch_or_main(None), "main");
    assert_eq!(branch_or_main(Some("dev".to_string())), "dev");
    assert_eq!(upstream_ref("dev"), "refs/remotes/origin/dev");
    assert_eq!(branch_ref("dev"), "refs/heads/dev");
    assert_eq!(push_refspec("dev"), "refs/heads/dev:refs/heads/dev");
    assert_eq!(push_report("dev"), "已推送 dev");
    assert_eq!(require_token("  "), Err("请先在设置中配置 HTTPS Token".to_string()));
    assert_eq!(require_token(" t "), Ok("t".to_string()));
    assert_eq!(remote_url_arg(""), Err("remote URL 不能为空".to_string()));
    assert!(matches!(pull_plan(true, true, true, "main"), PullPlan::Done(Ok(m)) if m == "已是最新"));
    assert!(matches!(pull_plan(false, true, false, "main"), PullPlan::FastForward { refname, report } if refname == "refs/heads/main" && report == "已快进拉取"));
    assert!(matches!(pull_plan(false, false, true, "main"), PullPlan::Done(Err(e)) if e == "存在分叉，无法自动合并。请用外部 git 工具解决冲突后再试"));
    assert!(matches!(pull_plan(false, false, false, "main"), PullPlan::Done(Err(e)) if e == "无法拉取：不支持的合并情况"));
}

#[test]
fn commit_plan_refuses_an_unchanged_tree() {
    match commit_plan(true, true) {
        CommitPlan::Refuse(e) => assert_eq!(e, "没有可提交的变更"),
        _ => panic!("expected a refusal"),
    }
    assert!(matches!(commit_plan(true, false), CommitPlan::OnParent));
    assert!(matches!(commit_plan(false, false), CommitPlan::First));
    assert!(matches!(commit_plan(false, true), CommitPlan::First));
}
