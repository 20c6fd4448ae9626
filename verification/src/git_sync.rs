//! The decisions of git synchronisation: what the status panel shows, the
//! names of references, commit messages and reports, and what a pull does
//! after the merge analysis. The repository itself is worked by the caller.
use vstd::prelude::*;

use crate::chars::{chars_of, string_of, trim_range, trimmed};
use crate::settings::copy_string;
use crate::text::{decimal, push_decimal};

verus! {

/// What the status panel shows.
#[derive(Debug, Clone)]
pub struct GitStatus {
    pub is_repo: bool,
    pub branch: Option<String>,
    pub dirty_count: usize,
    pub ahead: Option<usize>,
    pub behind: Option<usize>,
    pub has_remote: bool,
    pub remote_url: Option<String>,
    pub message: String,
}

/// An optional string by its view.
pub open spec fn opt_view(s: Option<String>) -> Option<Seq<char>> {
    match s {
        Some(x) => Some(x@),
        None => None,
    }
}

/// `s` trimmed, when something is left.
pub open spec fn nonblank(s: Seq<char>) -> Option<Seq<char>> {
    if trimmed(s).len() == 0 {
        None
    } else {
        Some(trimmed(s))
    }
}

/// `s` trimmed, when something is left.
pub fn trimmed_nonblank(s: &str) -> (r: Option<String>)
    ensures
        opt_view(r) == nonblank(s@),
{
    let cs = chars_of(s);
    let (a, b) = trim_range(&cs, 0, cs.len(), 0);
    proof {
        assert(cs@.subrange(0, cs@.len() as int) =~= cs@);
    }
    if a == b {
        None
    } else {
        Some(string_of(&cs, a, b))
    }
}

/// The status when there is no usable document root.
pub fn status_without_root(message: String) -> (st: GitStatus)
    ensures
        !st.is_repo,
        st.branch is None,
        st.dirty_count == 0,
        st.ahead is None,
        st.behind is None,
        !st.has_remote,
        st.remote_url is None,
        st.message@ == message@,
{
    GitStatus {
        is_repo: false,
        branch: None,
        dirty_count: 0,
        ahead: None,
        behind: None,
        has_remote: false,
        remote_url: None,
        message,
    }
}

/// The status when the document root is not a repository: the remote is
/// the configured one, untrimmed, when it is not blank.
pub fn status_without_repo(settings_remote: &String) -> (st: GitStatus)
    ensures
        !st.is_repo,
        st.branch is None,
        st.dirty_count == 0,
        st.ahead is None,
        st.behind is None,
        st.has_remote == (trimmed(settings_remote@).len() > 0),
        opt_view(st.remote_url) == if trimmed(settings_remote@).len() > 0 {
            Some(settings_remote@)
        } else {
            None
        },
        st.message@ == "尚未初始化 git 仓库"@,
{
    let blank = trimmed_nonblank(settings_remote.as_str()).is_none();
    GitStatus {
        is_repo: false,
        branch: None,
        dirty_count: 0,
        ahead: None,
        behind: None,
        has_remote: !blank,
        remote_url: if blank {
            None
        } else {
            Some(copy_string(settings_remote))
        },
        message: String::from_str("尚未初始化 git 仓库"),
    }
}

/// The status message for `dirty` changed files.
pub open spec fn dirty_message(dirty: nat) -> Seq<char> {
    if dirty > 0 {
        decimal(dirty) + " 个文件有未提交变更"@
    } else {
        "工作区干净"@
    }
}

/// The status of a repository: its branch, changed-file count and
/// distance to the upstream as read, and the remote of `origin`, else the
/// configured one trimmed when it is not blank.
pub fn status_of_repo(
    branch: Option<String>,
    dirty_count: usize,
    ahead: Option<usize>,
    behind: Option<usize>,
    origin_url: Option<String>,
    settings_remote: &str,
) -> (st: GitStatus)
    ensures
        st.is_repo,
        opt_view(st.branch) == opt_view(branch),
        st.dirty_count == dirty_count,
        st.ahead == ahead,
        st.behind == behind,
        opt_view(st.remote_url) == match origin_url {
            Some(u) => Some(u@),
            None => nonblank(settings_remote@),
        },
        st.has_remote == st.remote_url is Some,
        st.message@ == dirty_message(dirty_count as nat),
{
    let remote_url = match origin_url {
        Some(u) => Some(u),
        None => trimmed_nonblank(settings_remote),
    };
    let has_remote = remote_url.is_some();
    let message = if dirty_count > 0 {
        let mut m = String::new();
        push_decimal(&mut m, dirty_count as u64);
        m.concat(" 个文件有未提交变更")
    } else {
        String::from_str("工作区干净")
    };
    GitStatus { is_repo: true, branch, dirty_count, ahead, behind, has_remote, remote_url, message }
}

/// The number of entries whose status bits are not those of an unchanged
/// file (no bit set).
pub open spec fn changed_count(statuses: Seq<u32>, n: int) -> nat
    decreases n,
{
    if n <= 0 {
        0
    } else {
        changed_count(statuses, n - 1) + if statuses[n - 1] != 0 {
            1nat
        } else {
            0nat
        }
    }
}

/// The changed-file count is the number of status entries with any status
/// bit set: every entry other than an unchanged one (no bit set) counts
/// once, a new untracked file among them.
pub proof fn lemma_changed_count_filter(statuses: Seq<u32>, n: int)
    requires
        0 <= n <= statuses.len(),
    ensures
        changed_count(statuses, n) == statuses.take(n).filter(|x: u32| x != 0).len(),
    decreases n,
{
    reveal(Seq::filter);
    if n > 0 {
        lemma_changed_count_filter(statuses, n - 1);
        assert(statuses.take(n).drop_last() =~= statuses.take(n - 1));
        assert(statuses.take(n).last() == statuses[n - 1]);
    } else {
        assert(statuses.take(0).len() == 0);
    }
}

/// Counts the entries of a status listing that are not unchanged.
pub fn count_changed(statuses: &Vec<u32>) -> (n: usize)
    ensures
        n == changed_count(statuses@, statuses@.len() as int),
        n == statuses@.filter(|x: u32| x != 0).len(),
{
    let mut n: usize = 0;
    let mut i: usize = 0;
    while i < statuses.len()
        invariant
            i <= statuses@.len(),
            n == changed_count(statuses@, i as int),
            n <= i,
        decreases statuses@.len() - i,
    {
        if statuses[i] != 0 {
            n = n + 1;
        }
        i = i + 1;
    }
    proof {
        lemma_changed_count_filter(statuses@, statuses@.len() as int);
        assert(statuses@.take(statuses@.len() as int) =~= statuses@);
    }
    n
}

/// The branch a shorthand names, `main` when HEAD has none.
pub open spec fn branch_name(shorthand: Option<Seq<char>>) -> Seq<char> {
    match shorthand {
        Some(b) => b,
        None => "main"@,
    }
}

pub fn branch_or_main(shorthand: Option<String>) -> (b: String)
    ensures
        b@ == branch_name(opt_view(shorthand)),
{
    match shorthand {
        Some(b) => b,
        None => String::from_str("main"),
    }
}

/// The upstream reference of a branch.
pub fn upstream_ref(branch: &str) -> (r: String)
    ensures
        r@ == "refs/remotes/origin/"@ + branch@,
{
    String::from_str("refs/remotes/origin/").concat(branch)
}

/// The local reference of a branch.
pub fn branch_ref(branch: &str) -> (r: String)
    ensures
        r@ == "refs/heads/"@ + branch@,
{
    String::from_str("refs/heads/").concat(branch)
}

/// The refspec that pushes a branch to the branch of the same name.
pub fn push_refspec(branch: &str) -> (r: String)
    ensures
        r@ == "refs/heads/"@ + branch@ + ":refs/heads/"@ + branch@,
{
    String::from_str("refs/heads/").concat(branch).concat(":refs/heads/").concat(branch)
}

/// What a push reports.
pub fn push_report(branch: &str) -> (r: String)
    ensures
        r@ == "已推送 "@ + branch@,
{
    String::from_str("已推送 ").concat(branch)
}

/// The time stamp of an automatic commit message.
pub fn unix_stamp(secs: u64) -> (r: String)
    ensures
        r@ == "unix:"@ + decimal(secs as nat),
{
    let mut s = String::from_str("unix:");
    push_decimal(&mut s, secs);
    s
}

/// The message of a commit: the one given unless it is blank, else an
/// automatic one stamped with the time.
pub fn commit_message(message: Option<String>, unix_secs: u64) -> (r: String)
    ensures
        r@ == match message {
            Some(m) => if trimmed(m@).len() > 0 {
                m@
            } else {
                "noteme sync "@ + "unix:"@ + decimal(unix_secs as nat)
            },
            None => "noteme sync "@ + "unix:"@ + decimal(unix_secs as nat),
        },
{
    match message {
        Some(m) => {
            if trimmed_nonblank(m.as_str()).is_some() {
                return m;
            }
        },
        None => {},
    }
    let stamp = unix_stamp(unix_secs);
    String::from_str("noteme sync ").concat(stamp.as_str())
}

/// What a commit reports: the first seven characters of the commit id.
pub fn commit_report(oid_hex: &str) -> (r: String)
    ensures
        r@ == "已提交 "@ + oid_hex@.take(if oid_hex@.len() < 7 {
            oid_hex@.len() as int
        } else {
            7
        }),
{
    let cs = chars_of(oid_hex);
    let n = if cs.len() < 7 {
        cs.len()
    } else {
        7
    };
    let short = string_of(&cs, 0, n);
    String::from_str("已提交 ").concat(short.as_str())
}

/// The token a pull or push authenticates with, trimmed; refused when
/// blank.
pub fn require_token(token: &str) -> (r: Result<String, String>)
    ensures
        match nonblank(token@) {
            Some(t) => r matches Ok(x) && x@ == t,
            None => r matches Err(e) && e@ == "请先在设置中配置 HTTPS Token"@,
        },
{
    match trimmed_nonblank(token) {
        Some(t) => Ok(t),
        None => Err(String::from_str("请先在设置中配置 HTTPS Token")),
    }
}

/// The remote URL given to set, trimmed; refused when blank.
pub fn remote_url_arg(url: &str) -> (r: Result<String, String>)
    ensures
        match nonblank(url@) {
            Some(t) => r matches Ok(x) && x@ == t,
            None => r matches Err(e) && e@ == "remote URL 不能为空"@,
        },
{
    match trimmed_nonblank(url) {
        Some(t) => Ok(t),
        None => Err(String::from_str("remote URL 不能为空")),
    }
}

/// What a pull does once the merge analysis is known.
pub enum PullPlan {
    /// The pull ends with this result.
    Done(Result<String, String>),
    /// Fast-forward the branch reference `refname` to the fetched commit,
    /// make it HEAD and check it out; the pull then reports `report`.
    FastForward { refname: String, report: String },
}

/// Decides a pull from the merge analysis of the fetched head against
/// `branch`.
pub fn pull_plan(up_to_date: bool, fast_forward: bool, normal: bool, branch: &str) -> (p: PullPlan)
    ensures
        up_to_date ==> (p matches PullPlan::Done(Ok(m)) && m@ == "已是最新"@),
        !up_to_date && fast_forward ==> (p matches PullPlan::FastForward { refname, report } && refname@
            == "refs/heads/"@ + branch@ && report@ == "已快进拉取"@),
        !up_to_date && !fast_forward && normal ==> (p matches PullPlan::Done(Err(e)) && e@
            == "存在分叉，无法自动合并。请用外部 git 工具解决冲突后再试"@),
        !up_to_date && !fast_forward && !normal ==> (p matches PullPlan::Done(Err(e)) && e@
            == "无法拉取：不支持的合并情况"@),
{
    if up_to_date {
        return PullPlan::Done(Ok(String::from_str("已是最新")));
    }
    if fast_forward {
        return PullPlan::FastForward { refname: branch_ref(branch), report: String::from_str("已快进拉取") };
    }
    if normal {
        return PullPlan::Done(Err(String::from_str("存在分叉，无法自动合并。请用外部 git 工具解决冲突后再试")));
    }
    PullPlan::Done(Err(String::from_str("无法拉取：不支持的合并情况")))
}

/// What a commit does once the staged tree is written.
pub enum CommitPlan {
    /// Commit on top of the commit HEAD names.
    OnParent,
    /// Make the first commit of the repository.
    First,
    /// Refuse with this message.
    Refuse(String),
}

/// Decides a commit from whether HEAD names a commit and whether the staged
/// tree is that commit's tree: nothing changed is refused.
pub fn commit_plan(has_parent: bool, same_tree: bool) -> (p: CommitPlan)
    ensures
        has_parent && same_tree ==> (p matches CommitPlan::Refuse(e) && e@ == "没有可提交的变更"@),
        has_parent && !same_tree ==> p is OnParent,
        !has_parent ==> p is First,
{
    if !has_parent {
        CommitPlan::First
    } else if same_tree {
        CommitPlan::Refuse(String::from_str("没有可提交的变更"))
    } else {
        CommitPlan::OnParent
    }
}

} // verus!
