//! Application settings: the document root, git remote and token, and the
//! named passphrases kept on this machine. Reading and writing
//! `settings.json` is the caller's.
use vstd::prelude::*;

use crate::chars::{chars_of, string_of, trim_range, trimmed};

verus! {

#[derive(Debug, Clone)]
pub struct GitSettings {
    pub remote_url: String,
    pub https_token: String,
}

#[derive(Debug, Clone)]
pub struct CryptoLabel {
    pub name: String,
    pub passphrase: String,
}

#[derive(Debug, Clone)]
pub struct AppSettings {
    pub document_root: String,
    pub git: GitSettings,
    /// Named passphrases stored only on this machine (settings.json).
    pub crypto_labels: Vec<CryptoLabel>,
}

/// The settings in force and where they are stored, once known.
#[derive(Debug, Clone)]
pub struct SettingsState {
    pub inner: AppSettings,
    pub path: Option<String>,
}

/// The settings by their views.
pub open spec fn settings_view(s: AppSettings) -> (Seq<char>, Seq<char>, Seq<char>, Seq<(Seq<char>, Seq<char>)>) {
    (
        s.document_root@,
        s.git.remote_url@,
        s.git.https_token@,
        Seq::new(s.crypto_labels@.len(), |i: int| (s.crypto_labels@[i].name@, s.crypto_labels@[i].passphrase@)),
    )
}

/// A copy of a string.
pub fn copy_string(s: &String) -> (r: String)
    ensures
        r@ == s@,
{
    let c = chars_of(s.as_str());
    string_of(&c, 0, c.len())
}

impl Default for GitSettings {
    fn default() -> (s: Self)
        ensures
            s.remote_url@.len() == 0,
            s.https_token@.len() == 0,
    {
        GitSettings { remote_url: String::new(), https_token: String::new() }
    }
}

impl Default for CryptoLabel {
    fn default() -> (s: Self)
        ensures
            s.name@.len() == 0,
            s.passphrase@.len() == 0,
    {
        CryptoLabel { name: String::new(), passphrase: String::new() }
    }
}

impl Default for AppSettings {
    fn default() -> (s: Self)
        ensures
            settings_view(s) == (Seq::<char>::empty(), Seq::<char>::empty(), Seq::<char>::empty(), Seq::<
                (Seq<char>, Seq<char>),
            >::empty()),
    {
        let s = AppSettings {
            document_root: String::new(),
            git: GitSettings::default(),
            crypto_labels: Vec::new(),
        };
        proof {
            assert(settings_view(s).3 =~= Seq::<(Seq<char>, Seq<char>)>::empty());
            assert(s.document_root@ =~= Seq::<char>::empty());
            assert(s.git.remote_url@ =~= Seq::<char>::empty());
            assert(s.git.https_token@ =~= Seq::<char>::empty());
        }
        s
    }
}

impl AppSettings {
    /// A copy of the settings.
    pub fn duplicate(&self) -> (r: AppSettings)
        ensures
            settings_view(r) == settings_view(*self),
    {
        let mut labels: Vec<CryptoLabel> = Vec::new();
        let mut i: usize = 0;
        while i < self.crypto_labels.len()
            invariant
                i <= self.crypto_labels@.len(),
                labels@.len() == i,
                forall|k: int|
                    0 <= k < i ==> (#[trigger] labels@[k]).name@ == self.crypto_labels@[k].name@
                        && labels@[k].passphrase@ == self.crypto_labels@[k].passphrase@,
            decreases self.crypto_labels@.len() - i,
        {
            let l = &self.crypto_labels[i];
            labels.push(CryptoLabel { name: copy_string(&l.name), passphrase: copy_string(&l.passphrase) });
            i = i + 1;
        }
        let r = AppSettings {
            document_root: copy_string(&self.document_root),
            git: GitSettings {
                remote_url: copy_string(&self.git.remote_url),
                https_token: copy_string(&self.git.https_token),
            },
            crypto_labels: labels,
        };
        proof {
            assert(settings_view(r).3 =~= settings_view(*self).3);
        }
        r
    }
}

impl SettingsState {
    /// Default settings, not yet tied to a file.
    pub fn new() -> (s: Self)
        ensures
            s.inner.document_root@.len() == 0,
            s.inner.git.remote_url@.len() == 0,
            s.inner.git.https_token@.len() == 0,
            s.inner.crypto_labels@.len() == 0,
            s.path is None,
    {
        let inner = AppSettings::default();
        assert(settings_view(inner).3.len() == inner.crypto_labels@.len());
        SettingsState { inner, path: None }
    }
}

/// The settings in force.
pub fn get_settings(state: &SettingsState) -> (s: AppSettings)
    ensures
        settings_view(s) == settings_view(state.inner),
{
    state.inner.duplicate()
}

/// The configured document root, trimmed; refused when none is set.
pub fn document_root(state: &SettingsState) -> (r: Result<String, String>)
    ensures
        trimmed(state.inner.document_root@).len() == 0 ==> (r matches Err(e) && e@
            == "尚未配置文档根目录，请先在设置中选择"@),
        trimmed(state.inner.document_root@).len() > 0 ==> (r matches Ok(p) && p@ == trimmed(
            state.inner.document_root@,
        )),
{
    let settings = get_settings(state);
    let cs = chars_of(settings.document_root.as_str());
    let (a, b) = trim_range(&cs, 0, cs.len(), 0);
    proof {
        assert(cs@.subrange(0, cs@.len() as int) =~= cs@);
    }
    if a == b {
        return Err(String::from_str("尚未配置文档根目录，请先在设置中选择"));
    }
    Ok(string_of(&cs, a, b))
}

/// The document root once the file system said whether it is a
/// directory.
pub fn checked_root(root: String, is_dir: bool) -> (r: Result<String, String>)
    ensures
        is_dir ==> (r matches Ok(p) && p@ == root@),
        !is_dir ==> (r matches Err(e) && e@ == "文档根目录不存在或不是目录: "@ + root@),
{
    if is_dir {
        Ok(root)
    } else {
        Err(String::from_str("文档根目录不存在或不是目录: ").concat(root.as_str()))
    }
}

/// Replaces the settings in force.
pub fn set_settings(state: &mut SettingsState, settings: AppSettings)
    ensures
        settings_view(final(state).inner) == settings_view(settings),
        final(state).path == old(state).path,
{
    state.inner = settings;
}

/// What a read gives back of a write: after `set_settings(state, settings)`,
/// `get_settings` returns `settings`.
pub proof fn lemma_get_after_set(settings: AppSettings, state: SettingsState, got: AppSettings)
    requires
        settings_view(state.inner) == settings_view(settings),
        settings_view(got) == settings_view(state.inner),
    ensures
        settings_view(got) == settings_view(settings),
{
}

} // verus!
