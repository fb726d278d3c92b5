//! The configuration: its rules, and where an account's password comes from.

use crate::path;
use crate::text;
use vstd::prelude::*;
use vstd::string::StringExecFns;

verus! {

/// Top level of the config file: where mail goes, how long to idle, and the accounts.
#[derive(Debug)]
pub struct Config {
    /// Maildir root ("~" is expanded); every account gets a directory below it.
    pub maildir: String,
    /// Seconds to wait in IDLE on INBOX before a full re-sync of all folders.
    pub idle_secs: u64,
    pub accounts: Vec<Account>,
    pub hooks: Hooks,
    /// Set the date of messages that are already stored from the server, once per folder.
    pub backfill_dates: bool,
}

/// Shell commands that run on an event.
#[derive(Debug)]
pub struct Hooks {
    /// Runs after every stored message; `%%mail_path%%` stands for its quoted path.
    pub mail_received: Option<String>,
}

/// One IMAP account. `name` is also its directory name below the Maildir root.
#[derive(Debug)]
pub struct Account {
    pub name: String,
    pub host: String,
    pub port: u16,
    pub user: String,
    /// Password in the file itself - least preferred, keep the file mode 0600.
    pub pass: Option<String>,
    /// Name of an env var holding the password (a `.env` next to the binary is read too).
    pub pass_env: Option<String>,
    /// Command printing the password on stdout; wins over the other two.
    pub pass_cmd: Option<String>,
    /// false = plain TCP without TLS (local/test servers only).
    pub tls: bool,
    /// Only sync these folders; empty = all.
    pub folders: Vec<String>,
    /// Delete the local copy when a message disappears on the server. Off by default: this
    /// is an archive, so what vanishes upstream (expunge, retention policy, a stray phone
    /// tap) is kept here.
    pub expunge: bool,
    /// Mirror flag changes (\Seen, \Flagged, ...) by renaming the local file.
    pub sync_flags: bool,
}

/// The port of IMAP over TLS.
pub fn default_port() -> (r: u16)
    ensures
        r == 993,
{
    993
}

/// Seconds in IDLE before a full re-sync.
pub fn default_idle() -> (r: u64)
    ensures
        r == 1500,
{
    1500
}

/// What is on unless it is switched off.
pub fn default_true() -> (r: bool)
    ensures
        r,
{
    true
}

// ---------------------------------------------------------------------------
// Validation
// ---------------------------------------------------------------------------

/// Why a config is refused.
#[derive(Debug)]
pub enum ConfigError {
    NoAccounts,
    UnusableName(String),
    DuplicateName(String),
}

impl ConfigError {
    /// The error in words, where `quoted` shows the name at fault.
    pub open spec fn words_with(self, quoted: Seq<char>) -> Seq<char> {
        match self {
            ConfigError::NoAccounts => "config has no accounts"@,
            ConfigError::UnusableName(_) => "account name "@ + quoted
                + " is not a usable directory name"@,
            ConfigError::DuplicateName(_) => "duplicate account name "@ + quoted,
        }
    }

    /// The name at fault; none where there is no account.
    pub open spec fn name(self) -> Seq<char> {
        match self {
            ConfigError::NoAccounts => Seq::empty(),
            ConfigError::UnusableName(n) => n@,
            ConfigError::DuplicateName(n) => n@,
        }
    }

    /// The error in words, where `quoted` shows the name at fault.
    pub fn message_with(&self, quoted: &str) -> (r: String)
        ensures
            r@ == self.words_with(quoted@),
    {
        match self {
            ConfigError::NoAccounts => "config has no accounts".to_owned(),
            ConfigError::UnusableName(_) => "account name ".to_owned().concat(quoted).concat(
                " is not a usable directory name",
            ),
            ConfigError::DuplicateName(_) => "duplicate account name ".to_owned().concat(quoted),
        }
    }

    /// The error in words.
    pub fn message(&self) -> (r: String)
        ensures
            r@ == self.words_with(text::debug_form(self.name())),
    {
        match self {
            ConfigError::NoAccounts => self.message_with(""),
            ConfigError::UnusableName(n) => self.message_with(text::quoted(n.as_str()).as_str()),
            ConfigError::DuplicateName(n) => self.message_with(text::quoted(n.as_str()).as_str()),
        }
    }
}

/// A name that can be the directory of an account.
pub open spec fn usable_name(n: Seq<char>) -> bool {
    &&& n.len() > 0
    &&& !n.contains('/')
    &&& !n.contains('\\')
    &&& n[0] != '.'
}

/// The names of the accounts in order.
pub open spec fn names_of(accounts: Seq<Account>) -> Seq<Seq<char>> {
    accounts.map_values(|a: Account| a.name@)
}

/// The name at `i` stands at an earlier place too.
pub open spec fn repeated(names: Seq<Seq<char>>, i: int) -> bool {
    exists|j: int| 0 <= j < i && names[j] == names[i]
}

/// The name at `i` is usable and stands there first.
pub open spec fn fine_at(names: Seq<Seq<char>>, i: int) -> bool {
    usable_name(names[i]) && !repeated(names, i)
}

/// The first account that is not fine.
pub open spec fn first_fault(names: Seq<Seq<char>>, i: int) -> bool {
    &&& 0 <= i < names.len()
    &&& !fine_at(names, i)
    &&& forall|j: int| 0 <= j < i ==> fine_at(names, j)
}

/// Whether a name can be the directory of an account.
fn is_usable(n: &str) -> (r: bool)
    ensures
        r == usable_name(n@),
{
    let v = text::chars_of(n);
    if v.len() == 0 || v[0] == '.' {
        return false;
    }
    let mut i: usize = 0;
    while i < v.len()
        invariant
            i <= v@.len(),
            v@ == n@,
            forall|k: int| 0 <= k < i ==> v@[k] != '/' && v@[k] != '\\',
        decreases v@.len() - i,
    {
        if v[i] == '/' || v[i] == '\\' {
            assert(n@.contains(v@[i as int]));
            return false;
        }
        i = i + 1;
    }
    true
}

impl Config {
    /// The accounts of a config that passes: there are some, and each has a usable name of its
    /// own.
    pub open spec fn valid(self) -> bool {
        let names = names_of(self.accounts@);
        &&& names.len() > 0
        &&& forall|i: int| 0 <= i < names.len() ==> fine_at(names, i)
    }

    /// Account names become directory names and must be unique, so they are checked before
    /// a single connection is opened rather than surfacing as a confusing path later. The
    /// first account at fault decides the error.
    pub fn validate(&self) -> (r: Result<(), ConfigError>)
        ensures
            r is Ok <==> self.valid(),
            r matches Err(e) ==> match e {
                ConfigError::NoAccounts => self.accounts@.len() == 0,
                ConfigError::UnusableName(n) => exists|i: int|
                    first_fault(names_of(self.accounts@), i) && !usable_name(
                        names_of(self.accounts@)[i],
                    ) && n@ == names_of(self.accounts@)[i],
                ConfigError::DuplicateName(n) => exists|i: int|
                    first_fault(names_of(self.accounts@), i) && usable_name(
                        names_of(self.accounts@)[i],
                    ) && n@ == names_of(self.accounts@)[i],
            },
    {
        if self.accounts.len() == 0 {
            return Err(ConfigError::NoAccounts);
        }
        let ghost names = names_of(self.accounts@);
        let mut i: usize = 0;
        while i < self.accounts.len()
            invariant
                i <= self.accounts@.len(),
                names == names_of(self.accounts@),
                forall|j: int| 0 <= j < i ==> fine_at(names, j),
            decreases self.accounts@.len() - i,
        {
            let name = self.accounts[i].name.as_str();
            assert(names[i as int] == name@);
            if !is_usable(name) {
                assert(first_fault(names, i as int));
                return Err(ConfigError::UnusableName(name.to_owned()));
            }
            let mut j: usize = 0;
            while j < i
                invariant
                    j <= i < self.accounts@.len(),
                    names == names_of(self.accounts@),
                    names[i as int] == name@,
                    usable_name(name@),
                    forall|k: int| 0 <= k < i ==> fine_at(names, k),
                    forall|k: int| 0 <= k < j ==> names[k] != names[i as int],
                decreases i - j,
            {
                assert(names[j as int] == self.accounts@[j as int].name@);
                if text::same(self.accounts[j].name.as_str(), name) {
                    assert(repeated(names, i as int));
                    assert(first_fault(names, i as int));
                    return Err(ConfigError::DuplicateName(name.to_owned()));
                }
                j = j + 1;
            }
            i = i + 1;
        }
        Ok(())
    }

    /// Maildir root with a leading `~/` expanded; `home` is the home directory.
    pub fn root(&self, home: &str) -> (r: String)
        ensures
            r@ == home_expanded(self.maildir@, home@),
    {
        expand_home(self.maildir.as_str(), home)
    }

    /// The accounts to run, by position: all, or those whose name is in `wanted`. A wanted
    /// name that no account has is an error, the first such name.
    pub fn select(&self, wanted: &Vec<String>) -> (r: Result<Vec<usize>, String>)
        ensures
            match r {
                Ok(v) => {
                    &&& forall|k: int|
                        0 <= k < wanted@.len() ==> names_of(self.accounts@).contains(
                            #[trigger] text::views(wanted@)[k],
                        )
                    &&& forall|a: int, b: int| 0 <= a < b < v@.len() ==> v@[a] < v@[b]
                    &&& forall|i: usize|
                        v@.contains(i) <==> i < self.accounts@.len() && (wanted@.len() == 0
                            || text::views(wanted@).contains(names_of(self.accounts@)[i as int]))
                },
                Err(n) => exists|k: int|
                    {
                        &&& 0 <= k < wanted@.len()
                        &&& n@ == #[trigger] text::views(wanted@)[k]
                        &&& !names_of(self.accounts@).contains(n@)
                        &&& forall|j: int|
                            0 <= j < k ==> names_of(self.accounts@).contains(
                                #[trigger] text::views(wanted@)[j],
                            )
                    },
            },
    {
        let ghost names = names_of(self.accounts@);
        let ghost want = text::views(wanted@);
        let mut k: usize = 0;
        while k < wanted.len()
            invariant
                k <= wanted@.len(),
                names == names_of(self.accounts@),
                want == text::views(wanted@),
                forall|j: int| 0 <= j < k ==> names.contains(#[trigger] want[j]),
            decreases wanted@.len() - k,
        {
            assert(want[k as int] == wanted@[k as int]@);
            if !self.has_account(wanted[k].as_str()) {
                return Err(wanted[k].clone());
            }
            k = k + 1;
        }
        let mut v: Vec<usize> = Vec::new();
        let mut i: usize = 0;
        while i < self.accounts.len()
            invariant
                i <= self.accounts@.len(),
                names == names_of(self.accounts@),
                want == text::views(wanted@),
                forall|a: int, b: int| 0 <= a < b < v@.len() ==> v@[a] < v@[b],
                forall|a: int| 0 <= a < v@.len() ==> v@[a] < i,
                forall|m: usize|
                    v@.contains(m) <==> m < i && (wanted@.len() == 0 || want.contains(
                        names[m as int],
                    )),
            decreases self.accounts@.len() - i,
        {
            let ghost before = v@;
            assert(names[i as int] == self.accounts@[i as int].name@);
            if wanted.len() == 0 || listed(wanted, self.accounts[i].name.as_str()) {
                v.push(i);
                assert forall|m: usize|
                    v@.contains(m) <==> m < i + 1 && (wanted@.len() == 0 || want.contains(
                        names[m as int],
                    )) by {
                    if m == i {
                        assert(v@[before.len() as int] == i);
                    } else {
                        if before.contains(m) {
                            let a = choose|a: int| 0 <= a < before.len() && before[a] == m;
                            assert(v@[a] == m);
                        }
                        if v@.contains(m) {
                            let a = choose|a: int| 0 <= a < v@.len() && v@[a] == m;
                            assert(before[a] == m);
                        }
                    }
                }
            }
            i = i + 1;
        }
        Ok(v)
    }

    /// Whether an account has this name.
    fn has_account(&self, name: &str) -> (r: bool)
        ensures
            r == names_of(self.accounts@).contains(name@),
    {
        let ghost names = names_of(self.accounts@);
        let mut i: usize = 0;
        while i < self.accounts.len()
            invariant
                i <= self.accounts@.len(),
                names == names_of(self.accounts@),
                forall|j: int| 0 <= j < i ==> names[j] != name@,
            decreases self.accounts@.len() - i,
        {
            assert(names[i as int] == self.accounts@[i as int].name@);
            if text::same(self.accounts[i].name.as_str(), name) {
                return true;
            }
            i = i + 1;
        }
        false
    }
}

/// Whether a list of names holds `name`.
pub fn listed(names: &Vec<String>, name: &str) -> (r: bool)
    ensures
        r == text::views(names@).contains(name@),
{
    let ghost all = text::views(names@);
    let mut i: usize = 0;
    while i < names.len()
        invariant
            i <= names@.len(),
            all == text::views(names@),
            forall|j: int| 0 <= j < i ==> all[j] != name@,
        decreases names@.len() - i,
    {
        assert(all[i as int] == names@[i as int]@);
        if text::same(names[i].as_str(), name) {
            return true;
        }
        i = i + 1;
    }
    false
}

/// What to say of a wanted account that the config at `file` does not have, where `quoted` shows
/// its name.
pub fn no_account_with(quoted: &str, file: &str) -> (r: String)
    ensures
        r@ == "no account named "@ + quoted@ + " in "@ + file@,
{
    "no account named ".to_owned().concat(quoted).concat(" in ").concat(file)
}

/// What to say of a wanted account that the config at `file` does not have.
pub fn no_account(name: &str, file: &str) -> (r: String)
    ensures
        r@ == "no account named "@ + text::debug_form(name@) + " in "@ + file@,
{
    no_account_with(text::quoted(name).as_str(), file)
}

/// What to say of a config file that cannot be read.
pub fn unusable_file(file: &str, why: &str) -> (r: String)
    ensures
        r@ == file@ + ": "@ + why@,
{
    file.to_owned().concat(": ").concat(why)
}

/// The directory of every account of a valid config lies directly below the root and bears the
/// name of the account.
pub proof fn law_account_directory_is_below_root(cfg: Config, root: Seq<char>, i: int)
    requires
        cfg.valid(),
        0 <= i < cfg.accounts@.len(),
    ensures
        path::components(path::joined(root, cfg.accounts@[i].name@)) == path::components(
            root,
        ).push(cfg.accounts@[i].name@),
{
    let names = names_of(cfg.accounts@);
    assert(names[i] == cfg.accounts@[i].name@);
    assert(fine_at(names, i));
    path::law_join_adds_component(root, names[i]);
}

/// No two accounts of a valid config share a directory.
pub proof fn law_accounts_have_own_directories(cfg: Config, root: Seq<char>, i: int, j: int)
    requires
        cfg.valid(),
        0 <= i < j < cfg.accounts@.len(),
    ensures
        ({
            let a = path::joined(root, cfg.accounts@[i].name@);
            let b = path::joined(root, cfg.accounts@[j].name@);
            &&& path::components(a) != path::components(b)
            &&& a != b
        }),
{
    let names = names_of(cfg.accounts@);
    let x = cfg.accounts@[i].name@;
    let y = cfg.accounts@[j].name@;
    assert(names[i] == x && names[j] == y);
    assert(fine_at(names, i) && fine_at(names, j));
    law_account_directory_is_below_root(cfg, root, i);
    law_account_directory_is_below_root(cfg, root, j);
    if x == y {
        assert(repeated(names, j));
    }
    let c = path::components(root);
    assert(c.push(x)[c.len() as int] == x);
    assert(c.push(y)[c.len() as int] == y);
}

// ---------------------------------------------------------------------------
// The home directory
// ---------------------------------------------------------------------------

/// `p` with a leading `~/` replaced by the home directory.
pub open spec fn home_expanded(p: Seq<char>, home: Seq<char>) -> Seq<char> {
    if p.len() >= 2 && p[0] == '~' && p[1] == '/' {
        path::joined(home, p.skip(2))
    } else {
        p
    }
}

/// `p` with a leading `~/` replaced by the home directory.
pub fn expand_home(p: &str, home: &str) -> (r: String)
    ensures
        r@ == home_expanded(p@, home@),
{
    let v = text::chars_of(p);
    if v.len() >= 2 && v[0] == '~' && v[1] == '/' {
        let rest = text::string_of(&v, 2, v.len());
        assert(rest@ =~= p@.skip(2));
        path::join(home, rest.as_str())
    } else {
        p.to_owned()
    }
}

// ---------------------------------------------------------------------------
// Passwords
// ---------------------------------------------------------------------------

/// What has to be asked for a password.
#[derive(Debug)]
pub enum PasswordSource {
    /// The output of this shell command.
    Command(String),
    /// The value of this environment variable.
    Variable(String),
    /// Nothing: this is the password.
    Given(String),
}

/// A [`PasswordSource`] over models.
pub enum PasswordSourceView {
    Command(Seq<char>),
    Variable(Seq<char>),
    Given(Seq<char>),
}

impl View for PasswordSource {
    type V = PasswordSourceView;

    open spec fn view(&self) -> PasswordSourceView {
        match *self {
            PasswordSource::Command(s) => PasswordSourceView::Command(s@),
            PasswordSource::Variable(s) => PasswordSourceView::Variable(s@),
            PasswordSource::Given(s) => PasswordSourceView::Given(s@),
        }
    }
}

/// What a command left behind.
#[derive(Debug)]
pub struct CommandOutput {
    pub success: bool,
    pub stdout: Vec<u8>,
    pub stderr: Vec<u8>,
}

/// A character of an account name as it stands in a variable name.
pub open spec fn env_char(c: char) -> char {
    if 'a' <= c <= 'z' {
        (c as u32 - 32) as char
    } else if 'A' <= c <= 'Z' || '0' <= c <= '9' {
        c
    } else {
        '_'
    }
}

fn to_env_char(c: char) -> (r: char)
    ensures
        r == env_char(c),
{
    if 'a' <= c && c <= 'z' {
        (c as u8 - 32) as char
    } else if ('A' <= c && c <= 'Z') || ('0' <= c && c <= '9') {
        c
    } else {
        '_'
    }
}

impl Account {
    /// The variable that is read when the account names no password source at all.
    pub open spec fn fallback_var(self) -> Seq<char> {
        "MAILARCHIVE_PASS_"@ + self.name@.map_values(|c: char| env_char(c))
    }

    /// `pass_cmd` > `pass_env` > `pass` > `MAILARCHIVE_PASS_<NAME>`.
    pub open spec fn source(self) -> PasswordSourceView {
        match (self.pass_cmd, self.pass_env, self.pass) {
            (Some(cmd), _, _) => PasswordSourceView::Command(cmd@),
            (None, Some(var), _) => PasswordSourceView::Variable(var@),
            (None, None, Some(pass)) => PasswordSourceView::Given(pass@),
            (None, None, None) => PasswordSourceView::Variable(self.fallback_var()),
        }
    }

    /// What has to be asked for the password: `pass_cmd` > `pass_env` > `pass` >
    /// `MAILARCHIVE_PASS_<NAME>`. Only the first of them is ever asked.
    pub fn password(&self) -> (r: PasswordSource)
        ensures
            r@ == self.source(),
    {
        if let Some(cmd) = &self.pass_cmd {
            return PasswordSource::Command(cmd.clone());
        }
        if let Some(var) = &self.pass_env {
            return PasswordSource::Variable(var.clone());
        }
        if let Some(pass) = &self.pass {
            return PasswordSource::Given(pass.clone());
        }
        PasswordSource::Variable(self.default_pass_env())
    }

    /// Env var consulted when the account names no password source at all.
    pub fn default_pass_env(&self) -> (r: String)
        ensures
            r@ == self.fallback_var(),
    {
        let v = text::chars_of(self.name.as_str());
        let mut r = "MAILARCHIVE_PASS_".to_owned();
        let ghost f = |c: char| env_char(c);
        let ghost prefix = r@;
        let mut i: usize = 0;
        assert(r@ =~= prefix + v@.take(0).map_values(f));
        while i < v.len()
            invariant
                i <= v@.len(),
                f == (|c: char| env_char(c)),
                r@ == prefix + v@.take(i as int).map_values(f),
            decreases v@.len() - i,
        {
            r.push(to_env_char(v[i]));
            i = i + 1;
            assert(r@ =~= prefix + v@.take(i as int).map_values(f));
        }
        assert(v@.take(i as int) =~= v@);
        r
    }

    /// What is said of a command that failed with this on its standard error.
    pub open spec fn failure_words(self, stderr: Seq<char>) -> Seq<char> {
        self.name@ + ": pass_cmd failed: "@ + text::trimmed_end(stderr)
    }

    /// What is said of a command that failed with this on its standard error.
    pub fn command_failure(&self, stderr: &str) -> (r: String)
        ensures
            r@ == self.failure_words(stderr@),
    {
        self.name.clone().concat(": pass_cmd failed: ").concat(text::trim_end(stderr).as_str())
    }

    /// The password out of what the command printed, without the white space at its end. A
    /// failing command is an error: no other source is tried.
    pub fn password_from_command(&self, out: &CommandOutput) -> (r: Result<String, String>)
        ensures
            match r {
                Ok(p) => out.success && p@ == text::trimmed_end(text::lossy(out.stdout@)),
                Err(e) => !out.success && e@ == self.failure_words(text::lossy(out.stderr@)),
            },
            r matches Ok(p) ==> (vstd::utf8::valid_utf8(out.stdout@) ==> p@ == text::trimmed_end(
                vstd::utf8::decode_utf8(out.stdout@),
            )),
            r matches Err(e) ==> (vstd::utf8::valid_utf8(out.stderr@) ==> e@
                == self.failure_words(vstd::utf8::decode_utf8(out.stderr@))),
    {
        if !out.success {
            return Err(self.command_failure(text::utf8_lossy(&out.stderr).as_str()));
        }
        Ok(text::trim_end(text::utf8_lossy(&out.stdout).as_str()))
    }

    /// The password out of the variable's value; a variable that is not set is an error.
    pub fn password_from_variable(&self, value: Option<String>) -> (r: Result<String, String>)
        ensures
            match value {
                Some(p) => r == Ok::<String, String>(p),
                None => r is Err && r->Err_0@ == (match self.pass_env {
                    Some(var) => self.name@ + ": env var "@ + var@ + " is not set"@,
                    None => self.name@ + ": no password - set pass_cmd, pass_env, pass, or "@
                        + self.fallback_var(),
                }),
            },
    {
        match value {
            Some(p) => Ok(p),
            None => match &self.pass_env {
                Some(var) => Err(
                    self.name.clone().concat(": env var ").concat(var.as_str()).concat(
                        " is not set",
                    ),
                ),
                None => Err(
                    self.name.clone().concat(
                        ": no password - set pass_cmd, pass_env, pass, or ",
                    ).concat(self.default_pass_env().as_str()),
                ),
            },
        }
    }
}

// ---------------------------------------------------------------------------
// What these functions mean
// ---------------------------------------------------------------------------

/// The models of accounts and password sources show everything in them.
pub proof fn law_models_show_names_and_sources(accounts: Seq<Account>, s: String)
    ensures
        names_of(accounts).len() == accounts.len(),
        forall|i: int|
            0 <= i < accounts.len() ==> #[trigger] names_of(accounts)[i] == accounts[i].name@,
        PasswordSource::Command(s)@ == PasswordSourceView::Command(s@),
        PasswordSource::Variable(s)@ == PasswordSourceView::Variable(s@),
        PasswordSource::Given(s)@ == PasswordSourceView::Given(s@),
{
}

/// A name that can be a directory is not empty, does not start with a dot, and holds neither a
/// slash nor a backslash; any other name will do.
pub proof fn law_usable_names(n: Seq<char>)
    ensures
        usable_name(n) <==> n.len() > 0 && n[0] != '.' && forall|i: int|
            0 <= i < n.len() ==> #[trigger] n[i] != '/' && n[i] != '\\',
{
    if usable_name(n) {
        assert forall|i: int| 0 <= i < n.len() implies #[trigger] n[i] != '/' && n[i] != '\\' by {
            assert(n.contains(n[i]));
        }
    }
}

/// A config passes if and only if it has accounts, all with usable names, and no two with the
/// same.
pub proof fn law_valid_configs(cfg: Config)
    ensures
        cfg.valid() <==> {
            &&& cfg.accounts@.len() > 0
            &&& forall|i: int|
                0 <= i < cfg.accounts@.len() ==> usable_name((#[trigger] cfg.accounts@[i]).name@)
            &&& forall|i: int, j: int|
                0 <= i < j < cfg.accounts@.len() ==> (#[trigger] cfg.accounts@[i]).name@ != (
                #[trigger] cfg.accounts@[j]).name@
        },
{
    let names = names_of(cfg.accounts@);
    if cfg.valid() {
        assert forall|i: int| 0 <= i < cfg.accounts@.len() implies usable_name(
            (#[trigger] cfg.accounts@[i]).name@,
        ) by {
            assert(fine_at(names, i));
        }
        assert forall|i: int, j: int| 0 <= i < j < cfg.accounts@.len() implies (
        #[trigger] cfg.accounts@[i]).name@ != (#[trigger] cfg.accounts@[j]).name@ by {
            assert(fine_at(names, j));
            assert(names[i] == cfg.accounts@[i].name@ && names[j] == cfg.accounts@[j].name@);
            if names[i] == names[j] {
                assert(repeated(names, j));
            }
        }
    }
    if cfg.accounts@.len() > 0 && (forall|i: int|
        0 <= i < cfg.accounts@.len() ==> usable_name((#[trigger] cfg.accounts@[i]).name@)) && (
    forall|i: int, j: int|
        0 <= i < j < cfg.accounts@.len() ==> (#[trigger] cfg.accounts@[i]).name@ != (
        #[trigger] cfg.accounts@[j]).name@) {
        assert forall|i: int| 0 <= i < names.len() implies fine_at(names, i) by {
            assert(usable_name(cfg.accounts@[i].name@));
            assert(names[i] == cfg.accounts@[i].name@);
            if repeated(names, i) {
                let j = choose|j: int| 0 <= j < i && names[j] == names[i];
                assert(cfg.accounts@[j].name@ != cfg.accounts@[i].name@);
            }
        }
    }
}

/// The account at fault is the first one whose name is not usable or stands at an earlier
/// account already.
pub proof fn law_first_account_at_fault(names: Seq<Seq<char>>, i: int)
    ensures
        first_fault(names, i) ==> {
            &&& 0 <= i < names.len()
            &&& !usable_name(names[i]) || exists|j: int| 0 <= j < i && #[trigger] names[j]
                == names[i]
            &&& forall|k: int| 0 <= k < i ==> usable_name(#[trigger] names[k])
            &&& forall|j: int, k: int|
                0 <= j < k < i ==> #[trigger] names[j] != #[trigger] names[k]
        },
{
    if first_fault(names, i) {
        if usable_name(names[i]) {
            assert(repeated(names, i));
        }
        assert forall|k: int| 0 <= k < i implies usable_name(#[trigger] names[k]) by {
            assert(fine_at(names, k));
        }
        assert forall|j: int, k: int| 0 <= j < k < i implies #[trigger] names[j]
            != #[trigger] names[k] by {
            assert(fine_at(names, k));
            if names[j] == names[k] {
                assert(repeated(names, k));
            }
        }
    }
}

/// The errors in words.
pub proof fn law_words_for_a_config_error(n: String, quoted: Seq<char>)
    ensures
        ConfigError::NoAccounts.words_with(quoted) == "config has no accounts"@,
        ConfigError::UnusableName(n).words_with(quoted) == "account name "@ + quoted
            + " is not a usable directory name"@,
        ConfigError::DuplicateName(n).words_with(quoted) == "duplicate account name "@ + quoted,
        ConfigError::UnusableName(n).name() == n@,
        ConfigError::DuplicateName(n).name() == n@,
{
}

/// The home directory takes the place of a leading `~/` and of nothing else.
pub proof fn law_home_takes_the_place_of_the_tilde(p: Seq<char>, home: Seq<char>)
    ensures
        home_expanded(seq!['~', '/'] + p, home) == path::joined(home, p),
        p.len() < 2 || p[0] != '~' || p[1] != '/' ==> home_expanded(p, home) == p,
{
    assert((seq!['~', '/'] + p).skip(2) =~= p);
}

/// Where a password comes from: the command before the variable, the variable before the file,
/// and the variable of the account's name only where none of them is given.
pub proof fn law_precedence_of_password_sources(a: Account)
    ensures
        a.pass_cmd is Some ==> a.source() == PasswordSourceView::Command(a.pass_cmd->0@),
        a.pass_cmd is None && a.pass_env is Some ==> a.source() == PasswordSourceView::Variable(
            a.pass_env->0@,
        ),
        a.pass_cmd is None && a.pass_env is None && a.pass is Some ==> a.source()
            == PasswordSourceView::Given(a.pass->0@),
        a.pass_cmd is None && a.pass_env is None && a.pass is None ==> a.source()
            == PasswordSourceView::Variable(a.fallback_var()),
{
}

/// The variable of an account's name: a fixed start, and then for each character of the name
/// one: letters in upper case, digits as they are, and `_` for anything else.
pub proof fn law_variable_of_an_account(a: Account, i: int, c: char, d: char)
    requires
        0 <= i < a.name@.len() ==> c == a.name@[i] && d == a.fallback_var()[17 + i],
    ensures
        a.fallback_var().len() == 17 + a.name@.len(),
        a.fallback_var().take(17) == "MAILARCHIVE_PASS_"@,
        0 <= i < a.name@.len() ==> if 'a' <= c <= 'z' {
            d as u32 == c as u32 - 32
        } else if 'A' <= c <= 'Z' || '0' <= c <= '9' {
            d == c
        } else {
            d == '_'
        },
{
    reveal_strlit("MAILARCHIVE_PASS_");
    assert(a.fallback_var().take(17) =~= "MAILARCHIVE_PASS_"@);
    if 0 <= i < a.name@.len() {
        assert(d == env_char(c));
    }
}

/// What is said of a command that failed.
pub proof fn law_words_for_a_failed_command(a: Account, stderr: Seq<char>)
    ensures
        a.failure_words(stderr) == a.name@ + ": pass_cmd failed: "@ + text::trimmed_end(stderr),
{
}

} // verus!
