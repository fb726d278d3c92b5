//! The config: parsing with defaults, validation, accounts and password sources.

use mailarchive::comments::strip_comments;
use mailarchive::config::{
    default_idle, default_port, default_true, expand_home, no_account, no_account_with, unusable_file, Account, CommandOutput, Config, ConfigError, Hooks,
    PasswordSource,
};
use serde_json::Value;

fn text(v: &Value) -> Result<String, String> {
    v.as_str().map(|s| s.to_string()).ok_or_else(|| "not a string".to_string())
}

fn flag(v: &Value) -> Result<bool, String> {
    v.as_bool().ok_or_else(|| "not a boolean".to_string())
}

fn number(v: &Value) -> Result<u64, String> {
    v.as_u64().ok_or_else(|| "not a number".to_string())
}

fn account(v: &Value) -> Result<Account, String> {
    let mut a = Account {
        name: String::new(),
        host: String::new(),
        port: default_port(),
        user: String::new(),
        pass: None,
        pass_env: None,
        pass_cmd: None,
        tls: default_true(),
        folders: vec![],
        expunge: false,
        sync_flags: default_true(),
    };
    for (k, x) in v.as_object().ok_or("not an object")? {
        match k.as_str() {
            "name" => a.name = text(x)?,
            "host" => a.host = text(x)?,
            "port" => a.port = number(x)? as u16,
            "user" => a.user = text(x)?,
            "pass" => a.pass = Some(text(x)?),
            "pass_env" => a.pass_env = Some(text(x)?),
            "pass_cmd" => a.pass_cmd = Some(text(x)?),
            "tls" => a.tls = flag(x)?,
            "expunge" => a.expunge = flag(x)?,
            "sync_flags" => a.sync_flags = flag(x)?,
            _ => return Err(format!("unknown field {k:?}")),
        }
    }
    Ok(a)
}

fn parse(s: &str) -> Result<Config, String> {
    let json = strip_comments(s).ok_or("comment without end")?;
    let v: Value = serde_json::from_str(&json).map_err(|e| e.to_string())?;
    let mut c = Config {
        maildir: String::new(),
        idle_secs: default_idle(),
        accounts: vec![],
        hooks: Hooks { mail_received: None },
        backfill_dates: false,
    };
    for (k, x) in v.as_object().ok_or("not an object")? {
        match k.as_str() {
            "maildir" => c.maildir = text(x)?,
            "idle_secs" => c.idle_secs = number(x)?,
            "accounts" => {
                for y in x.as_array().ok_or("not a list")? {
                    c.accounts.push(account(y)?);
                }
            }
            "hooks" => c.hooks.mail_received = Some(text(&x["mail_received"])?),
            "backfill_dates" => c.backfill_dates = flag(x)?,
            _ => return Err(format!("unknown field {k:?}")),
        }
    }
    c.validate().map_err(|e| e.message())?;
    Ok(c)
}

/// What running the account's password source gives, with the commands and the environment of
/// this test.
fn password(a: &Account) -> Result<String, String> {
    match a.password() {
        PasswordSource::Command(cmd) => a.password_from_command(&match cmd.as_str() {
            "printf from-cmd" => CommandOutput { success: true, stdout: b"from-cmd".to_vec(), stderr: vec![] },
            "exit 1" => CommandOutput { success: false, stdout: vec![], stderr: vec![] },
            other => panic!("unexpected command {other}"),
        }),
        PasswordSource::Variable(var) => {
            a.password_from_variable(if var == "IS_SET" { Some("from-env".to_string()) } else { None })
        }
        PasswordSource::Given(p) => Ok(p),
    }
}

#[test]
fn defaults_fill_in_and_names_must_be_directory_safe() {
    let c = parse(r#"{"maildir":"/m","accounts":[{"name":"web.de","host":"h","user":"u","pass":"p"}]}"#).unwrap();
    assert_eq!(c.idle_secs, 1500);
    let a = &c.accounts[0];
    assert_eq!((a.port, a.tls, a.expunge, a.sync_flags), (993, true, false, true));

    for bad in ["", "a/b", ".hidden"] {
        let j = format!(r#"{{"maildir":"/m","accounts":[{{"name":"{bad}","host":"h","user":"u"}}]}}"#);
        assert!(parse(&j).is_err(), "{bad:?} must be rejected as a directory name");
    }
    assert!(parse(r#"{"maildir":"/m","accounts":[
            {"name":"a","host":"h","user":"u"},{"name":"a","host":"h","user":"u"}]}"#).is_err());
    assert!(parse(r#"{"maildir":"/m","accounts":[]}"#).is_err());
    // a typo must not be silently ignored
    assert!(parse(r#"{"maildir":"/m","idlesecs":5,"accounts":[{"name":"a","host":"h","user":"u"}]}"#).is_err());
}

#[test]
fn password_sources_have_a_precedence() {
    let mut a: Account =
        account(&serde_json::from_str(r#"{"name":"web.de","host":"h","user":"u"}"#).unwrap()).unwrap();
    assert_eq!(a.default_pass_env(), "MAILARCHIVE_PASS_WEB_DE");
    assert!(password(&a).is_err());

    a.pass = Some("from-file".into());
    assert_eq!(password(&a).unwrap(), "from-file");

    a.pass_cmd = Some("printf from-cmd".into());
    assert_eq!(password(&a).unwrap(), "from-cmd");

    a.pass_cmd = Some("exit 1".into());
    assert!(password(&a).is_err(), "a failing pass_cmd must not fall through to `pass`");
}

#[test]
fn a_variable_comes_between_command_and_file() {
    let mut a = account(&serde_json::from_str(r#"{"name":"a","host":"h","user":"u"}"#).unwrap()).unwrap();
    a.pass = Some("from-file".into());
    a.pass_env = Some("IS_SET".into());
    assert_eq!(password(&a).unwrap(), "from-env");
    a.pass_env = Some("NOT_SET".into());
    assert_eq!(password(&a).unwrap_err(), "a: env var NOT_SET is not set");
    a.pass_env = None;
    a.pass = None;
    assert_eq!(
        password(&a).unwrap_err(),
        "a: no password - set pass_cmd, pass_env, pass, or MAILARCHIVE_PASS_A"
    );
}

#[test]
fn command_output_is_decoded_and_trimmed_at_its_end() {
    let a = account(&serde_json::from_str(r#"{"name":"n","host":"h","user":"u"}"#).unwrap()).unwrap();
    let out = |success: bool, stdout: &[u8], stderr: &[u8]| {
        a.password_from_command(&CommandOutput { success, stdout: stdout.to_vec(), stderr: stderr.to_vec() })
    };
    assert_eq!(out(true, b"  p w \t\r\n\n", b"noise").unwrap(), "  p w");
    assert_eq!(out(true, "gr\u{fc}n\u{a0}".as_bytes(), b"").unwrap(), "gr\u{fc}n");
    assert_eq!(out(true, &[0x61, 0xff, 0x62], b"").unwrap(), "a\u{fffd}b");
    assert_eq!(out(false, b"ignored", b"no such entry\n").unwrap_err(), "n: pass_cmd failed: no such entry");
}

#[test]
fn errors_name_the_first_account_at_fault() {
    let two = |a: &str, b: &str| {
        format!(
            r#"{{"maildir":"/m","accounts":[{{"name":"{a}","host":"h","user":"u"}},{{"name":"{b}","host":"h","user":"u"}}]}}"#
        )
    };
    assert_eq!(parse(&two("x", "x")).unwrap_err(), "duplicate account name \"x\"");
    assert_eq!(parse(&two("x", "a/b")).unwrap_err(), "account name \"a/b\" is not a usable directory name");
    assert_eq!(parse(&two(".h", ".h")).unwrap_err(), "account name \".h\" is not a usable directory name");
    assert_eq!(parse(&two("a\\\\b", "c")).unwrap_err(), "account name \"a\\\\b\" is not a usable directory name");
    assert_eq!(parse(r#"{"maildir":"/m","accounts":[]}"#).unwrap_err(), "config has no accounts");
    assert!(parse(&two("x", "x.h")).is_ok(), "a dot inside a name is fine");
}

#[test]
fn comments_and_hooks_are_part_of_the_format() {
    let c = parse(
        r#"{
  "maildir": "~/Mail", // comments (// and /* */) are allowed
  "idle_secs": /* seconds */ 1500,
  "accounts": [
    { "name": "web.de", "host": "imap.web.de", "user": "me@web.de", "pass_env": "WEBDE_PASS" }
  ],
  "hooks": { "mail_received": "notmuch new && notify-send Mail %%mail_path%%" }
}"#,
    )
    .unwrap();
    assert_eq!(c.root("/home/me"), "/home/me/Mail");
    assert_eq!(c.hooks.mail_received.as_deref(), Some("notmuch new && notify-send Mail %%mail_path%%"));
}

#[test]
fn home_is_expanded_only_at_the_start() {
    assert_eq!(expand_home("~/Mail", "/home/me"), "/home/me/Mail");
    assert_eq!(expand_home("~/Mail", "/home/me/"), "/home/me/Mail");
    assert_eq!(expand_home("~/Mail", ""), "Mail");
    assert_eq!(expand_home("~/", "/home/me"), "/home/me/");
    assert_eq!(expand_home("~//abs", "/home/me"), "/abs", "an absolute rest replaces the home directory");
    assert_eq!(expand_home("~me/Mail", "/home/me"), "~me/Mail");
    assert_eq!(expand_home("/m/~/x", "/home/me"), "/m/~/x");
}

#[test]
fn accounts_are_selected_by_name() {
    let c = parse(
        r#"{"maildir":"/m","accounts":[{"name":"a","host":"h","user":"u"},
            {"name":"b","host":"h","user":"u"},{"name":"c","host":"h","user":"u"}]}"#,
    )
    .unwrap();
    let pick = |names: &[&str]| c.select(&names.iter().map(|n| n.to_string()).collect());
    assert_eq!(pick(&[]).unwrap(), vec![0, 1, 2]);
    assert_eq!(pick(&["c", "a", "c"]).unwrap(), vec![0, 2], "in the order of the config");
    assert_eq!(pick(&["a", "nope", "gone"]).unwrap_err(), "nope");
}

#[test]
fn every_character_of_a_name_has_its_place_in_the_variable() {
    let mut a = account(&serde_json::from_str(r#"{"name":"","host":"h","user":"u"}"#).unwrap()).unwrap();
    a.name = "azAZ09 \u{e4}-_".to_string();
    assert_eq!(a.default_pass_env(), "MAILARCHIVE_PASS_AZAZ09____");
}

#[test]
fn errors_are_put_in_words() {
    assert_eq!(ConfigError::NoAccounts.message_with("ignored"), "config has no accounts");
    let e = ConfigError::UnusableName("a/b".to_string());
    assert_eq!(e.message_with("<a/b>"), "account name <a/b> is not a usable directory name");
    assert_eq!(ConfigError::DuplicateName("x".to_string()).message_with("<x>"), "duplicate account name <x>");
    let a = account(&serde_json::from_str(r#"{"name":"n","host":"h","user":"u"}"#).unwrap()).unwrap();
    assert_eq!(a.command_failure(" why \n"), "n: pass_cmd failed:  why");
    assert_eq!(a.command_failure(""), "n: pass_cmd failed: ");
}

#[test]
fn an_unknown_account_and_a_broken_file_are_named() {
    assert_eq!(no_account("no\"pe", "config.json"), "no account named \"no\\\"pe\" in config.json");
    assert_eq!(no_account_with("<x>", "c"), "no account named <x> in c");
    assert_eq!(unusable_file("config.json", "why"), "config.json: why");
}
