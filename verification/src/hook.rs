//! Hooks: shell commands with a message path put in.

use crate::text;
use vstd::prelude::*;
use vstd::string::StringExecFns;

verus! {

// ---------------------------------------------------------------------------
// Models
// ---------------------------------------------------------------------------

/// A text between single quotes, as far as it can stand there: a quote of its own ends them,
/// stands escaped, and opens them again.
pub open spec fn inside_quotes(s: Seq<char>) -> Seq<char>
    decreases s.len(),
{
    if s.len() == 0 {
        s
    } else if s[0] == '\'' {
        seq!['\'', '\\', '\'', '\''] + inside_quotes(s.skip(1))
    } else {
        seq![s[0]] + inside_quotes(s.skip(1))
    }
}

/// `s` quoted for the shell.
pub open spec fn shell_quoted(s: Seq<char>) -> Seq<char> {
    seq!['\''] + inside_quotes(s) + seq!['\'']
}

/// `c` before a word, if there is one.
pub open spec fn char_before(c: char, w: Option<Seq<char>>) -> Option<Seq<char>> {
    match w {
        Some(r) => Some(seq![c] + r),
        None => None,
    }
}

/// How the shell reads a word that is made of single-quoted parts and of escaped characters
/// only: the text it stands for. `quoted` says whether the reading starts inside quotes.
/// Nothing where the quotes stay open or where something else stands outside them.
pub open spec fn shell_word(s: Seq<char>, quoted: bool) -> Option<Seq<char>>
    decreases s.len(),
{
    if s.len() == 0 {
        if quoted {
            None
        } else {
            Some(s)
        }
    } else if quoted {
        if s[0] == '\'' {
            shell_word(s.skip(1), false)
        } else {
            char_before(s[0], shell_word(s.skip(1), true))
        }
    } else if s[0] == '\'' {
        shell_word(s.skip(1), true)
    } else if s[0] == '\\' && s.len() >= 2 {
        char_before(s[1], shell_word(s.skip(2), false))
    } else {
        None
    }
}

/// The hook command for the message at `file`: every `%%mail_path%%` stands for the quoted path.
pub open spec fn command_for(command: Seq<char>, file: Seq<char>) -> Seq<char> {
    text::join(text::split(command, "%%mail_path%%"@), shell_quoted(file))
}

// ---------------------------------------------------------------------------
// Operations
// ---------------------------------------------------------------------------

/// `s` in single quotes, so that the shell takes it as one word.
pub fn shell_quote(s: &str) -> (r: String)
    ensures
        r@ == shell_quoted(s@),
{
    let v = text::chars_of(s);
    let mut r = String::new();
    r.push('\'');
    let mut i: usize = 0;
    proof {
        assert(v@.skip(0) =~= v@);
        assert(r@ =~= seq!['\'']);
    }
    while i < v.len()
        invariant
            i <= v@.len(),
            r@ + inside_quotes(v@.skip(i as int)) == seq!['\''] + inside_quotes(v@),
        decreases v@.len() - i,
    {
        let ghost done = r@;
        let ghost rest = v@.skip(i as int);
        assert(rest[0] == v@[i as int]);
        assert(rest.skip(1) =~= v@.skip(i + 1));
        if v[i] == '\'' {
            r.push('\'');
            r.push('\\');
            r.push('\'');
            r.push('\'');
        } else {
            r.push(v[i]);
        }
        i = i + 1;
        assert(r@ + inside_quotes(v@.skip(i as int)) =~= done + inside_quotes(rest));
    }
    proof {
        assert(v@.skip(i as int) =~= Seq::empty());
        assert(r@ + inside_quotes(v@.skip(i as int)) =~= r@);
    }
    r.push('\'');
    assert(r@ =~= shell_quoted(s@));
    r
}

/// The hook command to run for the message at `file`.
pub fn mail_received(command: &str, file: &str) -> (r: String)
    ensures
        r@ == command_for(command@, file@),
{
    proof {
        reveal_strlit("%%mail_path%%");
    }
    let parts = text::split_by(command, "%%mail_path%%");
    text::join_with(&parts, shell_quote(file).as_str())
}

/// What to say of a hook that failed; it is only reported.
pub fn failed(acc: &str, name: &str, why: &str) -> (r: String)
    ensures
        r@ == acc@ + "/"@ + name@ + ": hook mail_received failed: "@ + why@,
{
    acc.to_owned().concat("/").concat(name).concat(": hook mail_received failed: ").concat(why)
}

// ---------------------------------------------------------------------------
// Laws
// ---------------------------------------------------------------------------

/// Reading what stands inside quotes goes on with what follows it.
proof fn lemma_reads_inside(s: Seq<char>, rest: Seq<char>)
    ensures
        shell_word(inside_quotes(s) + rest, true) == (match shell_word(rest, true) {
            Some(r) => Some(s + r),
            None => None,
        }),
    decreases s.len(),
{
    let all = inside_quotes(s) + rest;
    if s.len() == 0 {
        assert(all =~= rest);
        if let Some(r) = shell_word(rest, true) {
            assert(s + r =~= r);
        }
    } else {
        let tail = inside_quotes(s.skip(1)) + rest;
        lemma_reads_inside(s.skip(1), rest);
        if s[0] == '\'' {
            assert(all[0] == '\'' && all[1] == '\\' && all[2] == '\'' && all[3] == '\'');
            let a = all.skip(1);
            assert(a[0] == '\\' && a[1] == '\'');
            let b = a.skip(2);
            assert(b[0] == '\'');
            assert(b.skip(1) =~= tail);
            assert(shell_word(b, false) == shell_word(tail, true));
            assert(shell_word(a, false) == char_before('\'', shell_word(b, false)));
            assert(shell_word(all, true) == shell_word(a, false));
        } else {
            assert(all[0] == s[0]);
            assert(all.skip(1) =~= tail);
        }
        if let Some(r) = shell_word(rest, true) {
            assert(seq![s[0]] + (s.skip(1) + r) =~= s + r);
        }
    }
}

/// The shell reads a quoted text back as exactly that text, whatever it holds.
pub proof fn law_shell_reads_back(s: Seq<char>)
    ensures
        shell_word(shell_quoted(s), false) == Some(s),
{
    let all = shell_quoted(s);
    let close = seq!['\''];
    assert(all[0] == '\'');
    assert(all.skip(1) =~= inside_quotes(s) + close);
    lemma_reads_inside(s, close);
    assert(close.skip(1) =~= Seq::empty());
    assert(shell_word(close.skip(1), false) == Some(Seq::<char>::empty()));
    assert(shell_word(close, true) == Some(Seq::<char>::empty()));
    assert(s + Seq::<char>::empty() =~= s);
}

/// A command without the placeholder runs as it is.
pub proof fn law_command_without_placeholder(command: Seq<char>, file: Seq<char>)
    requires
        forall|i: int| !text::occurs_at(command, "%%mail_path%%"@, i),
    ensures
        command_for(command, file) == command,
{
    text::lemma_split_none(command, "%%mail_path%%"@);
}

/// How a text is quoted: as it is between single quotes, and at each quote of its own the
/// quoting stops, an escaped quote follows, and it starts again.
pub proof fn law_quoting_by_parts(a: Seq<char>, b: Seq<char>)
    requires
        !a.contains('\''),
    ensures
        shell_quoted(a) == seq!['\''] + a + seq!['\''],
        shell_quoted(a + seq!['\''] + b) == shell_quoted(a) + seq!['\\', '\''] + shell_quoted(b),
    decreases a.len(),
{
    let q = seq!['\''];
    lemma_inside_plain(a, Seq::empty());
    lemma_inside_plain(a, q + b);
    assert(a + Seq::<char>::empty() =~= a);
    assert(a + (q + b) =~= a + q + b);
    assert(inside_quotes(Seq::<char>::empty()) =~= Seq::empty());
    assert(inside_quotes(a) =~= a);
    assert((q + b)[0] == '\'');
    assert((q + b).skip(1) =~= b);
    assert(inside_quotes(q + b) == seq!['\'', '\\', '\'', '\''] + inside_quotes(b));
    assert(shell_quoted(a + q + b) =~= shell_quoted(a) + seq!['\\', '\''] + shell_quoted(b));
}

/// Text without quotes stands inside quotes as it is.
proof fn lemma_inside_plain(a: Seq<char>, b: Seq<char>)
    requires
        !a.contains('\''),
    ensures
        inside_quotes(a + b) == a + inside_quotes(b),
    decreases a.len(),
{
    if a.len() == 0 {
        assert(a + b =~= b);
        assert(a + inside_quotes(b) =~= inside_quotes(b));
    } else {
        let rest = a.skip(1);
        assert(a.contains(a[0]));
        assert(!rest.contains('\'')) by {
            if rest.contains('\'') {
                let i = choose|i: int| 0 <= i < rest.len() && rest[i] == '\'';
                assert(a[i + 1] == '\'');
            }
        }
        lemma_inside_plain(rest, b);
        assert((a + b)[0] == a[0]);
        assert((a + b).skip(1) =~= rest + b);
        assert(inside_quotes(a + b) =~= a + inside_quotes(b));
    }
}

/// Every placeholder of a command gives way to the quoted path, and nothing else changes.
pub proof fn law_every_placeholder_is_replaced(a: Seq<char>, b: Seq<char>, file: Seq<char>)
    requires
        forall|j: int|
            0 <= j < a.len() ==> #[trigger] (a + "%%mail_path%%"@ + b).subrange(j, j + 13)
                != "%%mail_path%%"@,
    ensures
        command_for(a + "%%mail_path%%"@ + b, file) == a + shell_quoted(file) + command_for(b, file),
{
    reveal_strlit("%%mail_path%%");
    let mark = "%%mail_path%%"@;
    let by = shell_quoted(file);
    assert forall|j: int| 0 <= j < a.len() implies #[trigger] (a + mark + b).subrange(
        j,
        j + mark.len(),
    ) != mark by {
        assert((a + mark + b).subrange(j, j + 13) != mark);
    }
    text::law_split_at_the_leftmost(a, mark, b);
    text::law_split_join(b, mark);
    let rest = text::split(b, mark);
    let all = seq![a] + rest;
    assert(all.skip(1) =~= rest);
    assert(text::join(all, by) == a + by + text::join(rest, by));
}

} // verus!
