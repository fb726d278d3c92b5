//! Comments in the config file: `//` to the end of the line, and `/*` to `*/`.

use crate::text;
use vstd::prelude::*;

verus! {

// ---------------------------------------------------------------------------
// Models
// ---------------------------------------------------------------------------

/// Where a string literal that has been read up to `i` ends: behind the next quote that no
/// backslash escapes, or at the end of the text.
pub open spec fn literal_end(s: Seq<char>, i: int) -> int
    decreases s.len() + 1 - i,
{
    if i >= s.len() {
        s.len() as int
    } else if s[i] == '"' {
        i + 1
    } else if s[i] == '\\' {
        literal_end(s, i + 2)
    } else {
        literal_end(s, i + 1)
    }
}

/// Where the line that has been read up to `i` ends.
pub open spec fn line_end(s: Seq<char>, i: int) -> int
    decreases s.len() - i,
{
    if i >= s.len() {
        s.len() as int
    } else if s[i] == '\n' {
        i
    } else {
        line_end(s, i + 1)
    }
}

/// A space for every character but the line breaks.
pub open spec fn blank(s: Seq<char>) -> Seq<char> {
    s.map_values(
        |c: char|
            if c == '\n' {
                '\n'
            } else {
                ' '
            },
    )
}

/// `s` starts with the two characters `a` and `b`.
pub open spec fn starts(s: Seq<char>, a: char, b: char) -> bool {
    s.len() >= 2 && s[0] == a && s[1] == b
}

/// `front` before what comes out of the rest, if anything does.
pub open spec fn before(front: Seq<char>, rest: Option<Seq<char>>) -> Option<Seq<char>> {
    match rest {
        Some(r) => Some(front + r),
        None => None,
    }
}

/// The text with every comment blanked out; nothing where a `/*` has no `*/`. What looks like
/// a comment inside a string literal is none.
pub open spec fn without_comments(s: Seq<char>) -> Option<Seq<char>>
    decreases s.len(),
    via without_comments_decreases
{
    if s.len() == 0 {
        Some(s)
    } else if s[0] == '"' {
        let n = literal_end(s, 1);
        before(s.take(n), without_comments(s.skip(n)))
    } else if starts(s, '/', '/') {
        let n = line_end(s, 2);
        before(blank(s.take(n)), without_comments(s.skip(n)))
    } else if starts(s, '/', '*') {
        if exists|i: int| text::first_at(s.skip(2), seq!['*', '/'], i) {
            let n = choose|i: int| text::first_at(s.skip(2), seq!['*', '/'], i);
            before(blank(s.take(n + 4)), without_comments(s.skip(n + 4)))
        } else {
            None
        }
    } else {
        before(s.take(1), without_comments(s.skip(1)))
    }
}

#[via_fn]
proof fn without_comments_decreases(s: Seq<char>) {
    if s.len() > 0 {
        lemma_literal_end(s, 1);
        if starts(s, '/', '/') {
            lemma_line_end(s, 2);
        }
    }
}

proof fn lemma_literal_end(s: Seq<char>, i: int)
    requires
        0 <= i,
    ensures
        i <= s.len() ==> i <= literal_end(s, i) <= s.len(),
        literal_end(s, i) <= s.len(),
    decreases s.len() + 1 - i,
{
    if i < s.len() && s[i] != '"' {
        if s[i] == '\\' {
            lemma_literal_end(s, i + 2);
        } else {
            lemma_literal_end(s, i + 1);
        }
    }
}

proof fn lemma_line_end(s: Seq<char>, i: int)
    requires
        0 <= i <= s.len(),
    ensures
        i <= line_end(s, i) <= s.len(),
    decreases s.len() - i,
{
    if i < s.len() && s[i] != '\n' {
        lemma_line_end(s, i + 1);
    }
}

// ---------------------------------------------------------------------------
// Operation
// ---------------------------------------------------------------------------

/// [`literal_end`] and [`line_end`] of a suffix are those of the whole, moved.
proof fn lemma_ends_skip(s: Seq<char>, pos: int, i: int)
    requires
        0 <= pos <= s.len(),
        0 <= i,
    ensures
        pos + i <= s.len() ==> literal_end(s.skip(pos), i) + pos == literal_end(s, pos + i),
        pos + i <= s.len() ==> line_end(s.skip(pos), i) + pos == line_end(s, pos + i),
        pos + i > s.len() ==> literal_end(s.skip(pos), i) + pos == s.len(),
        pos + i > s.len() ==> literal_end(s, pos + i) == s.len(),
    decreases s.len() + 1 - pos - i,
{
    if pos + i < s.len() {
        assert(s.skip(pos)[i] == s[pos + i]);
        lemma_ends_skip(s, pos, i + 1);
        lemma_ends_skip(s, pos, i + 2);
    }
}

/// Position behind the string literal of which everything before `from` has been read.
fn end_of_literal(v: &Vec<char>, from: usize) -> (r: usize)
    requires
        from <= v@.len(),
    ensures
        r == literal_end(v@, from as int),
        from <= r <= v@.len(),
{
    let n: usize = v.len();
    let mut i: usize = from;
    while i < n
        invariant
            from <= i <= n,
            n == v@.len(),
            literal_end(v@, i as int) == literal_end(v@, from as int),
        decreases n - i,
    {
        if v[i] == '"' {
            return i + 1;
        }
        if v[i] == '\\' {
            if n - i <= 2 {
                assert(literal_end(v@, i + 2) == n);
                return n;
            }
            i = i + 2;
        } else {
            i = i + 1;
        }
    }
    i
}

/// Position of the end of the line of which everything before `from` has been read.
fn end_of_line(v: &Vec<char>, from: usize) -> (r: usize)
    requires
        from <= v@.len(),
    ensures
        r == line_end(v@, from as int),
        from <= r <= v@.len(),
{
    let mut i: usize = from;
    while i < v.len() && v[i] != '\n'
        invariant
            from <= i <= v@.len(),
            line_end(v@, i as int) == line_end(v@, from as int),
        decreases v@.len() - i,
    {
        i = i + 1;
    }
    i
}

/// Appends the characters `from..to` of `v`.
fn copy(out: &mut String, v: &Vec<char>, from: usize, to: usize)
    requires
        from <= to <= v@.len(),
    ensures
        final(out)@ == old(out)@ + v@.subrange(from as int, to as int),
{
    let ghost start = out@;
    let mut i: usize = from;
    assert(out@ =~= start + v@.subrange(from as int, i as int));
    while i < to
        invariant
            from <= i <= to <= v@.len(),
            out@ == start + v@.subrange(from as int, i as int),
        decreases to - i,
    {
        out.push(v[i]);
        i = i + 1;
        assert(out@ =~= start + v@.subrange(from as int, i as int));
    }
}

/// Appends a space for each of the characters `from..to` of `v` but the line breaks.
fn copy_blank(out: &mut String, v: &Vec<char>, from: usize, to: usize)
    requires
        from <= to <= v@.len(),
    ensures
        final(out)@ == old(out)@ + blank(v@.subrange(from as int, to as int)),
{
    let ghost start = out@;
    let mut i: usize = from;
    assert(out@ =~= start + blank(v@.subrange(from as int, i as int)));
    while i < to
        invariant
            from <= i <= to <= v@.len(),
            out@ == start + blank(v@.subrange(from as int, i as int)),
        decreases to - i,
    {
        if v[i] == '\n' {
            out.push('\n');
        } else {
            out.push(' ');
        }
        i = i + 1;
        assert(out@ =~= start + blank(v@.subrange(from as int, i as int)));
    }
}

/// What has been put out, before what comes out of the rest, is the result of the whole.
proof fn lemma_before(a: Seq<char>, b: Seq<char>, rest: Option<Seq<char>>)
    ensures
        before(a, before(b, rest)) == before(a + b, rest),
{
    if let Some(r) = rest {
        assert(a + (b + r) =~= (a + b) + r);
    }
}

/// The text with every comment blanked out, so that a JSON parser takes it and still reports
/// the right positions. `None` where a `/*` has no `*/`.
pub fn strip_comments(source: &str) -> (r: Option<String>)
    ensures
        match r {
            Some(t) => without_comments(source@) == Some(t@),
            None => without_comments(source@) is None,
        },
{
    let v = text::chars_of(source);
    let n: usize = v.len();
    let close = text::chars_of("*/");
    let mut out = String::new();
    let mut pos: usize = 0;
    proof {
        reveal_strlit("*/");
        assert("*/"@ =~= seq!['*', '/']);
        assert(v@.skip(0) =~= v@);
        assert(before(out@, without_comments(v@)) == without_comments(v@)) by {
            if let Some(r) = without_comments(v@) {
                assert(out@ + r =~= r);
            }
        }
    }
    while pos < n
        invariant
            pos <= n,
            n == v@.len(),
            v@ == source@,
            close@ == seq!['*', '/'],
            before(out@, without_comments(v@.skip(pos as int))) == without_comments(v@),
        decreases n - pos,
    {
        let ghost rest = v@.skip(pos as int);
        let ghost done = out@;
        assert(rest[0] == v@[pos as int]);
        let mut to: usize = pos + 1;
        let mut comment: bool = false;
        if v[pos] == '"' {
            to = end_of_literal(&v, pos + 1);
            proof {
                lemma_ends_skip(v@, pos as int, 1);
            }
        } else if v[pos] == '/' && n - pos >= 2 && v[pos + 1] == '/' {
            to = end_of_line(&v, pos + 2);
            comment = true;
            proof {
                assert(rest[1] == v@[pos + 1]);
                lemma_ends_skip(v@, pos as int, 2);
            }
        } else if v[pos] == '/' && n - pos >= 2 && v[pos + 1] == '*' {
            comment = true;
            assert(rest[1] == v@[pos + 1]);
            assert(rest.skip(2) =~= v@.skip(pos + 2));
            match text::find(&v, &close, pos + 2) {
                Some(i) => {
                    proof {
                        let k = i - pos - 2;
                        text::lemma_first_in_suffix(v@, close@, pos + 2, k);
                        let m = choose|m: int| text::first_at(rest.skip(2), seq!['*', '/'], m);
                        text::lemma_first_unique(rest.skip(2), close@, k, m);
                    }
                    to = i + 2;
                },
                None => {
                    proof {
                        if exists|m: int| text::first_at(rest.skip(2), seq!['*', '/'], m) {
                            let m = choose|m: int|
                                text::first_at(rest.skip(2), seq!['*', '/'], m);
                            text::lemma_occurs_skip(v@, close@, pos + 2, m);
                        }
                    }
                    return None;
                },
            }
        } else {
            assert(!starts(rest, '/', '/') && !starts(rest, '/', '*')) by {
                if rest.len() >= 2 {
                    assert(rest[1] == v@[pos + 1]);
                }
            }
        }
        proof {
            assert(rest.take(to - pos) =~= v@.subrange(pos as int, to as int));
            assert(rest.skip(to - pos) =~= v@.skip(to as int));
        }
        if comment {
            copy_blank(&mut out, &v, pos, to);
            proof {
                lemma_before(
                    done,
                    blank(rest.take(to - pos)),
                    without_comments(v@.skip(to as int)),
                );
            }
        } else {
            copy(&mut out, &v, pos, to);
            proof {
                lemma_before(done, rest.take(to - pos), without_comments(v@.skip(to as int)));
            }
        }
        pos = to;
    }
    proof {
        assert(v@.skip(pos as int) =~= Seq::empty());
        assert(out@ + v@.skip(pos as int) =~= out@);
    }
    Some(out)
}

// ---------------------------------------------------------------------------
// Laws
// ---------------------------------------------------------------------------

/// Stripping keeps every position: the result has the length of the text, line breaks stay,
/// and every other character either stays or becomes a space.
pub proof fn law_positions_stay(s: Seq<char>)
    requires
        without_comments(s) is Some,
    ensures
        ({
            let t = without_comments(s)->0;
            &&& t.len() == s.len()
            &&& forall|i: int| 0 <= i < s.len() ==> t[i] == s[i] || (t[i] == ' ' && s[i] != '\n')
        }),
    decreases s.len(),
{
    if s.len() > 0 {
        lemma_literal_end(s, 1);
        let k = if s[0] == '"' {
            literal_end(s, 1)
        } else if starts(s, '/', '/') {
            lemma_line_end(s, 2);
            line_end(s, 2)
        } else if starts(s, '/', '*') {
            (choose|i: int| text::first_at(s.skip(2), seq!['*', '/'], i)) + 4
        } else {
            1
        };
        law_positions_stay(s.skip(k));
        let t = without_comments(s)->0;
        let r = without_comments(s.skip(k))->0;
        let front = if s[0] == '"' || !(starts(s, '/', '/') || starts(s, '/', '*')) {
            s.take(k)
        } else {
            blank(s.take(k))
        };
        assert(t == front + r);
        assert forall|i: int| 0 <= i < s.len() implies t[i] == s[i] || (t[i] == ' ' && s[i]
            != '\n') by {
            if i < k {
                assert(s.take(k)[i] == s[i]);
                assert(t[i] == front[i]);
            } else {
                assert(s.skip(k)[i - k] == s[i]);
                assert(t[i] == r[i - k]);
            }
        }
    }
}

/// A text in which no `/` is followed by `/` or `*` is left as it is.
pub proof fn law_no_comment_no_change(s: Seq<char>)
    requires
        forall|i: int|
            0 <= i < s.len() - 1 && #[trigger] s[i] == '/' ==> s[i + 1] != '/' && s[i + 1] != '*',
    ensures
        without_comments(s) == Some(s),
    decreases s.len(),
{
    if s.len() > 0 {
        lemma_literal_end(s, 1);
        let n = if s[0] == '"' {
            literal_end(s, 1)
        } else {
            1
        };
        let rest = s.skip(n);
        assert forall|i: int| 0 <= i < rest.len() - 1 && #[trigger] rest[i] == '/' implies rest[i
            + 1] != '/' && rest[i + 1] != '*' by {
            assert(s[i + n] == rest[i]);
        }
        law_no_comment_no_change(rest);
        assert(s.take(n) + rest =~= s);
    }
}

/// A string literal at the start of a text comes through unchanged, whatever it holds.
pub proof fn law_leading_literal_stays(s: Seq<char>)
    requires
        s.len() > 0,
        s[0] == '"',
        without_comments(s) is Some,
    ensures
        without_comments(s)->0.take(literal_end(s, 1)) == s.take(literal_end(s, 1)),
{
    lemma_literal_end(s, 1);
    let n = literal_end(s, 1);
    let r = without_comments(s.skip(n))->0;
    assert((s.take(n) + r).take(n) =~= s.take(n));
}

// ---------------------------------------------------------------------------
// What stripping does, piece by piece
// ---------------------------------------------------------------------------

/// An empty text stays empty, and a character that starts neither a comment nor a literal stays
/// as it is.
pub proof fn law_plain_characters_stay(c: char, rest: Seq<char>)
    requires
        c != '"',
        c == '/' && rest.len() > 0 ==> rest[0] != '/' && rest[0] != '*',
    ensures
        without_comments(Seq::empty()) == Some(Seq::<char>::empty()),
        without_comments(rest) is None ==> without_comments(seq![c] + rest) is None,
        without_comments(rest) is Some ==> without_comments(seq![c] + rest) == Some(
            seq![c] + without_comments(rest)->0,
        ),
{
    let s = seq![c] + rest;
    assert(s[0] == c);
    assert(s.skip(1) =~= rest);
    assert(s.take(1) =~= seq![c]);
    if s.len() >= 2 {
        assert(s[1] == rest[0]);
    }
}

/// The end of a line that holds no line break before it.
proof fn lemma_line_end_at(s: Seq<char>, i: int, n: int)
    requires
        0 <= i <= n <= s.len(),
        forall|k: int| i <= k < n ==> #[trigger] s[k] != '\n',
        n < s.len() ==> s[n] == '\n',
    ensures
        line_end(s, i) == n,
    decreases n - i,
{
    if i < n {
        lemma_line_end_at(s, i + 1, n);
    }
}

/// `//` and the rest of its line become spaces; the line break stays.
pub proof fn law_line_comments_become_spaces(x: Seq<char>, rest: Seq<char>)
    requires
        !x.contains('\n'),
        rest.len() > 0 ==> rest[0] == '\n',
    ensures
        ({
            let s = seq!['/', '/'] + x + rest;
            let spaces = Seq::new(x.len() + 2, |i: int| ' ');
            &&& without_comments(rest) is None ==> without_comments(s) is None
            &&& without_comments(rest) is Some ==> without_comments(s) == Some(
                spaces + without_comments(rest)->0,
            )
        }),
{
    let s = seq!['/', '/'] + x + rest;
    let n = x.len() + 2;
    let spaces = Seq::new(x.len() + 2, |i: int| ' ');
    assert forall|k: int| 2 <= k < n implies #[trigger] s[k] != '\n' by {
        assert(s[k] == x[k - 2]);
        assert(x.contains(x[k - 2]));
    }
    if n < s.len() {
        assert(s[n as int] == rest[0]);
    }
    lemma_line_end_at(s, 2, n as int);
    assert(s.skip(n as int) =~= rest);
    assert(blank(s.take(n as int)) =~= spaces) by {
        assert forall|i: int| 0 <= i < n implies s[i] != '\n' by {
            if i >= 2 {
                assert(s[i] != '\n');
            }
        }
    }
}

/// `/*` and everything up to the first `*/` become spaces, but for the line breaks.
pub proof fn law_block_comments_become_spaces(x: Seq<char>, rest: Seq<char>)
    requires
        forall|j: int| 0 <= j < x.len() - 1 && #[trigger] x[j] == '*' ==> x[j + 1] != '/',
    ensures
        ({
            let comment = seq!['/', '*'] + x + seq!['*', '/'];
            let s = comment + rest;
            let spaces = Seq::new(
                comment.len(),
                |i: int|
                    if comment[i] == '\n' {
                        '\n'
                    } else {
                        ' '
                    },
            );
            &&& without_comments(rest) is None ==> without_comments(s) is None
            &&& without_comments(rest) is Some ==> without_comments(s) == Some(
                spaces + without_comments(rest)->0,
            )
        }),
{
    let close = seq!['*', '/'];
    let comment = seq!['/', '*'] + x + close;
    let s = comment + rest;
    let n = x.len() as int;
    let tail = s.skip(2);
    assert(tail =~= x + close + rest);
    assert(tail.subrange(n, n + 2) =~= close);
    assert forall|j: int| 0 <= j < n implies !text::occurs_at(tail, close, j) by {
        if text::occurs_at(tail, close, j) {
            assert(tail.subrange(j, j + 2)[0] == '*' && tail.subrange(j, j + 2)[1] == '/');
            assert(tail[j] == x[j]);
        }
    }
    assert(text::first_at(tail, close, n));
    let m = choose|i: int| text::first_at(tail, close, i);
    text::lemma_first_unique(tail, close, n, m);
    assert(s[0] == '/' && s[1] == '*');
    assert(s.skip(n + 4) =~= rest);
    assert(s.take(n + 4) =~= comment);
    assert(blank(comment) =~= Seq::new(
        comment.len(),
        |i: int|
            if comment[i] == '\n' {
                '\n'
            } else {
                ' '
            },
    ));
}

/// A `/*` without `*/` is refused.
pub proof fn law_open_block_comments_are_refused(x: Seq<char>)
    requires
        forall|j: int| 0 <= j < x.len() - 1 && #[trigger] x[j] == '*' ==> x[j + 1] != '/',
    ensures
        without_comments(seq!['/', '*'] + x) is None,
{
    let s = seq!['/', '*'] + x;
    assert(s.skip(2) =~= x);
    assert(s[0] == '/' && s[1] == '*');
    if exists|i: int| text::first_at(s.skip(2), seq!['*', '/'], i) {
        let i = choose|i: int| text::first_at(s.skip(2), seq!['*', '/'], i);
        assert(x.subrange(i, i + 2)[0] == '*' && x.subrange(i, i + 2)[1] == '/');
        assert(x[i] == '*');
    }
}

/// What can stand in a string literal: a character that is neither quote nor backslash, or a
/// backslash and any character.
pub open spec fn literal_piece(p: Seq<char>) -> bool {
    ||| p.len() == 1 && p[0] != '"' && p[0] != '\\'
    ||| p.len() == 2 && p[0] == '\\'
}

/// The pieces of a literal are read one by one.
proof fn lemma_literal_pieces(front: Seq<char>, pieces: Seq<Seq<char>>, rest: Seq<char>)
    requires
        forall|i: int| 0 <= i < pieces.len() ==> literal_piece(#[trigger] pieces[i]),
    ensures
        literal_end(front + pieces.flatten() + rest, front.len() as int) == literal_end(
            front + pieces.flatten() + rest,
            (front.len() + pieces.flatten().len()) as int,
        ),
    decreases pieces.len(),
{
    if pieces.len() > 0 {
        let p = pieces[0];
        let more = pieces.drop_first();
        assert(literal_piece(pieces[0]));
        assert forall|i: int| 0 <= i < more.len() implies literal_piece(#[trigger] more[i]) by {
            assert(more[i] == pieces[i + 1]);
        }
        lemma_literal_pieces(front + p, more, rest);
        let s = front + pieces.flatten() + rest;
        assert(pieces.flatten() == p + more.flatten());
        assert(s =~= (front + p) + more.flatten() + rest);
        assert(s[front.len() as int] == p[0]);
    }
}

/// A string literal stays as it is, whatever it holds, and comments are looked for again behind
/// it. One that is not closed goes on to the end of the text.
pub proof fn law_literals_stay(pieces: Seq<Seq<char>>, rest: Seq<char>, slash: bool)
    requires
        forall|i: int| 0 <= i < pieces.len() ==> literal_piece(#[trigger] pieces[i]),
    ensures
        ({
            let literal = seq!['"'] + pieces.flatten() + seq!['"'];
            &&& without_comments(rest) is None ==> without_comments(literal + rest) is None
            &&& without_comments(rest) is Some ==> without_comments(literal + rest) == Some(
                literal + without_comments(rest)->0,
            )
        }),
        ({
            let open = seq!['"'] + pieces.flatten() + (if slash {
                seq!['\\']
            } else {
                Seq::empty()
            });
            without_comments(open) == Some(open)
        }),
{
    let x = pieces.flatten();
    let literal = seq!['"'] + x + seq!['"'];
    let s = literal + rest;
    let n = literal.len() as int;
    lemma_literal_pieces(seq!['"'], pieces, seq!['"'] + rest);
    assert(s =~= seq!['"'] + x + (seq!['"'] + rest));
    assert(s[n - 1] == '"');
    assert(literal_end(s, 1) == n);
    assert(s.take(n) =~= literal);
    assert(s.skip(n) =~= rest);
    assert(s[0] == '"');
    let end = if slash {
        seq!['\\']
    } else {
        Seq::empty()
    };
    let open = seq!['"'] + x + end;
    lemma_literal_pieces(seq!['"'], pieces, end);
    let m = open.len() as int;
    if slash {
        assert(open[m - 1] == '\\');
        assert(literal_end(open, m + 1) == m);
    }
    assert(literal_end(open, 1) == m);
    assert(open[0] == '"');
    assert(open.skip(m) =~= Seq::empty());
    assert(without_comments(open.skip(m)) == Some(open.skip(m)));
    assert(without_comments(open) == before(open.take(m), Some(open.skip(m))));
    assert(open.take(m) + open.skip(m) =~= open);
}

} // verus!
