//! Text on the level of characters: splitting, trimming, and decimal numbers.

use vstd::prelude::*;
use vstd::string::StringExecFns;

verus! {

/// [`String::push`] appends one character.
pub assume_specification[ String::push ](s: &mut String, c: char)
    ensures
        final(s)@ == old(s)@.push(c),
;

// ---------------------------------------------------------------------------
// Models
// ---------------------------------------------------------------------------

/// `d` stands in `s` at position `i`.
pub open spec fn occurs_at(s: Seq<char>, d: Seq<char>, i: int) -> bool {
    &&& 0 <= i
    &&& i + d.len() <= s.len()
    &&& s.subrange(i, i + d.len()) == d
}

/// `i` is the leftmost position at which `d` stands in `s`.
pub open spec fn first_at(s: Seq<char>, d: Seq<char>, i: int) -> bool {
    &&& occurs_at(s, d, i)
    &&& forall|j: int| 0 <= j < i ==> !occurs_at(s, d, j)
}

/// The pieces of `s` between the occurrences of `d`, taken from the left without overlap.
/// There is always at least one piece.
pub open spec fn split(s: Seq<char>, d: Seq<char>) -> Seq<Seq<char>>
    decreases s.len(),
{
    if d.len() > 0 && exists|i: int| first_at(s, d, i) {
        let i = choose|i: int| first_at(s, d, i);
        seq![s.take(i)] + split(s.skip(i + d.len()), d)
    } else {
        seq![s]
    }
}

/// The pieces in order, with `d` between any two of them.
pub open spec fn join(pieces: Seq<Seq<char>>, d: Seq<char>) -> Seq<char>
    decreases pieces.len(),
{
    if pieces.len() == 0 {
        Seq::empty()
    } else if pieces.len() == 1 {
        pieces[0]
    } else {
        pieces[0] + d + join(pieces.skip(1), d)
    }
}

/// The characters with the Unicode property White_Space.
pub open spec fn is_white_space(c: char) -> bool {
    ||| '\u{9}' <= c <= '\u{d}'
    ||| c == ' '
    ||| c == '\u{85}'
    ||| c == '\u{a0}'
    ||| c == '\u{1680}'
    ||| '\u{2000}' <= c <= '\u{200a}'
    ||| c == '\u{2028}'
    ||| c == '\u{2029}'
    ||| c == '\u{202f}'
    ||| c == '\u{205f}'
    ||| c == '\u{3000}'
}

/// `s` without the white space at its end.
pub open spec fn trimmed_end(s: Seq<char>) -> Seq<char>
    decreases s.len(),
{
    if s.len() > 0 && is_white_space(s.last()) {
        trimmed_end(s.drop_last())
    } else {
        s
    }
}

/// `s` without the white space at its start.
pub open spec fn trimmed_start(s: Seq<char>) -> Seq<char>
    decreases s.len(),
{
    if s.len() > 0 && is_white_space(s[0]) {
        trimmed_start(s.skip(1))
    } else {
        s
    }
}

/// `s` without the white space at either end.
pub open spec fn trimmed(s: Seq<char>) -> Seq<char> {
    trimmed_start(trimmed_end(s))
}

pub open spec fn is_digit(c: char) -> bool {
    '0' <= c <= '9'
}

/// The value of one decimal digit.
pub open spec fn digit_value(c: char) -> nat {
    (c as u32 - '0' as u32) as nat
}

/// The decimal digit of value `d`.
pub open spec fn digit(d: nat) -> char {
    (d + '0' as u32) as char
}

pub open spec fn all_digits(s: Seq<char>) -> bool {
    forall|i: int| 0 <= i < s.len() ==> is_digit(#[trigger] s[i])
}

/// The number that a string of decimal digits denotes.
pub open spec fn number(s: Seq<char>) -> nat
    decreases s.len(),
{
    if s.len() == 0 {
        0
    } else {
        number(s.drop_last()) * 10 + digit_value(s.last())
    }
}

/// A `u32` in decimal notation: an optional `+`, then at least one digit, and the number must
/// be in range.
pub open spec fn parsed_u32(s: Seq<char>) -> Option<u32> {
    let d = if s.len() > 0 && s[0] == '+' {
        s.skip(1)
    } else {
        s
    };
    if d.len() > 0 && all_digits(d) && number(d) <= u32::MAX {
        Some(number(d) as u32)
    } else {
        None
    }
}

/// `n` in decimal notation, without leading zeros.
pub open spec fn decimal(n: nat) -> Seq<char>
    decreases n,
{
    if n < 10 {
        seq![digit(n)]
    } else {
        decimal(n / 10).push(digit(n % 10))
    }
}

/// `s` as the standard library's debug formatting shows it, in quotes and with escapes.
pub uninterp spec fn debug_form(s: Seq<char>) -> Seq<char>;

/// `bytes` read as UTF-8, with replacement characters where they are none.
pub uninterp spec fn lossy(bytes: Seq<u8>) -> Seq<char>;

// ---------------------------------------------------------------------------
// Characters and strings
// ---------------------------------------------------------------------------

/// The characters of `s`.
pub fn chars_of(s: &str) -> (r: Vec<char>)
    ensures
        r@ == s@,
{
    let mut r: Vec<char> = Vec::new();
    for c in it: s.chars()
        invariant
            it.seq() == s@,
            r@ == s@.take(it.index() as int),
    {
        r.push(c);
        assert(r@ =~= s@.take(it.index() + 1));
    }
    assert(s@.take(s@.len() as int) =~= s@);
    r
}

/// The characters `from..to` of `v` as a string.
pub fn string_of(v: &Vec<char>, from: usize, to: usize) -> (r: String)
    requires
        from <= to <= v@.len(),
    ensures
        r@ == v@.subrange(from as int, to as int),
{
    let mut r = String::new();
    let mut i: usize = from;
    while i < to
        invariant
            from <= i <= to <= v@.len(),
            r@ == v@.subrange(from as int, i as int),
        decreases to - i,
    {
        r.push(v[i]);
        i = i + 1;
        assert(r@ =~= v@.subrange(from as int, i as int));
    }
    r
}

/// Whether two strings hold the same characters.
pub fn same(a: &str, b: &str) -> (r: bool)
    ensures
        r == (a@ == b@),
{
    a.to_owned() == b.to_owned()
}

/// `{:?}` of a string, by the formatting of the standard library. The form itself is not
/// stated: it escapes by tables of printable characters.
#[verifier::external_body]
pub(crate) fn quoted(s: &str) -> (r: String)
    ensures
        r@ == debug_form(s@),
{
    format!("{:?}", s)
}

/// [`String::from_utf8_lossy`]: bytes that are valid UTF-8 are decoded; what the others become
/// is left to the standard library.
#[verifier::external_body]
pub(crate) fn utf8_lossy(bytes: &Vec<u8>) -> (r: String)
    ensures
        r@ == lossy(bytes@),
        vstd::utf8::valid_utf8(bytes@) ==> r@ == vstd::utf8::decode_utf8(bytes@),
{
    String::from_utf8_lossy(bytes).into_owned()
}

// ---------------------------------------------------------------------------
// Splitting and joining
// ---------------------------------------------------------------------------

/// The leftmost occurrence is unique.
pub proof fn lemma_first_unique(s: Seq<char>, d: Seq<char>, i: int, j: int)
    requires
        first_at(s, d, i),
        first_at(s, d, j),
    ensures
        i == j,
{
}

/// One step of [`split`] at a known leftmost occurrence.
pub proof fn lemma_split_at(s: Seq<char>, d: Seq<char>, i: int)
    requires
        d.len() > 0,
        first_at(s, d, i),
    ensures
        split(s, d) == seq![s.take(i)] + split(s.skip(i + d.len()), d),
{
    lemma_first_unique(s, d, i, choose|k: int| first_at(s, d, k));
}

/// A string in which `d` does not stand is its own only piece.
pub proof fn lemma_split_none(s: Seq<char>, d: Seq<char>)
    requires
        forall|i: int| !occurs_at(s, d, i),
    ensures
        split(s, d) == seq![s],
{
    if exists|i: int| first_at(s, d, i) {
        let i = choose|i: int| first_at(s, d, i);
        assert(occurs_at(s, d, i));
    }
}

/// Where `d` stands at all, it has a leftmost occurrence.
proof fn lemma_first_exists(s: Seq<char>, d: Seq<char>, i: int) -> (k: int)
    requires
        occurs_at(s, d, i),
    ensures
        first_at(s, d, k),
        k <= i,
    decreases i,
{
    if exists|j: int| 0 <= j < i && occurs_at(s, d, j) {
        let j = choose|j: int| 0 <= j < i && occurs_at(s, d, j);
        lemma_first_exists(s, d, j)
    } else {
        i
    }
}

/// Splitting loses nothing: joining the pieces gives the string back, and no piece holds the
/// delimiter.
pub proof fn law_split_join(s: Seq<char>, d: Seq<char>)
    requires
        d.len() > 0,
    ensures
        split(s, d).len() > 0,
        join(split(s, d), d) == s,
        forall|k: int, i: int|
            0 <= k < split(s, d).len() ==> !#[trigger] occurs_at(split(s, d)[k], d, i),
    decreases s.len(),
{
    if exists|i: int| first_at(s, d, i) {
        let i = choose|i: int| first_at(s, d, i);
        let rest = s.skip(i + d.len());
        law_split_join(rest, d);
        let all = split(s, d);
        assert(all == seq![s.take(i)] + split(rest, d));
        assert(all.skip(1) =~= split(rest, d));
        assert(join(all, d) =~= s) by {
            assert(s =~= s.take(i) + s.subrange(i, i + d.len()) + rest);
        }
        assert forall|k: int, j: int| 0 <= k < all.len() implies !#[trigger] occurs_at(
            all[k],
            d,
            j,
        ) by {
            if k == 0 {
                if occurs_at(all[0], d, j) {
                    assert(s.take(i).subrange(j, j + d.len()) =~= s.subrange(j, j + d.len()));
                    assert(occurs_at(s, d, j));
                }
            } else {
                assert(all[k] == split(rest, d)[k - 1]);
            }
        }
    } else {
        assert forall|j: int| !occurs_at(s, d, j) by {
            if occurs_at(s, d, j) {
                let k = lemma_first_exists(s, d, j);
            }
        }
        lemma_split_none(s, d);
    }
}

/// Splitting at a single character goes piece by piece over a concatenation.
pub proof fn lemma_split_concat(a: Seq<char>, c: char, b: Seq<char>)
    ensures
        split(a + seq![c] + b, seq![c]) == split(a, seq![c]) + split(b, seq![c]),
    decreases a.len(),
{
    let d = seq![c];
    let whole = a + d + b;
    if exists|i: int| first_at(a, d, i) {
        let i = choose|i: int| first_at(a, d, i);
        assert(whole.subrange(i, i + 1) =~= a.subrange(i, i + 1));
        assert forall|j: int| 0 <= j < i implies !occurs_at(whole, d, j) by {
            assert(!occurs_at(a, d, j));
            assert(whole.subrange(j, j + 1) =~= a.subrange(j, j + 1));
        }
        lemma_split_at(whole, d, i);
        assert(whole.take(i) =~= a.take(i));
        assert(whole.skip(i + 1) =~= a.skip(i + 1) + d + b);
        lemma_split_concat(a.skip(i + 1), c, b);
        assert(split(whole, d) =~= split(a, d) + split(b, d));
    } else {
        assert forall|j: int| !occurs_at(a, d, j) by {
            if occurs_at(a, d, j) {
                let k = lemma_first_exists(a, d, j);
            }
        }
        lemma_split_none(a, d);
        let i = a.len() as int;
        assert(whole.subrange(i, i + 1) =~= d);
        assert forall|j: int| 0 <= j < i implies !occurs_at(whole, d, j) by {
            assert(!occurs_at(a, d, j));
            assert(whole.subrange(j, j + 1) =~= a.subrange(j, j + 1));
        }
        lemma_split_at(whole, d, i);
        assert(whole.take(i) =~= a);
        assert(whole.skip(i + 1) =~= b);
    }
}

/// One more piece at the end.
pub proof fn lemma_join_push(pieces: Seq<Seq<char>>, last: Seq<char>, d: Seq<char>)
    requires
        pieces.len() > 0,
    ensures
        join(pieces.push(last), d) == join(pieces, d) + d + last,
    decreases pieces.len(),
{
    let all = pieces.push(last);
    assert(all.skip(1) =~= pieces.skip(1).push(last));
    if pieces.len() == 1 {
        assert(all.skip(1) =~= seq![last]);
        assert(join(seq![last], d) == last);
    } else {
        lemma_join_push(pieces.skip(1), last, d);
    }
    assert(join(all, d) =~= join(pieces, d) + d + last);
}

/// A string without the character `c` is its own only piece.
pub proof fn lemma_split_absent(s: Seq<char>, c: char)
    requires
        !s.contains(c),
    ensures
        split(s, seq![c]) == seq![s],
{
    assert forall|i: int| !occurs_at(s, seq![c], i) by {
        if occurs_at(s, seq![c], i) {
            assert(s.subrange(i, i + 1)[0] == c);
            assert(s[i] == c);
        }
    }
    lemma_split_none(s, seq![c]);
}

/// Whether `d` stands in `s` at position `i`.
fn stands_at(s: &Vec<char>, d: &Vec<char>, i: usize) -> (r: bool)
    requires
        i <= s@.len(),
    ensures
        r == occurs_at(s@, d@, i as int),
{
    if s.len() - i < d.len() {
        return false;
    }
    let n: usize = s.len();
    let mut k: usize = 0;
    while k < d.len()
        invariant
            n == s@.len(),
            i + d@.len() <= n,
            k <= d@.len(),
            forall|m: int| 0 <= m < k ==> s@[i + m] == #[trigger] d@[m],
        decreases d@.len() - k,
    {
        if s[i + k] != d[k] {
            assert(s@.subrange(i as int, i + d@.len())[k as int] != d@[k as int]);
            return false;
        }
        k = k + 1;
    }
    assert(s@.subrange(i as int, i + d@.len()) =~= d@);
    true
}

/// Position of the leftmost occurrence of `d` in `s` at `from` or later.
pub(crate) fn find(s: &Vec<char>, d: &Vec<char>, from: usize) -> (r: Option<usize>)
    requires
        from <= s@.len(),
    ensures
        match r {
            Some(i) => {
                &&& from <= i
                &&& occurs_at(s@, d@, i as int)
                &&& forall|j: int| from <= j < i ==> !occurs_at(s@, d@, j)
            },
            None => forall|j: int| from <= j ==> !occurs_at(s@, d@, j),
        },
{
    let mut i: usize = from;
    while i < s.len()
        invariant
            from <= i <= s@.len(),
            forall|j: int| from <= j < i ==> !occurs_at(s@, d@, j),
        decreases s@.len() - i,
    {
        if stands_at(s, d, i) {
            return Some(i);
        }
        i = i + 1;
    }
    if stands_at(s, d, i) {
        return Some(i);
    }
    None
}

/// The views of a list of strings.
pub open spec fn views(v: Seq<String>) -> Seq<Seq<char>> {
    v.map_values(|s: String| s@)
}

/// Occurrences in a suffix are those of the whole, moved.
pub proof fn lemma_occurs_skip(s: Seq<char>, d: Seq<char>, from: int, j: int)
    requires
        0 <= from <= s.len(),
        0 <= j,
    ensures
        occurs_at(s.skip(from), d, j) == occurs_at(s, d, from + j),
{
    if from + j + d.len() <= s.len() {
        assert(s.skip(from).subrange(j, j + d.len()) =~= s.subrange(
            from + j,
            from + j + d.len(),
        ));
    }
}

/// The first occurrence from `from` on is the leftmost one in the suffix.
pub proof fn lemma_first_in_suffix(s: Seq<char>, d: Seq<char>, from: int, k: int)
    requires
        0 <= from <= s.len(),
        0 <= k,
        occurs_at(s, d, from + k),
        forall|j: int| from <= j < from + k ==> !occurs_at(s, d, j),
    ensures
        first_at(s.skip(from), d, k),
{
    lemma_occurs_skip(s, d, from, k);
    assert forall|j: int| 0 <= j < k implies !occurs_at(s.skip(from), d, j) by {
        lemma_occurs_skip(s, d, from, j);
    }
}

/// The pieces of `text` between the occurrences of `delim`.
pub fn split_by(text: &str, delim: &str) -> (r: Vec<String>)
    requires
        delim@.len() > 0,
    ensures
        views(r@) == split(text@, delim@),
        r@.len() > 0,
{
    let s = chars_of(text);
    let d = chars_of(delim);
    let n: usize = s.len();
    let mut r: Vec<String> = Vec::new();
    let mut pos: usize = 0;
    proof {
        assert(s@.skip(0) =~= s@);
        assert(views(r@) + split(s@.skip(0), d@) =~= split(s@, d@));
    }
    loop
        invariant_except_break
            pos <= s@.len(),
            n == s@.len(),
            d@.len() > 0,
            views(r@) + split(s@.skip(pos as int), d@) == split(s@, d@),
        ensures
            views(r@) == split(s@, d@),
            r@.len() > 0,
        decreases s@.len() - pos,
    {
        let ghost before = views(r@);
        let ghost rest = s@.skip(pos as int);
        match find(&s, &d, pos) {
            Some(i) => {
                r.push(string_of(&s, pos, i));
                proof {
                    lemma_first_in_suffix(s@, d@, pos as int, i - pos);
                    lemma_split_at(rest, d@, i - pos);
                    assert(rest.skip(i - pos + d@.len()) =~= s@.skip(i + d@.len()));
                    assert(rest.take(i - pos) =~= s@.subrange(pos as int, i as int));
                    assert(views(r@) =~= before.push(rest.take(i - pos)));
                    assert(views(r@) + split(s@.skip(i + d@.len()), d@) =~= before + split(
                        rest,
                        d@,
                    ));
                }
                pos = i + d.len();
            },
            None => {
                r.push(string_of(&s, pos, s.len()));
                proof {
                    assert forall|j: int| !occurs_at(rest, d@, j) by {
                        if 0 <= j {
                            lemma_occurs_skip(s@, d@, pos as int, j);
                        }
                    }
                    lemma_split_none(rest, d@);
                    assert(s@.subrange(pos as int, s@.len() as int) =~= rest);
                    assert(views(r@) =~= before + seq![rest]);
                }
                break;
            },
        }
    }
    r
}

/// The pieces in order, with `delim` between any two of them.
pub fn join_with(pieces: &Vec<String>, delim: &str) -> (r: String)
    ensures
        r@ == join(views(pieces@), delim@),
{
    let mut r = String::new();
    let mut i: usize = pieces.len();
    if i == 0 {
        return r;
    }
    i = i - 1;
    r = pieces[i].clone();
    proof {
        assert(views(pieces@).skip(i as int) =~= seq![pieces@[i as int]@]);
    }
    while i > 0
        invariant
            i < pieces@.len(),
            r@ == join(views(pieces@).skip(i as int), delim@),
        decreases i,
    {
        let ghost tail = views(pieces@).skip(i as int);
        i = i - 1;
        r = pieces[i].clone().concat(delim).concat(r.as_str());
        proof {
            let all = views(pieces@).skip(i as int);
            assert(all.skip(1) =~= tail);
            assert(all[0] == pieces@[i as int]@);
            assert(all.len() > 1);
        }
    }
    proof {
        assert(views(pieces@).skip(0) =~= views(pieces@));
    }
    r
}

// ---------------------------------------------------------------------------
// White space
// ---------------------------------------------------------------------------

fn white_space(c: char) -> (r: bool)
    ensures
        r == is_white_space(c),
{
    ('\u{9}' <= c && c <= '\u{d}') || c == ' ' || c == '\u{85}' || c == '\u{a0}' || c
        == '\u{1680}' || ('\u{2000}' <= c && c <= '\u{200a}') || c == '\u{2028}' || c
        == '\u{2029}' || c == '\u{202f}' || c == '\u{205f}' || c == '\u{3000}'
}

/// Length of `v` without the white space at its end.
fn end_of_text(v: &Vec<char>) -> (n: usize)
    ensures
        n <= v@.len(),
        v@.take(n as int) == trimmed_end(v@),
{
    let mut n: usize = v.len();
    proof {
        assert(v@.take(n as int) =~= v@);
    }
    while n > 0 && white_space(v[n - 1])
        invariant
            n <= v@.len(),
            trimmed_end(v@.take(n as int)) == trimmed_end(v@),
        decreases n,
    {
        proof {
            assert(v@.take(n as int).drop_last() =~= v@.take(n - 1));
        }
        n = n - 1;
    }
    n
}

/// `s` without the white space at its end.
pub fn trim_end(s: &str) -> (r: String)
    ensures
        r@ == trimmed_end(s@),
{
    let v = chars_of(s);
    let n = end_of_text(&v);
    proof {
        assert(v@.subrange(0, n as int) =~= v@.take(n as int));
    }
    string_of(&v, 0, n)
}

/// `s` without the white space at either end.
pub fn trim(s: &str) -> (r: String)
    ensures
        r@ == trimmed(s@),
{
    let v = chars_of(s);
    let n = end_of_text(&v);
    let mut i: usize = 0;
    proof {
        assert(v@.subrange(0, n as int) =~= v@.take(n as int));
    }
    while i < n && white_space(v[i])
        invariant
            i <= n <= v@.len(),
            trimmed_start(v@.subrange(i as int, n as int)) == trimmed(v@),
        decreases n - i,
    {
        proof {
            assert(v@.subrange(i as int, n as int).skip(1) =~= v@.subrange(i + 1, n as int));
        }
        i = i + 1;
    }
    string_of(&v, i, n)
}

// ---------------------------------------------------------------------------
// Decimal numbers
// ---------------------------------------------------------------------------

/// More digits never make a number smaller.
proof fn lemma_number_grows(s: Seq<char>, n: int)
    requires
        0 <= n <= s.len(),
    ensures
        number(s.take(n)) <= number(s),
    decreases s.len(),
{
    if n < s.len() {
        lemma_number_grows(s.drop_last(), n);
        assert(s.drop_last().take(n) =~= s.take(n));
    } else {
        assert(s.take(n) =~= s);
    }
}

/// Reads a `u32` in decimal notation.
pub fn parse_u32(s: &str) -> (r: Option<u32>)
    ensures
        r == parsed_u32(s@),
{
    let v = chars_of(s);
    let mut i: usize = 0;
    if v.len() > 0 && v[0] == '+' {
        i = 1;
    }
    let start: usize = i;
    let ghost d = v@.skip(start as int);
    proof {
        assert(v@.skip(0) =~= v@);
    }
    if i == v.len() {
        return None;
    }
    let mut n: u64 = 0;
    proof {
        assert(d.take(0) =~= Seq::empty());
    }
    while i < v.len()
        invariant
            start <= i <= v@.len(),
            start <= 1,
            d == v@.skip(start as int),
            d == (if v@.len() > 0 && v@[0] == '+' {
                v@.skip(1)
            } else {
                v@
            }),
            v@ == s@,
            all_digits(d.take(i - start)),
            n == number(d.take(i - start)),
            n <= u32::MAX,
        decreases v@.len() - i,
    {
        let c = v[i];
        proof {
            assert(d[i - start] == c);
        }
        if !('0' <= c && c <= '9') {
            return None;
        }
        n = n * 10 + (c as u32 - '0' as u32) as u64;
        proof {
            let more = d.take(i + 1 - start);
            assert(more.drop_last() =~= d.take(i - start));
            assert(more.last() == c);
            assert(n == number(more));
            assert forall|k: int| 0 <= k < more.len() implies is_digit(#[trigger] more[k]) by {
                if k < i - start {
                    assert(more[k] == d.take(i - start)[k]);
                }
            }
        }
        if n > 4294967295 {
            proof {
                lemma_number_grows(d, i + 1 - start);
            }
            return None;
        }
        i = i + 1;
    }
    proof {
        assert(d.take(i - start) =~= d);
    }
    Some(n as u32)
}

/// The decimal digit of value `d`.
fn digit_char(d: u128) -> (c: char)
    requires
        d < 10,
    ensures
        c == digit(d as nat),
{
    match d {
        0 => '0',
        1 => '1',
        2 => '2',
        3 => '3',
        4 => '4',
        5 => '5',
        6 => '6',
        7 => '7',
        8 => '8',
        _ => '9',
    }
}

/// `n` in decimal notation.
pub fn to_decimal(n: u128) -> (r: String)
    ensures
        r@ == decimal(n as nat),
    decreases n,
{
    let mut r = String::new();
    if n >= 10 {
        r = to_decimal(n / 10);
    }
    r.push(digit_char(n % 10));
    proof {
        if n < 10 {
            assert(r@ =~= seq![digit(n as nat)]);
        }
    }
    r
}

/// A number written in decimal is read back unchanged, and its digits are only digits.
pub proof fn law_decimal_reads_back(n: nat)
    ensures
        decimal(n).len() > 0,
        all_digits(decimal(n)),
        number(decimal(n)) == n,
        n <= u32::MAX ==> parsed_u32(decimal(n)) == Some(n as u32),
    decreases n,
{
    if n < 10 {
        assert(decimal(n).drop_last() =~= Seq::empty());
        assert(number(Seq::empty()) == 0);
        assert(decimal(n).last() == digit(n));
        assert(digit_value(digit(n)) == n);
    } else {
        law_decimal_reads_back(n / 10);
        assert(decimal(n).drop_last() =~= decimal(n / 10));
        assert(decimal(n).last() == digit(n % 10));
        assert(digit_value(digit(n % 10)) == n % 10);
        assert forall|i: int| 0 <= i < decimal(n).len() implies is_digit(
            #[trigger] decimal(n)[i],
        ) by {
            if i < decimal(n / 10).len() {
                assert(decimal(n)[i] == decimal(n / 10)[i]);
            }
        }
    }
    assert(is_digit(decimal(n)[0]));
}

// ---------------------------------------------------------------------------
// What these functions mean
// ---------------------------------------------------------------------------

/// The models of a list of texts are those of its members, one for one.
pub proof fn law_views_show_every_text(v: Seq<String>)
    ensures
        views(v).len() == v.len(),
        forall|i: int| 0 <= i < v.len() ==> #[trigger] views(v)[i] == v[i]@,
{
}

/// What stands before the leftmost delimiter is the first piece, and the rest is split further.
pub proof fn law_split_at_the_leftmost(a: Seq<char>, d: Seq<char>, b: Seq<char>)
    requires
        d.len() > 0,
        forall|j: int| 0 <= j < a.len() ==> #[trigger] (a + d + b).subrange(j, j + d.len()) != d,
    ensures
        split(a + d + b, d) == seq![a] + split(b, d),
{
    let whole = a + d + b;
    let i = a.len() as int;
    assert(whole.subrange(i, i + d.len()) =~= d);
    assert forall|j: int| 0 <= j < i implies !occurs_at(whole, d, j) by {
        assert(whole.subrange(j, j + d.len()) != d);
    }
    lemma_split_at(whole, d, i);
    assert(whole.take(i) =~= a);
    assert(whole.skip(i + d.len()) =~= b);
}

/// A text in which the delimiter does not stand is not split.
pub proof fn law_unsplit_without_delimiter(s: Seq<char>, d: Seq<char>)
    requires
        forall|j: int|
            0 <= j && j + d.len() <= s.len() ==> #[trigger] s.subrange(j, j + d.len()) != d,
    ensures
        split(s, d) == seq![s],
{
    assert forall|i: int| !occurs_at(s, d, i) by {
        if 0 <= i && i + d.len() <= s.len() {
            assert(s.subrange(i, i + d.len()) != d);
        }
    }
    lemma_split_none(s, d);
}

/// Nothing joins to nothing, one piece to itself, and one piece more comes behind a delimiter.
pub proof fn law_join_puts_delimiters_between(pieces: Seq<Seq<char>>, last: Seq<char>, d: Seq<char>)
    ensures
        join(Seq::empty(), d) == Seq::<char>::empty(),
        join(seq![last], d) == last,
        pieces.len() > 0 ==> join(pieces.push(last), d) == join(pieces, d) + d + last,
{
    if pieces.len() > 0 {
        lemma_join_push(pieces, last, d);
    }
}

/// The white space characters by their numbers.
pub proof fn law_white_space_by_number(c: char)
    ensures
        is_white_space(c) <==> ({
            let n = c as u32;
            ||| 9 <= n <= 13
            ||| n == 32
            ||| n == 133
            ||| n == 160
            ||| n == 5760
            ||| 8192 <= n <= 8202
            ||| n == 8232
            ||| n == 8233
            ||| n == 8239
            ||| n == 8287
            ||| n == 12288
        }),
{
}

/// Trimming at the end takes away all white space there and nothing else.
pub proof fn law_trimmed_end_drops_only_white_space(s: Seq<char>)
    ensures
        ({
            let t = trimmed_end(s);
            &&& t.len() <= s.len()
            &&& t == s.take(t.len() as int)
            &&& forall|i: int| t.len() <= i < s.len() ==> is_white_space(#[trigger] s[i])
            &&& t.len() > 0 ==> !is_white_space(t.last())
        }),
    decreases s.len(),
{
    if s.len() > 0 && is_white_space(s.last()) {
        law_trimmed_end_drops_only_white_space(s.drop_last());
        let t = trimmed_end(s);
        assert(t == s.drop_last().take(t.len() as int));
        assert(s.drop_last().take(t.len() as int) =~= s.take(t.len() as int));
        assert forall|i: int| t.len() <= i < s.len() implies is_white_space(#[trigger] s[i]) by {
            if i < s.len() - 1 {
                assert(s.drop_last()[i] == s[i]);
            }
        }
    } else {
        assert(s =~= s.take(s.len() as int));
    }
}

/// The same at the start.
proof fn lemma_trimmed_start(s: Seq<char>)
    ensures
        ({
            let t = trimmed_start(s);
            let n = s.len() - t.len();
            &&& 0 <= n
            &&& t == s.skip(n)
            &&& forall|i: int| 0 <= i < n ==> is_white_space(#[trigger] s[i])
            &&& t.len() > 0 ==> !is_white_space(t[0])
        }),
    decreases s.len(),
{
    if s.len() > 0 && is_white_space(s[0]) {
        lemma_trimmed_start(s.skip(1));
        let t = trimmed_start(s);
        let n = s.len() - t.len();
        assert(s.skip(1).skip(n - 1) =~= s.skip(n));
        assert forall|i: int| 0 <= i < n implies is_white_space(#[trigger] s[i]) by {
            if i > 0 {
                assert(s.skip(1)[i - 1] == s[i]);
            }
        }
    } else {
        assert(s =~= s.skip(0));
    }
}

/// Trimming takes away all white space at both ends and nothing else.
pub proof fn law_trimmed_drops_only_white_space(s: Seq<char>)
    ensures
        ({
            let t = trimmed(s);
            &&& t.len() > 0 ==> !is_white_space(t[0]) && !is_white_space(t.last())
            &&& exists|n: int|
                {
                    &&& 0 <= n <= n + t.len() <= s.len()
                    &&& t == #[trigger] s.subrange(n, n + t.len())
                    &&& forall|i: int|
                        0 <= i < n || n + t.len() <= i < s.len() ==> is_white_space(#[trigger] s[i])
                }
        }),
{
    law_trimmed_end_drops_only_white_space(s);
    let e = trimmed_end(s);
    lemma_trimmed_start(e);
    let t = trimmed(s);
    let n = e.len() - t.len();
    assert(t =~= s.subrange(n, n + t.len()));
    if t.len() > 0 {
        assert(t.last() == e.last());
    }
    assert forall|i: int| 0 <= i < n || n + t.len() <= i < s.len() implies is_white_space(
        #[trigger] s[i],
    ) by {
        if i < n {
            assert(e[i] == s[i]);
        }
    }
}

/// Decimal notation: one digit for each number below ten, and for any other the notation of its
/// tenth before its last digit.
pub proof fn law_decimal_by_digits(n: nat)
    ensures
        n < 10 ==> decimal(n).len() == 1 && decimal(n)[0] as u32 == 48 + n,
        n >= 10 ==> decimal(n) == decimal(n / 10) + decimal(n % 10),
{
    if n >= 10 {
        assert(decimal(n) =~= decimal(n / 10) + decimal(n % 10));
    }
}

/// What a text of digits denotes: nothing denotes zero, and one more digit makes ten times as
/// much and the digit.
pub proof fn law_number_by_digits(s: Seq<char>, c: char)
    requires
        48 <= c as u32 <= 57,
    ensures
        number(Seq::empty()) == 0,
        number(s.push(c)) == 10 * number(s) + (c as u32 - 48),
{
    assert(s.push(c).drop_last() =~= s);
}

/// A number is read from digits alone, with at most a plus sign before them, and only if there
/// is a digit and the number fits.
pub proof fn law_parse_takes_digits(s: Seq<char>, plus: bool, n: u32)
    requires
        s.len() > 0 ==> s[0] != '+',
    ensures
        ({
            let t = if plus {
                seq!['+'] + s
            } else {
                s
            };
            parsed_u32(t) == Some(n) <==> s.len() > 0 && number(s) == n && forall|i: int|
                0 <= i < s.len() ==> '0' <= #[trigger] s[i] <= '9'
        }),
{
    let t = if plus {
        seq!['+'] + s
    } else {
        s
    };
    if plus {
        assert(t.skip(1) =~= s);
    }
    if parsed_u32(t) is Some {
        assert forall|i: int| 0 <= i < s.len() implies '0' <= #[trigger] s[i] <= '9' by {
            assert(is_digit(s[i]));
        }
    }
}

/// Two plus signs are no number.
pub proof fn law_parse_takes_one_plus_sign(s: Seq<char>)
    ensures
        parsed_u32(seq!['+', '+'] + s) is None,
{
    let t = seq!['+', '+'] + s;
    let d = t.skip(1);
    assert(d[0] == '+');
    if all_digits(d) {
        assert(is_digit(d[0]));
    }
}

} // verus!
