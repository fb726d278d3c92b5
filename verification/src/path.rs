//! Paths as text, with `/` between their components.

use crate::text;
use vstd::prelude::*;
use vstd::string::StringExecFns;

verus! {

// ---------------------------------------------------------------------------
// Models
// ---------------------------------------------------------------------------

/// `p` taken relative to `base`: an absolute `p` replaces it, any other is appended, with one
/// `/` in between unless `base` is empty or ends in one.
pub open spec fn joined(base: Seq<char>, p: Seq<char>) -> Seq<char> {
    if p.len() > 0 && p[0] == '/' {
        p
    } else if base.len() == 0 || base.last() == '/' {
        base + p
    } else {
        base.push('/') + p
    }
}

/// Whether a piece between two `/` names something: empty ones and `.` do not.
pub open spec fn named(c: Seq<char>) -> bool {
    c.len() > 0 && c != seq!['.']
}

/// The components of a path: `/` for the root directory of an absolute path, or `.` where a
/// relative path starts with it, and then the names in order.
pub open spec fn components(p: Seq<char>) -> Seq<Seq<char>> {
    let pieces = text::split(p, seq!['/']);
    let names = pieces.filter(|c: Seq<char>| named(c));
    if p.len() > 0 && p[0] == '/' {
        seq![seq!['/']] + names
    } else if pieces[0] == seq!['.'] {
        seq![seq!['.']] + names
    } else {
        names
    }
}

/// The path that consists of `c`.
pub open spec fn of_components(c: Seq<Seq<char>>) -> Seq<char> {
    if c.len() > 0 && c[0] == seq!['/'] {
        seq!['/'] + text::join(c.skip(1), seq!['/'])
    } else {
        text::join(c, seq!['/'])
    }
}

/// The directory that holds the last component of `p`; the working directory where `p` has no
/// other component.
pub open spec fn parent_of(p: Seq<char>) -> Seq<char> {
    let c = components(p);
    if c.len() > 1 {
        of_components(c.drop_last())
    } else {
        seq!['.']
    }
}

/// A name that stands for exactly one directory level below another.
pub open spec fn plain(c: Seq<char>) -> bool {
    &&& c.len() > 0
    &&& c != seq!['.']
    &&& c != seq!['.', '.']
    &&& !c.contains('/')
}

// ---------------------------------------------------------------------------
// Laws
// ---------------------------------------------------------------------------

/// A list of one piece keeps it if it names something.
proof fn lemma_names_of_one(c: Seq<char>)
    ensures
        seq![c].filter(|x: Seq<char>| named(x)) == (if named(c) {
            seq![c]
        } else {
            Seq::empty()
        }),
{
    reveal_with_fuel(Seq::filter, 2);
    assert(seq![c].drop_last() =~= Seq::empty());
    assert(seq![c].last() == c);
    assert(Seq::<Seq<char>>::empty().push(c) =~= seq![c]);
}

/// The names in `front/tail`, for a `tail` without `/`.
proof fn lemma_names_after_slash(front: Seq<char>, tail: Seq<char>)
    requires
        !tail.contains('/'),
    ensures
        ({
            let f = |x: Seq<char>| named(x);
            let before = text::split(front, seq!['/']);
            let pieces = text::split(front + seq!['/'] + tail, seq!['/']);
            &&& pieces.len() > 0
            &&& pieces[0] == before[0]
            &&& pieces.filter(f) == before.filter(f) + (if named(tail) {
                seq![tail]
            } else {
                Seq::empty()
            })
        }),
{
    let f = |x: Seq<char>| named(x);
    let before = text::split(front, seq!['/']);
    text::lemma_split_concat(front, '/', tail);
    text::lemma_split_absent(tail, '/');
    text::law_split_join(front, seq!['/']);
    Seq::filter_distributes_over_add(before, seq![tail], f);
    lemma_names_of_one(tail);
}

/// Appending a name adds exactly that component.
pub proof fn law_join_adds_component(base: Seq<char>, name: Seq<char>)
    requires
        named(name),
        !name.contains('/'),
    ensures
        components(joined(base, name)) == components(base).push(name),
{
    let slash = seq!['/'];
    let none = Seq::<char>::empty();
    let whole = joined(base, name);
    assert(name[0] != '/') by {
        assert(name.contains(name[0]));
    }
    if base.len() == 0 {
        assert(whole =~= name);
        assert(base =~= none);
        text::lemma_split_absent(name, '/');
        text::lemma_split_absent(base, '/');
        lemma_names_of_one(name);
        lemma_names_of_one(base);
        assert(components(whole) =~= components(base).push(name));
    } else if base.last() == '/' {
        let front = base.drop_last();
        assert(base =~= front + slash + none);
        assert(whole =~= front + slash + name);
        lemma_names_after_slash(front, none);
        lemma_names_after_slash(front, name);
        assert(whole[0] == base[0]);
        assert(components(whole) =~= components(base).push(name));
    } else {
        assert(whole =~= base + slash + name);
        lemma_names_after_slash(base, name);
        assert(whole[0] == base[0]);
        assert(components(whole) =~= components(base).push(name));
    }
}

/// What the components of a path look like: a first one that may be `/` or `.`, and names.
proof fn lemma_components_shape(p: Seq<char>, k: int)
    requires
        0 <= k < components(p).len(),
    ensures
        ({
            let c = components(p)[k];
            ||| named(c) && !c.contains('/')
            ||| k == 0 && (c == seq!['/'] || c == seq!['.'])
        }),
{
    let f = |x: Seq<char>| named(x);
    let c = components(p)[k];
    let pieces = text::split(p, seq!['/']);
    text::law_split_join(p, seq!['/']);
    if !(k == 0 && (c == seq!['/'] || c == seq!['.'])) {
        assert(pieces.filter(f).contains(c)) by {
            if components(p) == pieces.filter(f) {
                assert(pieces.filter(f)[k] == c);
            } else {
                assert(pieces.filter(f)[k - 1] == c);
            }
        }
        let m = choose|m: int| 0 <= m < pieces.filter(f).len() && pieces.filter(f)[m] == c;
        pieces.lemma_filter_pred(f, m);
        pieces.lemma_filter_contains_rev(f, c);
        let n = choose|n: int| 0 <= n < pieces.len() && pieces[n] == c;
        if c.contains('/') {
            let i = choose|i: int| 0 <= i < c.len() && c[i] == '/';
            assert(!text::occurs_at(pieces[n], seq!['/'], i));
            assert(c.subrange(i, i + 1) =~= seq!['/']);
        }
    }
}

/// What a list of components looks like.
spec fn shaped(c: Seq<Seq<char>>) -> bool {
    forall|k: int|
        0 <= k < c.len() ==> {
            ||| named(#[trigger] c[k]) && !c[k].contains('/')
            ||| k == 0 && (c[k] == seq!['/'] || c[k] == seq!['.'])
        }
}

/// A path of one component.
proof fn lemma_one_component(c: Seq<char>)
    requires
        shaped(seq![c]),
    ensures
        components(of_components(seq![c])) == seq![c],
        of_components(seq![c]) == c,
        c.len() > 0,
        c.last() == '/' ==> c == seq!['/'],
{
    let none = Seq::<char>::empty();
    let path = of_components(seq![c]);
    assert(seq![c][0] == c);
    if c == seq!['/'] {
        assert(seq![c].skip(1) =~= Seq::empty());
        assert(path =~= seq!['/']);
        assert(path =~= none + seq!['/'] + none);
        lemma_names_after_slash(none, none);
        text::lemma_split_absent(none, '/');
        lemma_names_of_one(none);
    } else {
        assert(path == c);
        assert(!c.contains('/'));
        assert(c.contains(c[0]));
        assert(c.contains(c.last()));
        text::lemma_split_absent(c, '/');
        lemma_names_of_one(c);
    }
    assert(components(path) =~= seq![c]);
}

/// A path ends in `/` only where it is the root directory.
proof fn lemma_last_char(c: Seq<Seq<char>>)
    requires
        shaped(c),
        c.len() > 0,
    ensures
        of_components(c).len() > 0,
        of_components(c).last() == '/' ==> c == seq![seq!['/']],
{
    let slash = seq!['/'];
    let name = c.last();
    if c.len() == 1 {
        assert(c =~= seq![c[0]]);
        lemma_one_component(c[0]);
    } else {
        assert(named(c[c.len() - 1]) && !name.contains('/'));
        assert(name.contains(name.last()));
        if c[0] == slash {
            let rest = c.skip(1);
            if rest.len() == 1 {
                assert(rest[0] == name);
            } else {
                assert(rest =~= rest.drop_last().push(name));
                text::lemma_join_push(rest.drop_last(), name, slash);
            }
            assert(text::join(rest, slash).last() == name.last());
        } else {
            assert(c =~= c.drop_last().push(name));
            text::lemma_join_push(c.drop_last(), name, slash);
        }
    }
}

/// One more component at the end of a path.
proof fn lemma_push_component(front: Seq<Seq<char>>, name: Seq<char>)
    requires
        shaped(front),
        front.len() > 0,
        named(name),
        !name.contains('/'),
    ensures
        of_components(front.push(name)) == joined(of_components(front), name),
{
    let slash = seq!['/'];
    let c = front.push(name);
    assert(name.contains(name[0]));
    lemma_last_char(front);
    if front[0] == slash {
        if front.len() == 1 {
            assert(front =~= seq![slash]);
            assert(front.skip(1) =~= Seq::empty());
            assert(c.skip(1) =~= seq![name]);
            assert(of_components(front) =~= slash);
            assert(text::join(seq![name], slash) == name);
        } else {
            assert(c.skip(1) =~= front.skip(1).push(name));
            text::lemma_join_push(front.skip(1), name, slash);
        }
    } else {
        text::lemma_join_push(front, name, slash);
    }
    assert(of_components(c) =~= joined(of_components(front), name));
}

/// A list of components makes a path with exactly these.
proof fn lemma_of_components(c: Seq<Seq<char>>)
    requires
        shaped(c),
        c.len() > 0,
    ensures
        components(of_components(c)) == c,
    decreases c.len(),
{
    if c.len() == 1 {
        assert(c =~= seq![c[0]]);
        lemma_one_component(c[0]);
    } else {
        let front = c.drop_last();
        let name = c.last();
        assert(named(c[c.len() - 1]) && !name.contains('/'));
        assert(c =~= front.push(name));
        lemma_of_components(front);
        lemma_push_component(front, name);
        law_join_adds_component(of_components(front), name);
    }
}

/// The parent of a path has all its components but the last.
pub proof fn law_parent_drops_last(p: Seq<char>)
    requires
        components(p).len() > 1,
    ensures
        components(parent_of(p)) == components(p).drop_last(),
{
    let c = components(p);
    assert forall|k: int| 0 <= k < c.len() - 1 implies {
        ||| named(#[trigger] c.drop_last()[k]) && !c.drop_last()[k].contains('/')
        ||| k == 0 && (c.drop_last()[k] == seq!['/'] || c.drop_last()[k] == seq!['.'])
    } by {
        lemma_components_shape(p, k);
    }
    lemma_of_components(c.drop_last());
}

// ---------------------------------------------------------------------------
// Operations
// ---------------------------------------------------------------------------

/// `p` taken relative to `base`.
pub fn join(base: &str, p: &str) -> (r: String)
    ensures
        r@ == joined(base@, p@),
{
    let rest = text::chars_of(p);
    if rest.len() > 0 && rest[0] == '/' {
        return p.to_owned();
    }
    let mut r = base.to_owned();
    let front = text::chars_of(base);
    if front.len() > 0 && front[front.len() - 1] != '/' {
        r.push('/');
    }
    r.append(p);
    r
}

/// The directory that holds the last component of `p`, `.` if there is no other component.
pub fn parent(p: &str) -> (r: String)
    ensures
        r@ == parent_of(p@),
{
    proof {
        reveal_strlit("/");
        reveal_strlit(".");
        assert("/"@ =~= seq!['/']);
        assert("."@ =~= seq!['.']);
        text::law_split_join(p@, seq!['/']);
    }
    let ghost f = |c: Seq<char>| named(c);
    let pieces = text::split_by(p, "/");
    let mut comps: Vec<String> = Vec::new();
    let front = text::chars_of(p);
    let absolute = front.len() > 0 && front[0] == '/';
    if absolute {
        comps.push("/".to_owned());
    } else if text::same(pieces[0].as_str(), ".") {
        comps.push(".".to_owned());
    }
    let ghost head = text::views(comps@);
    let ghost all = text::views(pieces@);
    let mut i: usize = 0;
    proof {
        assert(all.take(0).filter(f) =~= Seq::empty()) by {
            reveal_with_fuel(Seq::filter, 1);
        }
        assert(all[0] == pieces@[0]@);
    }
    while i < pieces.len()
        invariant
            i <= pieces@.len(),
            all == text::views(pieces@),
            "."@ == seq!['.'],
            f == (|c: Seq<char>| named(c)),
            text::views(comps@) == head + all.take(i as int).filter(f),
        decreases pieces@.len() - i,
    {
        let ghost before = text::views(comps@);
        if !pieces[i].as_str().is_empty() && !text::same(pieces[i].as_str(), ".") {
            comps.push(pieces[i].clone());
            assert(text::views(comps@) =~= before.push(all[i as int]));
        }
        proof {
            let more = all.take(i + 1);
            assert(more.drop_last() =~= all.take(i as int));
            assert(more.last() == pieces@[i as int]@);
            reveal_with_fuel(Seq::filter, 2);
            assert(text::views(comps@) =~= head + more.filter(f));
        }
        i = i + 1;
    }
    proof {
        assert(all.take(i as int) =~= all);
        assert(text::views(comps@) =~= components(p@));
    }
    if comps.len() <= 1 {
        return ".".to_owned();
    }
    let ghost c = text::views(comps@);
    let last = comps.pop();
    proof {
        assert(text::views(comps@) =~= c.drop_last());
    }
    if absolute {
        let root = comps.remove(0);
        proof {
            assert(text::views(comps@) =~= c.drop_last().skip(1));
        }
        "/".to_owned().concat(text::join_with(&comps, "/").as_str())
    } else {
        proof {
            assert(c[0] != seq!['/']) by {
                if head.len() == 0 {
                    all.lemma_filter_contains_rev(f, c[0]);
                    let k = choose|k: int| 0 <= k < all.len() && all[k] == c[0];
                    assert(!text::occurs_at(all[k], seq!['/'], 0));
                    assert(seq!['/'].subrange(0, 1) =~= seq!['/']);
                }
            }
        }
        text::join_with(&comps, "/")
    }
}

// ---------------------------------------------------------------------------
// What these functions mean
// ---------------------------------------------------------------------------

/// Joining: an absolute path stands for itself, any other is appended behind exactly one `/`,
/// or behind nothing where there is no base.
pub proof fn law_join_appends_behind_a_slash(base: Seq<char>, p: Seq<char>)
    ensures
        joined(base, seq!['/'] + p) == seq!['/'] + p,
        p.len() == 0 || p[0] != '/' ==> {
            &&& joined(Seq::empty(), p) == p
            &&& joined(base.push('/'), p) == base.push('/') + p
            &&& base.len() > 0 && base.last() != '/' ==> joined(base, p) == base + seq!['/'] + p
        },
{
    assert(Seq::<char>::empty() + p =~= p);
    assert(base.push('/') =~= base + seq!['/']);
}

/// The components of a path are the names between its slashes; an absolute path has the root
/// directory before them.
pub proof fn law_components_are_the_names(names: Seq<Seq<char>>)
    requires
        names.len() > 0,
        forall|i: int|
            0 <= i < names.len() ==> (#[trigger] names[i]).len() > 0 && names[i] != seq!['.']
                && !names[i].contains('/'),
    ensures
        components(text::join(names, seq!['/'])) == names,
        components(seq!['/'] + text::join(names, seq!['/'])) == seq![seq!['/']] + names,
{
    let slash = seq!['/'];
    assert(names[0] != slash) by {
        assert(slash.contains(slash[0]));
        assert(!names[0].contains('/'));
    }
    lemma_of_components(names);
    let abs = seq![slash] + names;
    assert(abs[0] == slash);
    assert(abs.skip(1) =~= names);
    assert forall|k: int| 0 <= k < abs.len() implies {
        ||| named(#[trigger] abs[k]) && !abs[k].contains('/')
        ||| k == 0 && (abs[k] == seq!['/'] || abs[k] == seq!['.'])
    } by {
        if k > 0 {
            assert(abs[k] == names[k - 1]);
        }
    }
    lemma_of_components(abs);
}

/// The file system takes repeated slashes and a `.` in the middle for nothing: a name appended
/// behind them adds just that name.
pub proof fn law_empty_pieces_do_not_count(base: Seq<char>, name: Seq<char>)
    requires
        base.len() > 0,
        name.len() > 0,
        name != seq!['.'],
        !name.contains('/'),
    ensures
        components(base + seq!['/'] + name) == components(base).push(name),
        components(base + seq!['/', '/'] + name) == components(base).push(name),
        components(base + seq!['/', '.', '/'] + name) == components(base).push(name),
{
    let none = Seq::<char>::empty();
    let dot = seq!['.'];
    let twice = base + seq!['/'] + none;
    let dotted = base + seq!['/'] + dot;
    assert(!dot.contains('/'));
    lemma_name_behind_slash(base, name);
    lemma_nothing_behind_slash(base, none);
    lemma_name_behind_slash(twice, name);
    assert(base + seq!['/', '/'] + name =~= twice + seq!['/'] + name);
    lemma_nothing_behind_slash(base, dot);
    lemma_name_behind_slash(dotted, name);
    assert(base + seq!['/', '.', '/'] + name =~= dotted + seq!['/'] + name);
}

/// A name behind a slash is one more component.
proof fn lemma_name_behind_slash(base: Seq<char>, name: Seq<char>)
    requires
        base.len() > 0,
        named(name),
        !name.contains('/'),
    ensures
        components(base + seq!['/'] + name) == components(base).push(name),
{
    let whole = base + seq!['/'] + name;
    lemma_names_after_slash(base, name);
    assert(whole[0] == base[0]);
    assert(components(whole) =~= components(base).push(name));
}

/// Nothing, or a dot, behind a slash is no component.
proof fn lemma_nothing_behind_slash(base: Seq<char>, tail: Seq<char>)
    requires
        base.len() > 0,
        !named(tail),
        !tail.contains('/'),
    ensures
        components(base + seq!['/'] + tail) == components(base),
{
    let whole = base + seq!['/'] + tail;
    lemma_names_after_slash(base, tail);
    assert(whole[0] == base[0]);
    assert(components(whole) =~= components(base));
}

/// A path of at most one component lies in the working directory.
pub proof fn law_bare_name_lies_in_the_working_directory(p: Seq<char>)
    requires
        components(p).len() <= 1,
    ensures
        parent_of(p) == seq!['.'],
{
}

/// A name that can be one directory level: not empty, not `.` or `..`, and without `/`.
pub proof fn law_plain_names(c: Seq<char>)
    ensures
        plain(c) <==> c.len() > 0 && !(c.len() == 1 && c[0] == '.') && !(c.len() == 2 && c[0] == '.'
            && c[1] == '.') && forall|i: int| 0 <= i < c.len() ==> #[trigger] c[i] != '/',
{
    assert(c == seq!['.'] <==> c =~= seq!['.']);
    assert(c == seq!['.', '.'] <==> c =~= seq!['.', '.']);
    if plain(c) {
        assert forall|i: int| 0 <= i < c.len() implies #[trigger] c[i] != '/' by {
            assert(c.contains(c[i]));
        }
    }
}

/// The shortest paths: the root directory and the working directory are components of their own,
/// nothing has none, and a slash at the end adds none.
pub proof fn law_shortest_paths(base: Seq<char>)
    ensures
        components(Seq::empty()) == Seq::<Seq<char>>::empty(),
        components(seq!['.']) == seq![seq!['.']],
        components(seq!['/']) == seq![seq!['/']],
        base.len() > 0 ==> components(base.push('/')) == components(base),
{
    let none = Seq::<char>::empty();
    assert(components(none) == Seq::<Seq<char>>::empty()) by {
        text::lemma_split_absent(none, '/');
        lemma_names_of_one(none);
    }
    assert(components(seq!['.']) == seq![seq!['.']]) by {
        lemma_one_component(seq!['.']);
        assert(seq![seq!['.']][0] == seq!['.']);
    }
    assert(components(seq!['/']) == seq![seq!['/']]) by {
        lemma_one_component(seq!['/']);
    }
    if base.len() > 0 {
        assert(components(base.push('/')) == components(base)) by {
            assert(base.push('/') =~= base + seq!['/'] + none);
            lemma_nothing_behind_slash(base, none);
        }
    }
}

/// The parent of a path of names is the path without the last of them, as text; directly below
/// the root directory it is that, and of a single name the working directory.
pub proof fn law_parent_of_a_path_of_names(names: Seq<Seq<char>>, last: Seq<char>)
    requires
        forall|i: int|
            0 <= i < names.len() ==> (#[trigger] names[i]).len() > 0 && names[i] != seq!['.']
                && !names[i].contains('/'),
        last.len() > 0,
        last != seq!['.'],
        !last.contains('/'),
    ensures
        ({
            let dir = text::join(names, seq!['/']);
            let file = text::join(names.push(last), seq!['/']);
            &&& names.len() > 0 ==> parent_of(file) == dir
            &&& names.len() == 0 ==> parent_of(file) == seq!['.']
            &&& parent_of(seq!['/'] + file) == seq!['/'] + dir
        }),
{
    let slash = seq!['/'];
    let all = names.push(last);
    assert forall|i: int| 0 <= i < all.len() implies (#[trigger] all[i]).len() > 0 && all[i]
        != seq!['.'] && !all[i].contains('/') by {
        if i < names.len() {
            assert(all[i] == names[i]);
        }
    }
    law_components_are_the_names(all);
    assert(all.drop_last() =~= names);
    assert((seq![slash] + all).drop_last() =~= seq![slash] + names);
    assert((seq![slash] + names).skip(1) =~= names);
    assert((seq![slash] + names)[0] == slash);
    if names.len() > 0 {
        assert(names[0] != slash) by {
            assert(slash.contains(slash[0]));
            assert(!names[0].contains('/'));
        }
    }
}

} // verus!
