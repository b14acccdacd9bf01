//! File paths as POSIX systems read them: text with `/` between the parts, two
//! spellings being the same path when their components agree.

use crate::text::{
    chars_of, find_from, lemma_find_first, lemma_find_is_first, lemma_found, occurs_at, pieces,
    split, split_text, string_between, text_splits_at_a_character, texts,
};
use vstd::prelude::*;

verus! {

/// `parts` without the empty ones and without `.`.
pub open spec fn named_parts(parts: Seq<Seq<char>>) -> Seq<Seq<char>>
    decreases parts.len(),
{
    if parts.len() == 0 {
        seq![]
    } else if parts.last().len() == 0 || parts.last() == seq!['.'] {
        named_parts(parts.drop_last())
    } else {
        named_parts(parts.drop_last()).push(parts.last())
    }
}

/// Whether the path `s` starts at the root.
pub open spec fn is_absolute(s: Seq<char>) -> bool {
    s.len() > 0 && s[0] == '/'
}

/// The components of the path `s`: `/` for the root of an absolute path, then
/// the names. Repeated and trailing separators say nothing, nor does `.`,
/// except at the start of a relative path.
pub open spec fn components(s: Seq<char>) -> Seq<Seq<char>> {
    let parts = split(s, seq!['/']);
    if is_absolute(s) {
        seq![seq!['/']] + named_parts(parts)
    } else if parts[0] == seq!['.'] {
        seq![seq!['.']] + named_parts(parts.drop_first())
    } else {
        named_parts(parts)
    }
}

/// The path `b` seen from the directory `a`: `b` itself where it is absolute,
/// else `a`, a separator unless `a` is empty or ends with one, and `b`.
pub open spec fn joined(a: Seq<char>, b: Seq<char>) -> Seq<char> {
    if is_absolute(b) {
        b
    } else if a.len() == 0 || a.last() == '/' {
        a + b
    } else {
        a.push('/') + b
    }
}

/// The names with a separator between each two.
pub open spec fn separated(parts: Seq<Seq<char>>) -> Seq<char>
    decreases parts.len(),
{
    if parts.len() == 0 {
        seq![]
    } else if parts.len() == 1 {
        parts[0]
    } else {
        parts[0] + seq!['/'] + separated(parts.drop_first())
    }
}

/// Whether a part of a path says nothing: it is empty or `.`.
pub open spec fn is_blank(part: Seq<char>) -> bool {
    part.len() == 0 || part == seq!['.']
}

/// `parts` from behind the first `n` names on.
pub open spec fn behind_names(parts: Seq<Seq<char>>, n: nat) -> Seq<Seq<char>>
    decreases parts.len(),
{
    if n == 0 || parts.len() == 0 {
        parts
    } else if is_blank(parts[0]) {
        behind_names(parts.drop_first(), n)
    } else {
        behind_names(parts.drop_first(), (n - 1) as nat)
    }
}

/// `parts` without those at the start that say nothing.
pub open spec fn skip_blank(parts: Seq<Seq<char>>) -> Seq<Seq<char>>
    decreases parts.len(),
{
    if parts.len() > 0 && is_blank(parts[0]) {
        skip_blank(parts.drop_first())
    } else {
        parts
    }
}

/// `parts` without those at the end that say nothing.
pub open spec fn chop_blank(parts: Seq<Seq<char>>) -> Seq<Seq<char>>
    decreases parts.len(),
{
    if parts.len() > 0 && is_blank(parts.last()) {
        chop_blank(parts.drop_last())
    } else {
        parts
    }
}

/// The part of the text `s` that spells the path from behind its first `n`
/// components on. Separators and `.` inside it stay as they are; those at its end
/// go, and at its start, unless nothing precedes.
pub open spec fn tail_text(s: Seq<char>, n: nat) -> Seq<char> {
    let parts = split(s, seq!['/']);
    let body = parts.drop_first();
    if is_absolute(s) {
        if n == 0 {
            seq!['/'] + separated(chop_blank(body))
        } else {
            separated(chop_blank(skip_blank(behind_names(body, (n - 1) as nat))))
        }
    } else if parts[0] == seq!['.'] {
        if n == 0 {
            separated(seq![parts[0]] + chop_blank(body))
        } else {
            separated(chop_blank(skip_blank(behind_names(body, (n - 1) as nat))))
        }
    } else if n == 0 {
        separated(chop_blank(parts))
    } else {
        separated(chop_blank(skip_blank(behind_names(parts, n))))
    }
}

/// Whether `part` can be a name inside a path.
pub open spec fn is_name(part: Seq<char>) -> bool {
    part.len() > 0 && part != seq!['.'] && !part.contains('/')
}

/// Whether `parts` can be the components of a path.
pub open spec fn are_components(parts: Seq<Seq<char>>) -> bool {
    forall|i: int|
        0 <= i < parts.len() ==> is_name(#[trigger] parts[i]) || (i == 0 && (parts[i] == seq!['/']
            || parts[i] == seq!['.']))
}

/// The last name of a path: none where the path is empty or ends with the root,
/// `.` or `..`.
pub open spec fn last_name(parts: Seq<Seq<char>>) -> Option<Seq<char>> {
    if parts.len() > 0 && parts.last() != seq!['/'] && parts.last() != seq!['.'] && parts.last()
        != seq!['.', '.'] {
        Some(parts.last())
    } else {
        None
    }
}

proof fn lemma_find_none(s: Seq<char>, pat: Seq<char>, from: nat)
    requires
        forall|i: int| from <= i ==> !occurs_at(s, pat, i),
    ensures
        find_from(s, pat, from) is None,
    decreases s.len() + 1 - from,
{
    if from + pat.len() <= s.len() {
        lemma_find_none(s, pat, from + 1);
    }
}

proof fn lemma_slash_at(s: Seq<char>, i: int)
    requires
        0 <= i < s.len(),
    ensures
        occurs_at(s, seq!['/'], i) == (s[i] == '/'),
{
    assert(s.subrange(i, i + 1) =~= seq![s[i]]);
    assert(seq![s[i]][0] == s[i]);
    assert(seq!['/'][0] == '/');
}

/// A name before a separator is the first part.
proof fn lemma_split_name(a: Seq<char>, rest: Seq<char>)
    requires
        !a.contains('/'),
    ensures
        split(a + seq!['/'] + rest, seq!['/']) == seq![a] + split(rest, seq!['/']),
{
    let s = a + seq!['/'] + rest;
    let n = a.len();
    lemma_slash_at(s, n as int);
    assert forall|i: int| 0 <= i < n implies !occurs_at(s, seq!['/'], i) by {
        lemma_slash_at(s, i);
        assert(s[i] == a[i]);
    }
    lemma_find_first(s, seq!['/'], 0, n);
    assert(s.take(n as int) =~= a);
    assert(s.skip((n + 1) as int) =~= rest);
}

/// A text without a separator is its only part.
proof fn lemma_split_single(a: Seq<char>)
    requires
        !a.contains('/'),
    ensures
        split(a, seq!['/']) == seq![a],
{
    assert forall|i: int| 0 <= i implies !occurs_at(a, seq!['/'], i) by {
        if i < a.len() {
            lemma_slash_at(a, i);
            assert(a.contains(a[i]));
        }
    }
    lemma_find_none(a, seq!['/'], 0);
}

proof fn lemma_split_separated(parts: Seq<Seq<char>>)
    requires
        parts.len() > 0,
        forall|i: int| 0 <= i < parts.len() ==> !(#[trigger] parts[i]).contains('/'),
    ensures
        split(separated(parts), seq!['/']) == parts,
    decreases parts.len(),
{
    if parts.len() == 1 {
        lemma_split_single(parts[0]);
        assert(seq![parts[0]] =~= parts);
    } else {
        lemma_split_separated(parts.drop_first());
        lemma_split_name(parts[0], separated(parts.drop_first()));
        assert(seq![parts[0]] + parts.drop_first() =~= parts);
    }
}

proof fn lemma_named_are_names(parts: Seq<Seq<char>>)
    requires
        forall|i: int| 0 <= i < parts.len() ==> !(#[trigger] parts[i]).contains('/'),
    ensures
        forall|i: int| 0 <= i < named_parts(parts).len() ==> is_name(#[trigger] named_parts(parts)[i]),
    decreases parts.len(),
{
    if parts.len() > 0 {
        assert forall|i: int| 0 <= i < parts.drop_last().len() implies !(
        #[trigger] parts.drop_last()[i]).contains('/') by {
            assert(parts.drop_last()[i] == parts[i]);
        }
        lemma_named_are_names(parts.drop_last());
        assert(!parts[parts.len() - 1].contains('/'));
        let shorter = named_parts(parts.drop_last());
        assert forall|i: int| 0 <= i < named_parts(parts).len() implies is_name(
            #[trigger] named_parts(parts)[i],
        ) by {
            if i < shorter.len() {
                assert(named_parts(parts)[i] == shorter[i]);
            }
        }
    }
}

proof fn lemma_split_has_no_slash(s: Seq<char>)
    ensures
        split(s, seq!['/']).len() > 0,
        forall|i: int|
            0 <= i < split(s, seq!['/']).len() ==> !(#[trigger] split(s, seq!['/'])[i]).contains(
                '/',
            ),
    decreases s.len(),
{
    let slash = seq!['/'];
    lemma_find_is_first(s, slash, 0);
    match find_from(s, slash, 0) {
        Some(n) if n + 1 <= s.len() => {
            lemma_split_has_no_slash(s.skip((n + 1) as int));
            let head = s.take(n as int);
            assert(!head.contains('/')) by {
                if head.contains('/') {
                    let j = choose|j: int| 0 <= j < head.len() && head[j] == '/';
                    lemma_slash_at(s, j);
                }
            }
            assert(split(s, slash) == seq![head] + split(s.skip((n + 1) as int), slash));
        },
        _ => {
            if s.contains('/') {
                let j = choose|j: int| 0 <= j < s.len() && s[j] == '/';
                lemma_slash_at(s, j);
            }
        },
    }
}

/// Every text reads as a list of components.
pub proof fn components_are_components(s: Seq<char>)
    ensures
        are_components(components(s)),
{
    let parts = split(s, seq!['/']);
    lemma_split_has_no_slash(s);
    lemma_named_are_names(parts);
    assert forall|i: int| 0 <= i < parts.drop_first().len() implies !(
    #[trigger] parts.drop_first()[i]).contains('/') by {
        assert(parts.drop_first()[i] == parts[i + 1]);
    }
    lemma_named_are_names(parts.drop_first());
    let all = components(s);
    assert forall|i: int| 0 <= i < all.len() implies is_name(#[trigger] all[i]) || (i == 0 && (all[i]
        == seq!['/'] || all[i] == seq!['.'])) by {
        if is_absolute(s) {
            if i > 0 {
                assert(all[i] == named_parts(parts)[i - 1]);
            }
        } else if parts[0] == seq!['.'] {
            if i > 0 {
                assert(all[i] == named_parts(parts.drop_first())[i - 1]);
            }
        } else {
            assert(all[i] == named_parts(parts)[i]);
        }
    }
}

/// Whether none of the parts holds a separator.
spec fn unslashed(parts: Seq<Seq<char>>) -> bool {
    forall|i: int| 0 <= i < parts.len() ==> !(#[trigger] parts[i]).contains('/')
}

/// The names of a list are that of its first part, if it is one, and those of the
/// rest.
proof fn lemma_named_first(parts: Seq<Seq<char>>)
    requires
        parts.len() > 0,
    ensures
        named_parts(parts) == if is_blank(parts[0]) {
            named_parts(parts.drop_first())
        } else {
            seq![parts[0]] + named_parts(parts.drop_first())
        },
    decreases parts.len(),
{
    let rest = parts.drop_first();
    if parts.len() == 1 {
        assert(parts.drop_last() =~= seq![]);
        assert(rest =~= seq![]);
        assert(named_parts(parts.drop_last()) =~= seq![]);
        assert(named_parts(parts.drop_last()).push(parts[0]) =~= seq![parts[0]]);
        assert(seq![parts[0]] + named_parts(rest) =~= seq![parts[0]]);
    } else {
        lemma_named_first(parts.drop_last());
        assert(parts.drop_last().drop_first() =~= rest.drop_last());
        assert(rest.last() == parts.last());
        assert((seq![parts[0]] + named_parts(rest.drop_last())).push(parts.last()) =~= seq![
            parts[0],
        ] + named_parts(rest.drop_last()).push(parts.last()));
    }
}

proof fn lemma_behind_names(parts: Seq<Seq<char>>, n: nat)
    requires
        n <= named_parts(parts).len(),
        unslashed(parts),
    ensures
        named_parts(behind_names(parts, n)) == named_parts(parts).skip(n as int),
        unslashed(behind_names(parts, n)),
    decreases parts.len(),
{
    if n == 0 || parts.len() == 0 {
        assert(named_parts(parts).skip(0) =~= named_parts(parts));
        assert(named_parts(parts).skip(n as int) =~= named_parts(parts));
    } else {
        let rest = parts.drop_first();
        lemma_named_first(parts);
        assert(unslashed(rest)) by {
            assert forall|i: int| 0 <= i < rest.len() implies !(#[trigger] rest[i]).contains(
                '/',
            ) by {
                assert(rest[i] == parts[i + 1]);
            }
        }
        if is_blank(parts[0]) {
            lemma_behind_names(rest, n);
        } else {
            lemma_behind_names(rest, (n - 1) as nat);
            assert(named_parts(parts).skip(n as int) =~= named_parts(rest).skip(n - 1));
        }
    }
}

proof fn lemma_skip_blank(parts: Seq<Seq<char>>)
    requires
        unslashed(parts),
    ensures
        named_parts(skip_blank(parts)) == named_parts(parts),
        unslashed(skip_blank(parts)),
        skip_blank(parts).len() > 0 ==> !is_blank(skip_blank(parts)[0]),
    decreases parts.len(),
{
    if parts.len() > 0 && is_blank(parts[0]) {
        let rest = parts.drop_first();
        lemma_named_first(parts);
        assert(unslashed(rest)) by {
            assert forall|i: int| 0 <= i < rest.len() implies !(#[trigger] rest[i]).contains(
                '/',
            ) by {
                assert(rest[i] == parts[i + 1]);
            }
        }
        lemma_skip_blank(rest);
    }
}

proof fn lemma_chop_blank(parts: Seq<Seq<char>>)
    requires
        unslashed(parts),
    ensures
        named_parts(chop_blank(parts)) == named_parts(parts),
        unslashed(chop_blank(parts)),
        chop_blank(parts).len() <= parts.len(),
        chop_blank(parts).len() > 0 ==> chop_blank(parts)[0] == parts[0],
    decreases parts.len(),
{
    if parts.len() > 0 && is_blank(parts.last()) {
        let rest = parts.drop_last();
        assert(unslashed(rest)) by {
            assert forall|i: int| 0 <= i < rest.len() implies !(#[trigger] rest[i]).contains(
                '/',
            ) by {
                assert(rest[i] == parts[i]);
            }
        }
        lemma_chop_blank(rest);
    }
}

/// Parts of which the first is a name spell the path of their names.
proof fn lemma_separated_reads_back(parts: Seq<Seq<char>>)
    requires
        unslashed(parts),
        parts.len() > 0 ==> !is_blank(parts[0]),
    ensures
        components(separated(parts)) == named_parts(parts),
{
    let s = separated(parts);
    assert(seq!['.'].len() == 1);
    if parts.len() == 0 {
        lemma_split_single(s);
        assert(seq![s].drop_last() =~= seq![]);
        assert(named_parts(seq![s].drop_last()) =~= seq![]);
        assert(named_parts(seq![s]) =~= seq![]);
    } else {
        lemma_split_separated(parts);
        assert(s[0] == parts[0][0]);
        assert(parts[0].contains(parts[0][0]));
    }
}

proof fn lemma_first_part(s: Seq<char>)
    ensures
        split(s, seq!['/']).len() > 0,
        is_absolute(s) ==> split(s, seq!['/'])[0].len() == 0,
        !is_absolute(s) && split(s, seq!['/'])[0].len() == 0 ==> s.len() == 0 && split(
            s,
            seq!['/'],
        ).len() == 1,
{
    let slash = seq!['/'];
    lemma_find_is_first(s, slash, 0);
    if is_absolute(s) {
        lemma_slash_at(s, 0);
        assert(find_from(s, slash, 0) == Some(0nat));
        assert(s.take(0) =~= seq![]);
    } else if let Some(n) = find_from(s, slash, 0) {
        lemma_found(s, slash, 0);
        lemma_slash_at(s, n as int);
    }
}

/// What is left of a path behind some of its components reads as the path of the
/// others.
pub proof fn tail_reads_back(s: Seq<char>, n: nat)
    requires
        n <= components(s).len(),
    ensures
        components(tail_text(s, n)) == components(s).skip(n as int),
{
    let slash = seq!['/'];
    let dot = seq!['.'];
    let parts = split(s, slash);
    let body = parts.drop_first();
    assert(slash[0] == '/');
    assert(dot.len() == 1 && dot[0] == '.');
    lemma_split_has_no_slash(s);
    lemma_first_part(s);
    assert(unslashed(parts));
    assert(unslashed(body)) by {
        assert forall|i: int| 0 <= i < body.len() implies !(#[trigger] body[i]).contains('/') by {
            assert(body[i] == parts[i + 1]);
        }
    }
    lemma_named_first(parts);
    lemma_chop_blank(body);
    lemma_chop_blank(parts);
    if n == 0 {
        assert(components(s).skip(0) =~= components(s));
        if is_absolute(s) {
            let q = chop_blank(body);
            let text = separated(q);
            let whole = slash + text;
            let none = Seq::<char>::empty();
            assert(none + slash + text =~= whole);
            lemma_split_name(none, text);
            let all = split(whole, slash);
            assert(all.drop_first() =~= split(text, slash));
            lemma_named_first(all);
            if q.len() == 0 {
                lemma_split_single(text);
                assert(seq![text].drop_last() =~= seq![]);
                assert(named_parts(seq![text].drop_last()) =~= seq![]);
                assert(named_parts(seq![text]) =~= seq![]);
            } else {
                lemma_split_separated(q);
            }
            assert(whole[0] == '/');
        } else if parts[0] == dot {
            let q = seq![parts[0]] + chop_blank(body);
            assert(unslashed(q)) by {
                assert forall|i: int| 0 <= i < q.len() implies !(#[trigger] q[i]).contains('/') by {
                    if i > 0 {
                        assert(q[i] == chop_blank(body)[i - 1]);
                    } else {
                        assert(!parts[0].contains('/'));
                    }
                }
            }
            lemma_split_separated(q);
            let whole = separated(q);
            assert(whole[0] == '.');
            assert(q.drop_first() =~= chop_blank(body));
        } else {
            if parts[0].len() == 0 {
                assert(chop_blank(parts.drop_last()).len() == 0);
            }
            lemma_separated_reads_back(chop_blank(parts));
        }
    } else {
        let head = is_absolute(s) || parts[0] == dot;
        let from = if head {
            body
        } else {
            parts
        };
        let names = if head {
            (n - 1) as nat
        } else {
            n
        };
        lemma_behind_names(from, names);
        let rest = behind_names(from, names);
        lemma_skip_blank(rest);
        lemma_chop_blank(skip_blank(rest));
        lemma_separated_reads_back(chop_blank(skip_blank(rest)));
        assert(components(s).skip(n as int) =~= named_parts(from).skip(names as int));
    }
}

/// The parts of a path, joined again, are the path.
pub proof fn parts_join_back(s: Seq<char>)
    ensures
        separated(split(s, seq!['/'])) == s,
    decreases s.len(),
{
    let slash = seq!['/'];
    lemma_find_is_first(s, slash, 0);
    lemma_found(s, slash, 0);
    match find_from(s, slash, 0) {
        Some(i) if i + 1 <= s.len() => {
            let rest = s.skip(i + 1int);
            let parts = split(s, slash);
            parts_join_back(rest);
            lemma_split_has_no_slash(rest);
            lemma_slash_at(s, i as int);
            assert(parts == seq![s.take(i as int)] + split(rest, slash));
            assert(parts.drop_first() =~= split(rest, slash));
            assert(s =~= s.take(i as int) + slash + rest);
        },
        _ => {},
    }
}

/// A path without a separator is one component, unless it is empty.
pub proof fn single_name_is_one_component(name: Seq<char>)
    requires
        !name.contains('/'),
    ensures
        components(name) == if name.len() == 0 {
            Seq::<Seq<char>>::empty()
        } else {
            seq![name]
        },
        components(seq!['/'] + name) == if name.len() == 0 || name == seq!['.'] {
            seq![seq!['/']]
        } else {
            seq![seq!['/'], name]
        },
{
    lemma_split_single(name);
    let one = seq![name];
    let none = Seq::<Seq<char>>::empty();
    assert(one.drop_last() =~= none);
    assert(one.drop_first() =~= none);
    assert(named_parts(none) =~= none);
    assert(none.push(name) =~= one);
    if name.len() > 0 {
        assert(name.contains(name[0]));
    }
    let empty = Seq::<char>::empty();
    lemma_split_name(empty, name);
    let whole = seq!['/'] + name;
    assert(empty + seq!['/'] + name =~= whole);
    let parts = seq![empty, name];
    assert(seq![empty] + one =~= parts);
    assert(parts.drop_last() =~= seq![empty]);
    assert(seq![empty].drop_last() =~= none);
    assert(named_parts(seq![empty]) =~= none);
    assert(whole[0] == '/');
    assert(seq![seq!['/']] + none =~= seq![seq!['/']]);
    assert(seq![seq!['/']] + none.push(name) =~= seq![seq!['/'], name]);
    if name == seq!['.'] {
        assert(seq![seq!['.']] + none =~= one);
    }
}

/// A part behind a separator is one more component; an empty part and `.` are none.
pub proof fn each_part_is_one_more_component(s: Seq<char>, part: Seq<char>)
    requires
        s.len() > 0,
        !part.contains('/'),
    ensures
        components(s + seq!['/'] + part) == if part.len() == 0 || part == seq!['.'] {
            components(s)
        } else {
            components(s).push(part)
        },
{
    let slash = seq!['/'];
    let parts = split(s, slash);
    let whole = s + slash + part;
    let all = split(whole, slash);
    text_splits_at_a_character(s, '/', part);
    lemma_split_single(part);
    lemma_split_has_no_slash(s);
    assert(all =~= parts.push(part));
    assert(all.drop_last() =~= parts);
    assert(whole[0] == s[0]);
    if !is_absolute(s) && parts[0] == seq!['.'] {
        let a = all.drop_first();
        let b = parts.drop_first();
        assert(a.drop_last() =~= b);
        assert(a.last() == part);
        assert(seq![seq!['.']] + named_parts(b).push(part) =~= (seq![seq!['.']] + named_parts(
            b,
        )).push(part));
    } else if is_absolute(s) {
        assert(seq![slash] + named_parts(parts).push(part) =~= (seq![slash] + named_parts(
            parts,
        )).push(part));
    }
}

/// An absolute path stands for itself wherever it is joined to. Any other is put behind
/// the directory, with one separator between them unless the directory is empty or
/// brings its own.
pub proof fn joining_puts_a_path_behind_a_directory(dir: Seq<char>, path: Seq<char>)
    ensures
        path.len() > 0 && path[0] == '/' ==> joined(dir, path) == path,
        (path.len() == 0 || path[0] != '/') && dir.len() == 0 ==> joined(dir, path) == path,
        (path.len() == 0 || path[0] != '/') && dir.len() > 0 && dir.last() == '/' ==> joined(
            dir,
            path,
        ) == dir + path,
        (path.len() == 0 || path[0] != '/') && dir.len() > 0 && dir.last() != '/' ==> joined(
            dir,
            path,
        ) == dir + seq!['/'] + path,
{
    assert(Seq::<char>::empty() + path =~= path);
    if dir.len() == 0 {
        assert(dir + path =~= path);
    }
    assert(dir.push('/') =~= dir + seq!['/']);
}

/// The name of a file is its last component, unless that is the root, `.` or `..`.
pub proof fn file_name_is_the_last_component(parts: Seq<Seq<char>>, name: Seq<char>)
    ensures
        last_name(parts.push(name)) == if name == seq!['/'] || name == seq!['.'] || name == seq![
            '.',
            '.',
        ] {
            None::<Seq<char>>
        } else {
            Some(name)
        },
        last_name(Seq::<Seq<char>>::empty()) is None,
{
    assert(parts.push(name).last() == name);
}

proof fn lemma_skip_behind(x: Seq<Seq<char>>, y: Seq<Seq<char>>)
    requires
        y.len() > 0,
        !is_blank(y[0]),
    ensures
        skip_blank(behind_names(x + y, named_parts(x).len())) == y,
    decreases x.len(),
{
    if x.len() == 0 {
        assert(x + y =~= y);
    } else {
        let xy = x + y;
        let rest = x.drop_first();
        assert(xy.drop_first() =~= rest + y);
        assert(xy[0] == x[0]);
        lemma_named_first(x);
        lemma_skip_behind(rest, y);
    }
}

/// What is left of a path below a directory is what was put behind the directory, as
/// it is spelled, where it starts and ends with a name.
pub proof fn path_below_a_directory_is_kept(dir: Seq<char>, path: Seq<char>)
    requires
        dir.len() > 0,
        split(path, seq!['/'])[0].len() > 0,
        split(path, seq!['/'])[0] != seq!['.'],
        split(path, seq!['/']).last().len() > 0,
        split(path, seq!['/']).last() != seq!['.'],
    ensures
        tail_text(dir + seq!['/'] + path, components(dir).len()) == path,
        components(dir + seq!['/'] + path) == components(dir) + components(path),
{
    let slash = seq!['/'];
    let whole = dir + slash + path;
    let a = split(dir, slash);
    let b = split(path, slash);
    let parts = split(whole, slash);
    text_splits_at_a_character(dir, '/', path);
    lemma_split_has_no_slash(dir);
    lemma_split_has_no_slash(path);
    lemma_first_part(dir);
    lemma_first_part(path);
    parts_join_back(path);
    assert(parts == a + b);
    assert(whole[0] == dir[0]);
    assert(parts[0] == a[0]);
    assert(chop_blank(b) == b);
    lemma_named_first(a);
    assert(parts.drop_first() =~= a.drop_first() + b);
    lemma_skip_behind(a.drop_first(), b);
    lemma_skip_behind(a, b);
    lemma_named_sum(a.drop_first(), b);
    lemma_named_sum(a, b);
    let dot = seq!['.'];
    assert(dot.len() == 1);
    if is_absolute(dir) {
        let n = components(dir).len();
        assert((n - 1) as nat == named_parts(a.drop_first()).len());
        assert(components(whole) =~= components(dir) + named_parts(b));
    } else if a[0] == dot {
        let n = components(dir).len();
        assert((n - 1) as nat == named_parts(a.drop_first()).len());
        assert(components(whole) =~= components(dir) + named_parts(b));
    } else {
        assert(components(dir) == named_parts(a));
        if a[0].len() > 0 {
            assert(components(dir).len() > 0);
        }
    }
}

proof fn lemma_named_sum(a: Seq<Seq<char>>, b: Seq<Seq<char>>)
    ensures
        named_parts(a + b) == named_parts(a) + named_parts(b),
    decreases b.len(),
{
    if b.len() == 0 {
        assert(a + b =~= a);
        assert(named_parts(a) + named_parts(b) =~= named_parts(a));
    } else {
        let ab = a + b;
        assert(ab.drop_last() =~= a + b.drop_last());
        assert(ab.last() == b.last());
        lemma_named_sum(a, b.drop_last());
        assert(named_parts(ab) =~= named_parts(a) + named_parts(b));
    }
}

/// The text of `parts[from..to]` with a separator between each two.
fn join_parts(parts: &Vec<Vec<char>>, from: usize, to: usize) -> (r: String)
    requires
        from <= to <= parts@.len(),
    ensures
        r@ == separated(pieces(parts@).subrange(from as int, to as int)),
{
    let mut text = String::new();
    let mut i: usize = to;
    let ghost all = pieces(parts@);
    proof {
        reveal_strlit("/");
        assert("/"@ =~= seq!['/']);
        assert(all.subrange(to as int, to as int) =~= seq![]);
    }
    while i > from
        invariant
            from <= i <= to <= parts@.len(),
            all == pieces(parts@),
            text@ == separated(all.subrange(i as int, to as int)),
            "/"@ == seq!['/'],
        decreases i,
    {
        let part = &parts[i - 1];
        let mut longer = string_between(part, 0, part.len());
        proof {
            assert(part@.subrange(0, part@.len() as int) =~= part@);
            assert(all.subrange(i - 1, to as int).drop_first() =~= all.subrange(
                i as int,
                to as int,
            ));
            assert(all.subrange(i - 1, to as int)[0] == part@);
        }
        if i < to {
            longer.append("/");
            longer.append(text.as_str());
        }
        text = longer;
        i -= 1;
    }
    text
}

fn says_nothing(part: &Vec<char>) -> (r: bool)
    ensures
        r == is_blank(part@),
{
    let dot = part.len() == 1 && part[0] == '.';
    proof {
        if dot {
            assert(part@ =~= seq!['.']);
        } else if part@ == seq!['.'] {
            assert(part@[0] == '.');
        }
    }
    part.len() == 0 || dot
}

/// Where the parts from `from` on end that say something at their end.
fn find_end(parts: &Vec<Vec<char>>, from: usize) -> (to: usize)
    requires
        from <= parts@.len(),
    ensures
        from <= to <= parts@.len(),
        chop_blank(pieces(parts@).skip(from as int)) == pieces(parts@).subrange(
            from as int,
            to as int,
        ),
{
    let mut to: usize = parts.len();
    let ghost all = pieces(parts@);
    proof {
        assert(all.subrange(from as int, to as int) =~= all.skip(from as int));
    }
    while to > from && says_nothing(&parts[to - 1])
        invariant
            from <= to <= parts@.len(),
            all == pieces(parts@),
            chop_blank(all.skip(from as int)) == chop_blank(all.subrange(from as int, to as int)),
        decreases to,
    {
        proof {
            assert(all.subrange(from as int, to as int).last() == parts@[to - 1]@);
            assert(all.subrange(from as int, to as int).drop_last() =~= all.subrange(
                from as int,
                to - 1,
            ));
        }
        to -= 1;
    }
    proof {
        if to > from {
            assert(all.subrange(from as int, to as int).last() == parts@[to - 1]@);
        }
    }
    to
}

/// Where the parts behind `n` names start, counted from `from` on.
fn find_start(parts: &Vec<Vec<char>>, from: usize, n: usize) -> (start: usize)
    requires
        from <= parts@.len(),
    ensures
        from <= start <= parts@.len(),
        skip_blank(behind_names(pieces(parts@).skip(from as int), n as nat)) == pieces(
            parts@,
        ).skip(start as int),
{
    let ghost all = pieces(parts@);
    let mut i: usize = from;
    let mut left: usize = n;
    while left > 0 && i < parts.len()
        invariant
            from <= i <= parts@.len(),
            all == pieces(parts@),
            behind_names(all.skip(from as int), n as nat) == behind_names(
                all.skip(i as int),
                left as nat,
            ),
        decreases parts@.len() - i,
    {
        proof {
            assert(all.skip(i as int)[0] == parts@[i as int]@);
            assert(all.skip(i as int).drop_first() =~= all.skip(i + 1));
        }
        if !says_nothing(&parts[i]) {
            left -= 1;
        }
        i += 1;
    }
    while i < parts.len() && says_nothing(&parts[i])
        invariant
            from <= i <= parts@.len(),
            all == pieces(parts@),
            skip_blank(behind_names(all.skip(from as int), n as nat)) == skip_blank(
                all.skip(i as int),
            ),
        decreases parts@.len() - i,
    {
        proof {
            assert(all.skip(i as int)[0] == parts@[i as int]@);
            assert(all.skip(i as int).drop_first() =~= all.skip(i + 1));
        }
        i += 1;
    }
    proof {
        if i < parts@.len() {
            assert(all.skip(i as int)[0] == parts@[i as int]@);
        }
    }
    i
}

/// The text that spells a path from behind its first `n` components on.
fn read_tail(s: &str, n: usize) -> (r: String)
    ensures
        r@ == tail_text(s@, n as nat),
{
    let v = chars_of(s);
    let slash: Vec<char> = vec!['/'];
    proof {
        assert(slash@ =~= seq!['/']);
        lemma_split_has_no_slash(s@);
    }
    let parts = split_text(&v, &slash);
    let ghost all = pieces(parts@);
    let absolute = v.len() > 0 && v[0] == '/';
    let dot = !absolute && parts[0].len() == 1 && parts[0][0] == '.';
    proof {
        assert(all[0] == parts@[0]@);
        if dot {
            assert(parts@[0]@ =~= seq!['.']);
        } else if !absolute && parts@[0]@ == seq!['.'] {
            assert(parts@[0]@[0] == '.');
        }
        assert(all.skip(1) =~= all.drop_first());
        assert(all.skip(0) =~= all);
    }
    if n == 0 {
        if absolute || dot {
            let to = find_end(&parts, 1);
            if absolute {
                let mut r = "/".to_owned();
                proof {
                    reveal_strlit("/");
                    assert("/"@ =~= seq!['/']);
                }
                r.append(join_parts(&parts, 1, to).as_str());
                r
            } else {
                proof {
                    assert(all.subrange(0, to as int) =~= seq![all[0]] + all.subrange(
                        1,
                        to as int,
                    ));
                }
                join_parts(&parts, 0, to)
            }
        } else {
            let to = find_end(&parts, 0);
            join_parts(&parts, 0, to)
        }
    } else {
        let start = if absolute || dot {
            find_start(&parts, 1, n - 1)
        } else {
            find_start(&parts, 0, n)
        };
        let to = find_end(&parts, start);
        join_parts(&parts, start, to)
    }
}

/// The names among `parts[from..]`.
fn collect_names(parts: &Vec<Vec<char>>, from: usize, start: Vec<String>) -> (r: Vec<String>)
    requires
        from <= parts@.len(),
    ensures
        texts(r@) == texts(start@) + named_parts(pieces(parts@).skip(from as int)),
{
    let mut r = start;
    let ghost all = pieces(parts@).skip(from as int);
    let mut i: usize = from;
    proof {
        assert(all.take(0) =~= seq![]);
        assert(named_parts(all.take(0)) =~= seq![]);
        assert(texts(r@) + Seq::<Seq<char>>::empty() =~= texts(r@));
    }
    while i < parts.len()
        invariant
            from <= i <= parts@.len(),
            all == pieces(parts@).skip(from as int),
            texts(r@) == texts(start@) + named_parts(all.take(i - from)),
        decreases parts@.len() - i,
    {
        let part = &parts[i];
        let ghost before = r@;
        proof {
            assert(all.take(i + 1 - from).drop_last() =~= all.take(i - from));
            assert(all.take(i + 1 - from).last() == part@);
        }
        let dot = part.len() == 1 && part[0] == '.';
        proof {
            if dot {
                assert(part@ =~= seq!['.']);
            } else if part@.len() == 1 {
                assert(part@[0] != seq!['.'][0]);
            }
        }
        if part.len() > 0 && !dot {
            r.push(string_between(part, 0, part.len()));
            proof {
                assert(part@.subrange(0, part@.len() as int) =~= part@);
                assert(texts(r@) =~= texts(before).push(part@));
            }
        }
        i += 1;
    }
    proof {
        assert(all.take(all.len() as int) =~= all);
    }
    r
}

/// The components of the path `s`.
pub fn read_components(s: &str) -> (r: Vec<String>)
    ensures
        texts(r@) == components(s@),
{
    let v = chars_of(s);
    let slash: Vec<char> = vec!['/'];
    proof {
        assert(slash@ =~= seq!['/']);
        lemma_split_has_no_slash(s@);
    }
    let parts = split_text(&v, &slash);
    let mut start: Vec<String> = Vec::new();
    proof {
        assert(texts(start@) =~= seq![]);
        assert(pieces(parts@).skip(0) =~= pieces(parts@));
        assert(pieces(parts@)[0] == parts@[0]@);
        assert(pieces(parts@).skip(1) =~= pieces(parts@).drop_first());
    }
    if v.len() > 0 && v[0] == '/' {
        start.push(string_between(&slash, 0, 1));
        proof {
            assert(slash@.subrange(0, 1) =~= seq!['/']);
            assert(texts(start@) =~= seq![seq!['/']]);
        }
        collect_names(&parts, 0, start)
    } else if parts[0].len() == 1 && parts[0][0] == '.' {
        start.push(string_between(&parts[0], 0, 1));
        proof {
            assert(parts@[0]@ =~= seq!['.']);
            assert(parts@[0]@.subrange(0, 1) =~= seq!['.']);
            assert(texts(start@) =~= seq![seq!['.']]);
        }
        collect_names(&parts, 1, start)
    } else {
        proof {
            if parts@[0]@ == seq!['.'] {
                assert(parts@[0]@[0] == '.');
            }
        }
        collect_names(&parts, 0, start)
    }
}

/// The path `b` seen from the directory `a`.
pub fn join(a: &str, b: &str) -> (r: String)
    ensures
        r@ == joined(a@, b@),
{
    let av = chars_of(a);
    let bv = chars_of(b);
    if bv.len() > 0 && bv[0] == '/' {
        return b.to_owned();
    }
    let mut r = a.to_owned();
    if av.len() > 0 && av[av.len() - 1] != '/' {
        r.push('/');
    }
    r.append(b);
    r
}

/// The content of a path: the text that spells it, and its components. Two
/// spellings are the same path when the components agree.
pub struct PathView {
    pub text: Seq<char>,
    pub parts: Seq<Seq<char>>,
}

/// A path: the text that spells it, and its components.
#[derive(Debug)]
pub struct FilePath {
    text: String,
    parts: Vec<String>,
}

impl View for FilePath {
    type V = Seq<Seq<char>>;

    closed spec fn view(&self) -> Seq<Seq<char>> {
        texts(self.parts@)
    }
}

impl FilePath {
    #[verifier::type_invariant]
    spec fn well_formed(self) -> bool {
        texts(self.parts@) == components(self.text@)
    }

    /// The text of the path.
    pub closed spec fn text(&self) -> Seq<char> {
        self.text@
    }

    /// The path with its spelling.
    pub open spec fn full(&self) -> PathView {
        PathView { text: self.text(), parts: self@ }
    }

    /// The path that `text` spells.
    pub fn new(text: &str) -> (r: FilePath)
        ensures
            r.text() == text@,
            r@ == components(text@),
    {
        FilePath { text: text.to_owned(), parts: read_components(text) }
    }

    /// The text of the path.
    pub fn as_str(&self) -> (r: &str)
        ensures
            r@ == self.text(),
            components(r@) == self@,
    {
        proof {
            use_type_invariant(self);
        }
        self.text.as_str()
    }

    /// A copy of the components.
    pub fn components(&self) -> (r: Vec<String>)
        ensures
            texts(r@) == self@,
    {
        let mut r: Vec<String> = Vec::new();
        let mut i: usize = 0;
        while i < self.parts.len()
            invariant
                i <= self.parts@.len(),
                texts(r@) == texts(self.parts@).take(i as int),
            decreases self.parts@.len() - i,
        {
            let ghost before = r@;
            r.push(self.parts[i].clone());
            proof {
                assert(texts(r@) =~= texts(before).push(self.parts@[i as int]@));
                assert(texts(self.parts@).take(i + 1) =~= texts(self.parts@).take(i as int).push(
                    self.parts@[i as int]@,
                ));
            }
            i += 1;
        }
        proof {
            assert(texts(self.parts@).take(i as int) =~= texts(self.parts@));
        }
        r
    }

    /// Whether two spellings are the same path.
    pub fn same_path(&self, other: &FilePath) -> (r: bool)
        ensures
            r == (self@ == other@),
    {
        if self.parts.len() != other.parts.len() {
            proof {
                assert(self@.len() != other@.len());
            }
            return false;
        }
        let mut i: usize = 0;
        while i < self.parts.len()
            invariant
                self.parts@.len() == other.parts@.len(),
                i <= self.parts@.len(),
                forall|j: int| 0 <= j < i ==> self.parts@[j]@ == other.parts@[j]@,
            decreases self.parts@.len() - i,
        {
            if self.parts[i] != other.parts[i] {
                proof {
                    assert(self@[i as int] != other@[i as int]);
                }
                return false;
            }
            i += 1;
        }
        proof {
            assert(self@ =~= other@);
        }
        true
    }

    /// The last name of the path.
    pub fn file_name(&self) -> (r: Option<String>)
        ensures
            match r {
                Some(n) => last_name(self@) == Some(n@),
                None => last_name(self@) is None,
            },
    {
        proof {
            reveal_strlit("/");
            reveal_strlit(".");
            reveal_strlit("..");
            assert("/"@ =~= seq!['/']);
            assert("."@ =~= seq!['.']);
            assert(".."@ =~= seq!['.', '.']);
        }
        if self.parts.len() == 0 {
            return None;
        }
        let last = &self.parts[self.parts.len() - 1];
        proof {
            assert(self@.last() == last@);
        }
        if *last == "/".to_owned() || *last == ".".to_owned() || *last == "..".to_owned() {
            None
        } else {
            Some(last.clone())
        }
    }

    /// What is left of the path below the directory `base`, as it is spelled:
    /// nothing where it does not lie there, component by component.
    pub fn strip_prefix(&self, base: &FilePath) -> (r: Option<FilePath>)
        ensures
            match r {
                Some(rest) => self@ == base@ + rest@ && rest.text() == tail_text(
                    self.text(),
                    base@.len(),
                ),
                None => !base@.is_prefix_of(self@),
            },
    {
        proof {
            use_type_invariant(self);
        }
        if base.parts.len() > self.parts.len() {
            return None;
        }
        let mut i: usize = 0;
        while i < base.parts.len()
            invariant
                base.parts@.len() <= self.parts@.len(),
                i <= base.parts@.len(),
                forall|j: int| 0 <= j < i ==> self.parts@[j]@ == base.parts@[j]@,
            decreases base.parts@.len() - i,
        {
            if self.parts[i] != base.parts[i] {
                proof {
                    assert(self@.take(base@.len() as int)[i as int] != base@[i as int]);
                }
                return None;
            }
            i += 1;
        }
        let text = read_tail(self.text.as_str(), base.parts.len());
        proof {
            tail_reads_back(self.text@, base@.len());
            assert(self@ =~= base@ + self@.skip(base@.len() as int));
        }
        Some(FilePath::new(text.as_str()))
    }

    /// Whether `name` is the last component.
    pub fn ends_with_name(&self, name: &str) -> (r: bool)
        ensures
            r == (self@.len() > 0 && self@.last() == name@),
    {
        if self.parts.len() == 0 {
            return false;
        }
        let last = &self.parts[self.parts.len() - 1];
        proof {
            assert(self@.last() == last@);
        }
        *last == name.to_owned()
    }
}

impl Clone for FilePath {
    fn clone(&self) -> (r: FilePath)
        ensures
            r@ == self@,
            r.text() == self.text(),
    {
        let parts = self.components();
        proof {
            use_type_invariant(self);
        }
        FilePath { text: self.text.clone(), parts }
    }
}

impl Eq for FilePath {

}

impl PartialEq for FilePath {
    fn eq(&self, other: &FilePath) -> (r: bool) {
        self.same_path(other)
    }
}

impl vstd::std_specs::cmp::PartialEqSpecImpl for FilePath {
    open spec fn obeys_eq_spec() -> bool {
        true
    }

    open spec fn eq_spec(&self, other: &FilePath) -> bool {
        self@ == other@
    }
}

} // verus!
