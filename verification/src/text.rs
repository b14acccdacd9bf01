//! Text as sequences of characters: the string operations that the diff
//! reader and the path rules are written with.

use vstd::arithmetic::power::{lemma_pow0, pow};
use vstd::prelude::*;

verus! {

/// Whether `c` has the Unicode property `White_Space`.
pub open spec fn white_space(c: char) -> bool {
    ||| '\u{9}' <= c <= '\u{d}'
    ||| c == ' '
    ||| c == '\u{85}'
    ||| c == '\u{a0}'
    ||| c == '\u{1680}'
    ||| '\u{2000}' <= c <= '\u{200a}'
    ||| c == '\u{2028}'
    ||| c == '\u{2029}'
    ||| c == '\u{202f}'
    ||| c == '\u{205f}'
    ||| c == '\u{3000}'
}

/// `char::is_whitespace` tells whether the character has the Unicode property
/// `White_Space`.
pub assume_specification[ char::is_whitespace ](c: char) -> (r: bool)
    ensures
        r == white_space(c),
;

/// `String::push` appends the character to the end of the string.
pub assume_specification[ String::push ](s: &mut String, c: char)
    ensures
        final(s)@ == old(s)@.push(c),
;

/// Bytes read as UTF-8, as `String::from_utf8_lossy` reads them: what is not
/// valid gives way to replacement characters.
pub uninterp spec fn utf8_lossy(bytes: Seq<u8>) -> Seq<char>;

/// `String::from_utf8_lossy` decodes the bytes; `utf8_lossy` names the text. It
/// replaces nothing in valid UTF-8.
#[verifier::external_body]
pub(crate) fn lossy_text(bytes: &Vec<u8>) -> (r: String)
    ensures
        r@ == utf8_lossy(bytes@),
        vstd::utf8::valid_utf8(bytes@) ==> r@ == vstd::utf8::decode_utf8(bytes@),
{
    String::from_utf8_lossy(bytes.as_slice()).into_owned()
}

/// The characters of `s`, in order.
pub fn chars_of(s: &str) -> (r: Vec<char>)
    ensures
        r@ == s@,
{
    let mut r: Vec<char> = Vec::new();
    for c in it: s.chars()
        invariant
            it.seq() == s@,
            r@ == s@.take(it.index()),
    {
        proof {
            assert(s@.take(it.index() + 1) =~= s@.take(it.index()).push(s@[it.index()]));
        }
        r.push(c);
    }
    proof {
        assert(s@.take(s@.len() as int) =~= s@);
    }
    r
}

/// The string with the characters `v[from..to]`.
pub fn string_between(v: &Vec<char>, from: usize, to: usize) -> (r: String)
    requires
        from <= to <= v@.len(),
    ensures
        r@ == v@.subrange(from as int, to as int),
{
    let mut r = String::new();
    let mut i: usize = from;
    while i < to
        invariant
            from <= i <= to <= v@.len(),
            r@ == v@.subrange(from as int, i as int),
        decreases to - i,
    {
        proof {
            assert(v@.subrange(from as int, i + 1) =~= v@.subrange(from as int, i as int).push(
                v@[i as int],
            ));
        }
        r.push(v[i]);
        i += 1;
    }
    r
}

/// The contents of a list of strings.
pub open spec fn texts(v: Seq<String>) -> Seq<Seq<char>> {
    v.map_values(|s: String| s@)
}

/// Whether `name` is in the list.
pub fn has_text(names: &Vec<String>, name: &str) -> (r: bool)
    ensures
        r == texts(names@).contains(name@),
{
    let wanted = name.to_owned();
    let mut i: usize = 0;
    while i < names.len()
        invariant
            i <= names@.len(),
            wanted@ == name@,
            forall|k: int| 0 <= k < i ==> names@[k]@ != name@,
        decreases names@.len() - i,
    {
        if names[i] == wanted {
            proof {
                assert(texts(names@)[i as int] == name@);
            }
            return true;
        }
        i += 1;
    }
    proof {
        if texts(names@).contains(name@) {
            let k = choose|k: int| 0 <= k < texts(names@).len() && texts(names@)[k] == name@;
            assert(names@[k]@ == name@);
        }
    }
    false
}

/// The text `a` followed by `b`.
pub fn concat(a: &str, b: &str) -> (r: String)
    ensures
        r@ == a@ + b@,
{
    let mut r = a.to_owned();
    r.append(b);
    r
}

/// The contents of a list of character lists.
pub open spec fn pieces(v: Seq<Vec<char>>) -> Seq<Seq<char>> {
    v.map_values(|s: Vec<char>| s@)
}

/// Whether `pat` stands in `s` at position `i`.
pub open spec fn occurs_at(s: Seq<char>, pat: Seq<char>, i: int) -> bool {
    0 <= i && i + pat.len() <= s.len() && s.subrange(i, i + pat.len()) == pat
}

/// The first position at or after `from` where `pat` stands in `s`.
pub open spec fn find_from(s: Seq<char>, pat: Seq<char>, from: nat) -> Option<nat>
    decreases s.len() + 1 - from,
{
    if from + pat.len() > s.len() {
        None
    } else if occurs_at(s, pat, from as int) {
        Some(from)
    } else {
        find_from(s, pat, from + 1)
    }
}

/// Whether `s` begins with `pat`.
pub open spec fn starts_with(s: Seq<char>, pat: Seq<char>) -> bool {
    occurs_at(s, pat, 0)
}

/// Whether `s` ends with `pat`.
pub open spec fn ends_with(s: Seq<char>, pat: Seq<char>) -> bool {
    occurs_at(s, pat, s.len() - pat.len())
}

/// Whether `pat` stands anywhere in `s`.
pub open spec fn contains(s: Seq<char>, pat: Seq<char>) -> bool {
    exists|i: int| occurs_at(s, pat, i)
}

/// The parts of `s` between the occurrences of `sep`, taken from left to right.
pub open spec fn split(s: Seq<char>, sep: Seq<char>) -> Seq<Seq<char>>
    decreases s.len(),
{
    match find_from(s, sep, 0) {
        Some(i) if sep.len() > 0 && i + sep.len() <= s.len() => seq![s.take(i as int)] + split(
            s.skip((i + sep.len()) as int),
            sep,
        ),
        _ => seq![s],
    }
}

/// `s` without one final carriage return.
pub open spec fn chop_cr(s: Seq<char>) -> Seq<char> {
    if s.len() > 0 && s.last() == '\r' {
        s.drop_last()
    } else {
        s
    }
}

/// The lines of `s`: a line ends with a line feed, which may follow a carriage
/// return, and neither belongs to the line. A last line without a line feed
/// counts unless it is empty.
pub open spec fn lines(s: Seq<char>) -> Seq<Seq<char>>
    decreases s.len(),
{
    if s.len() == 0 {
        seq![]
    } else {
        match find_from(s, seq!['\n'], 0) {
            Some(i) if i < s.len() => seq![chop_cr(s.take(i as int))] + lines(
                s.skip(i + 1int),
            ),
            _ => seq![s],
        }
    }
}

/// `s` without the white space at its start.
pub open spec fn trim_start(s: Seq<char>) -> Seq<char>
    decreases s.len(),
{
    if s.len() > 0 && white_space(s[0]) {
        trim_start(s.drop_first())
    } else {
        s
    }
}

/// `s` without the white space at its end.
pub open spec fn trim_end(s: Seq<char>) -> Seq<char>
    decreases s.len(),
{
    if s.len() > 0 && white_space(s.last()) {
        trim_end(s.drop_last())
    } else {
        s
    }
}

/// `s` without the white space at either end.
pub open spec fn trim(s: Seq<char>) -> Seq<char> {
    trim_end(trim_start(s))
}

/// `s` without `pat` at its start, however often it is repeated there.
pub open spec fn strip_repeated(s: Seq<char>, pat: Seq<char>) -> Seq<char>
    decreases s.len(),
{
    if pat.len() > 0 && starts_with(s, pat) {
        strip_repeated(s.skip(pat.len() as int), pat)
    } else {
        s
    }
}

/// `s` without any occurrence of the character `c`.
pub open spec fn without_char(s: Seq<char>, c: char) -> Seq<char>
    decreases s.len(),
{
    if s.len() == 0 {
        s
    } else if s.last() == c {
        without_char(s.drop_last(), c)
    } else {
        without_char(s.drop_last(), c).push(s.last())
    }
}

/// Whether `s` is made of ASCII digits alone.
pub open spec fn all_digits(s: Seq<char>) -> bool {
    forall|i: int| 0 <= i < s.len() ==> '0' <= #[trigger] s[i] <= '9'
}

/// The number that the decimal digits `s` write.
pub open spec fn decimal(s: Seq<char>) -> nat
    decreases s.len(),
{
    if s.len() == 0 {
        0
    } else {
        decimal(s.drop_last()) * 10 + (s.last() as nat - '0' as nat) as nat
    }
}

/// `s` read as a decimal number: an optional plus sign, then digits only, and a
/// value that a `usize` holds.
pub open spec fn parsed_usize(s: Seq<char>) -> Option<usize> {
    let digits = if s.len() > 0 && s[0] == '+' {
        s.skip(1)
    } else {
        s
    };
    if digits.len() > 0 && all_digits(digits) && decimal(digits) <= usize::MAX {
        Some(decimal(digits) as usize)
    } else {
        None
    }
}

proof fn lemma_occurs_skip(s: Seq<char>, pat: Seq<char>, pos: int, i: int)
    requires
        0 <= pos <= s.len(),
        0 <= i,
    ensures
        occurs_at(s.skip(pos), pat, i) == occurs_at(s, pat, pos + i),
{
    if i + pat.len() <= s.len() - pos {
        assert(s.skip(pos).subrange(i, i + pat.len()) =~= s.subrange(
            pos + i,
            pos + i + pat.len(),
        ));
    }
}

proof fn lemma_find_skip(s: Seq<char>, pat: Seq<char>, pos: nat, from: nat)
    requires
        pos <= s.len(),
    ensures
        match find_from(s, pat, pos + from) {
            Some(i) => find_from(s.skip(pos as int), pat, from) == Some((i - pos) as nat) && i >= pos
                + from && i + pat.len() <= s.len(),
            None => find_from(s.skip(pos as int), pat, from) is None,
        },
    decreases s.len() + 1 - from,
{
    if pos + from + pat.len() <= s.len() {
        lemma_occurs_skip(s, pat, pos as int, from as int);
        if !occurs_at(s, pat, (pos + from) as int) {
            lemma_find_skip(s, pat, pos, from + 1);
        }
    }
}

pub(crate) proof fn lemma_find_first(s: Seq<char>, pat: Seq<char>, from: nat, n: nat)
    requires
        from <= n,
        occurs_at(s, pat, n as int),
        forall|i: int| from <= i < n ==> !occurs_at(s, pat, i),
    ensures
        find_from(s, pat, from) == Some(n),
    decreases n - from,
{
    if from < n {
        lemma_find_first(s, pat, from + 1, n);
    }
}

pub(crate) proof fn lemma_find_is_first(s: Seq<char>, pat: Seq<char>, from: nat)
    ensures
        match find_from(s, pat, from) {
            Some(n) => from <= n && n + pat.len() <= s.len() && (forall|i: int|
                from <= i < n ==> !occurs_at(s, pat, i)),
            None => forall|i: int| from <= i ==> !occurs_at(s, pat, i),
        },
    decreases s.len() + 1 - from,
{
    if from + pat.len() <= s.len() && !occurs_at(s, pat, from as int) {
        lemma_find_is_first(s, pat, from + 1);
    }
}

pub(crate) proof fn lemma_found(s: Seq<char>, pat: Seq<char>, from: nat)
    ensures
        find_from(s, pat, from) matches Some(i) ==> occurs_at(s, pat, i as int),
    decreases s.len() + 1 - from,
{
    if from + pat.len() <= s.len() && !occurs_at(s, pat, from as int) {
        lemma_found(s, pat, from + 1);
    }
}

pub(crate) proof fn lemma_char_at(s: Seq<char>, c: char, i: int)
    ensures
        occurs_at(s, seq![c], i) <==> 0 <= i < s.len() && s[i] == c,
{
    let one = seq![c];
    assert(one.len() == 1 && one[0] == c);
    if 0 <= i < s.len() {
        let part = s.subrange(i, i + 1);
        assert(part[0] == s[i]);
        if s[i] == c {
            assert(part =~= one);
        }
    }
}

/// A text in which a character does not occur is not split by it.
pub proof fn text_without_a_character_is_one_part(s: Seq<char>, c: char)
    requires
        !s.contains(c),
    ensures
        split(s, seq![c]) == seq![s],
{
    if let Some(i) = find_from(s, seq![c], 0) {
        lemma_found(s, seq![c], 0);
        lemma_char_at(s, c, i as int);
        assert(s.contains(s[i as int]));
    }
}

/// Two texts with a separating character between them split into the parts of the
/// first, and then those of the second.
pub proof fn text_splits_at_a_character(a: Seq<char>, c: char, b: Seq<char>)
    ensures
        split(a + seq![c] + b, seq![c]) == split(a, seq![c]) + split(b, seq![c]),
    decreases a.len(),
{
    let sep = seq![c];
    let s = a + sep + b;
    assert(sep.len() == 1);
    assert forall|i: int| 0 <= i < a.len() implies occurs_at(s, sep, i) == #[trigger] occurs_at(
        a,
        sep,
        i,
    ) by {
        lemma_char_at(s, c, i);
        lemma_char_at(a, c, i);
    }
    lemma_find_is_first(a, sep, 0);
    lemma_found(a, sep, 0);
    match find_from(a, sep, 0) {
        Some(i) => {
            let next = i + 1int;
            assert forall|k: int| 0 <= k < i implies !occurs_at(s, sep, k) by {
                assert(!occurs_at(a, sep, k));
            }
            assert(occurs_at(a, sep, i as int));
            lemma_find_first(s, sep, 0, i);
            text_splits_at_a_character(a.skip(next), c, b);
            assert(s.take(i as int) =~= a.take(i as int));
            assert(s.skip(next) =~= a.skip(next) + sep + b);
            assert(split(s, sep) == seq![a.take(i as int)] + split(s.skip(next), sep));
            assert(split(a, sep) == seq![a.take(i as int)] + split(a.skip(next), sep));
            assert(split(s, sep) =~= split(a, sep) + split(b, sep));
        },
        None => {
            let n = a.len();
            assert forall|k: int| 0 <= k < n implies !occurs_at(s, sep, k) by {
                assert(!occurs_at(a, sep, k));
            }
            lemma_char_at(s, c, n as int);
            lemma_find_first(s, sep, 0, n);
            assert(s.take(n as int) =~= a);
            assert(s.skip(n + 1int) =~= b);
            assert(split(a, sep) == seq![a]);
            assert(split(s, sep) == seq![a] + split(b, sep));
        },
    }
}

/// A text begins with another exactly where it is that text and a rest.
pub proof fn beginning_is_a_prefix(s: Seq<char>, pat: Seq<char>)
    ensures
        starts_with(s, pat) <==> exists|rest: Seq<char>| s == #[trigger] (pat + rest),
{
    if starts_with(s, pat) {
        assert(s =~= pat + s.skip(pat.len() as int)) by {
            assert(s.subrange(0, pat.len() as int) =~= s.take(pat.len() as int));
        }
    }
    if exists|rest: Seq<char>| s == #[trigger] (pat + rest) {
        let rest = choose|rest: Seq<char>| s == #[trigger] (pat + rest);
        assert(s.subrange(0, pat.len() as int) =~= pat);
    }
}

/// A text ends with another exactly where it is something followed by that text.
pub proof fn end_is_a_suffix(s: Seq<char>, pat: Seq<char>)
    ensures
        ends_with(s, pat) <==> exists|start: Seq<char>| s == #[trigger] (start + pat),
{
    let n = s.len() - pat.len();
    if ends_with(s, pat) {
        assert(s.subrange(n, n + pat.len()) =~= s.skip(n));
        assert(s =~= s.take(n) + pat);
    }
    if exists|start: Seq<char>| s == #[trigger] (start + pat) {
        let start = choose|start: Seq<char>| s == #[trigger] (start + pat);
        assert(s.subrange(n, n + pat.len()) =~= pat);
    }
}

/// A text holds another exactly where it can be written as something, that text, and
/// something else.
pub proof fn held_text_lies_inside(s: Seq<char>, pat: Seq<char>)
    ensures
        contains(s, pat) <==> exists|a: Seq<char>, b: Seq<char>| s == #[trigger] (a + pat + b),
{
    if contains(s, pat) {
        let i = choose|i: int| occurs_at(s, pat, i);
        assert(s =~= s.take(i) + pat + s.skip(i + pat.len())) by {
            assert(s.subrange(i, i + pat.len()) =~= pat);
        }
    }
    if exists|a: Seq<char>, b: Seq<char>| s == #[trigger] (a + pat + b) {
        let (a, b) = choose|a: Seq<char>, b: Seq<char>| s == #[trigger] (a + pat + b);
        assert(s.subrange(a.len() as int, (a.len() + pat.len()) as int) =~= pat);
        assert(occurs_at(s, pat, a.len() as int));
    }
}

/// Splitting cuts a text at the first separator and goes on behind it; a text without
/// one stays whole.
pub proof fn text_splits_at_the_first_separator(a: Seq<char>, sep: Seq<char>, b: Seq<char>)
    requires
        sep.len() > 0,
        forall|i: int| 0 <= i < a.len() ==> !#[trigger] occurs_at(a + sep + b, sep, i),
    ensures
        split(a + sep + b, sep) == seq![a] + split(b, sep),
{
    let s = a + sep + b;
    let n = a.len();
    assert(s.subrange(n as int, (n + sep.len()) as int) =~= sep);
    lemma_find_first(s, sep, 0, n);
    assert(s.take(n as int) =~= a);
    assert(s.skip((n + sep.len()) as int) =~= b);
}

/// A text without the separator is not split.
pub proof fn text_without_a_separator_is_one_part(s: Seq<char>, sep: Seq<char>)
    requires
        !contains(s, sep),
    ensures
        split(s, sep) == seq![s],
{
    if let Some(i) = find_from(s, sep, 0) {
        lemma_found(s, sep, 0);
        assert(occurs_at(s, sep, i as int));
    }
}

/// A line ends at the first line feed, and a carriage return in front of it belongs to
/// neither side. What follows is read in turn.
pub proof fn lines_are_read_in_turn(line: Seq<char>, rest: Seq<char>)
    requires
        !line.contains('\n'),
    ensures
        line.len() > 0 ==> lines(line) == seq![line],
        lines(Seq::<char>::empty()).len() == 0,
        lines(line + seq!['\r', '\n'] + rest) == seq![line] + lines(rest),
        line.len() == 0 || line.last() != '\r' ==> lines(line + seq!['\n'] + rest) == seq![line]
            + lines(rest),
{
    let feed = seq!['\n'];
    lemma_find_is_first(line, feed, 0);
    lemma_found(line, feed, 0);
    if let Some(i) = find_from(line, feed, 0) {
        lemma_char_at(line, '\n', i as int);
        assert(line.contains(line[i as int]));
    }
    assert forall|k: int| 0 <= k < line.len() implies #[trigger] line[k] != '\n' by {
        assert(line.contains(line[k]));
    }
    let s = line + feed + rest;
    let n = line.len();
    assert forall|k: int| 0 <= k < n implies !occurs_at(s, feed, k) by {
        lemma_char_at(s, '\n', k);
    }
    lemma_char_at(s, '\n', n as int);
    lemma_find_first(s, feed, 0, n);
    assert(s.take(n as int) =~= line);
    assert(s.skip(n + 1int) =~= rest);
    let t = line + seq!['\r', '\n'] + rest;
    assert forall|k: int| 0 <= k < n + 1 implies !occurs_at(t, feed, k) by {
        lemma_char_at(t, '\n', k);
        if k < n {
            assert(t[k] == line[k]);
        }
    }
    lemma_char_at(t, '\n', n + 1int);
    lemma_find_first(t, feed, 0, n + 1);
    assert(t.take(n + 1int) =~= line.push('\r'));
    assert(line.push('\r').drop_last() =~= line);
    assert(t.skip(n + 2int) =~= rest);
}

proof fn lemma_trim_start(a: Seq<char>, m: Seq<char>)
    requires
        forall|i: int| 0 <= i < a.len() ==> white_space(#[trigger] a[i]),
        m.len() > 0 ==> !white_space(m[0]),
    ensures
        trim_start(a + m) == m,
    decreases a.len(),
{
    if a.len() == 0 {
        assert(a + m =~= m);
    } else {
        let rest = a.drop_first();
        assert((a + m).drop_first() =~= rest + m);
        assert(white_space((a + m)[0])) by {
            assert(white_space(a[0]));
        }
        assert forall|i: int| 0 <= i < rest.len() implies white_space(#[trigger] rest[i]) by {
            assert(rest[i] == a[i + 1]);
        }
        lemma_trim_start(rest, m);
    }
}

proof fn lemma_trim_end(m: Seq<char>, b: Seq<char>)
    requires
        forall|i: int| 0 <= i < b.len() ==> white_space(#[trigger] b[i]),
        m.len() > 0 ==> !white_space(m.last()),
    ensures
        trim_end(m + b) == m,
    decreases b.len(),
{
    if b.len() == 0 {
        assert(m + b =~= m);
    } else {
        assert((m + b).drop_last() =~= m + b.drop_last());
        assert((m + b).last() == b[b.len() - 1]);
        lemma_trim_end(m, b.drop_last());
    }
}

/// Trimming leaves what lies between the white space at either end.
pub proof fn trimming_leaves_what_lies_between(before: Seq<char>, s: Seq<char>, behind: Seq<char>)
    requires
        forall|i: int| 0 <= i < before.len() ==> white_space(#[trigger] before[i]),
        forall|i: int| 0 <= i < behind.len() ==> white_space(#[trigger] behind[i]),
        s.len() > 0 ==> !white_space(s[0]) && !white_space(s.last()),
    ensures
        trim(before + s + behind) == s,
{
    if s.len() > 0 {
        assert(before + s + behind =~= before + (s + behind));
        lemma_trim_start(before, s + behind);
        lemma_trim_end(s, behind);
    } else {
        let all = before + s + behind;
        assert forall|i: int| 0 <= i < all.len() implies white_space(#[trigger] all[i]) by {
            if i < before.len() {
                assert(all[i] == before[i]);
            } else {
                assert(all[i] == behind[i - before.len()]);
            }
        }
        assert(all + s =~= all);
        lemma_trim_start(all, s);
        assert(s =~= seq![]);
    }
}

/// A text loses a beginning as often as it is repeated, and nothing else.
pub proof fn repeated_beginning_is_lost(s: Seq<char>, pat: Seq<char>)
    requires
        pat.len() > 0,
    ensures
        strip_repeated(pat + s, pat) == strip_repeated(s, pat),
        (forall|rest: Seq<char>| s != #[trigger] (pat + rest)) ==> strip_repeated(s, pat) == s,
{
    let all = pat + s;
    assert(all.subrange(0, pat.len() as int) =~= pat);
    assert(all.skip(pat.len() as int) =~= s);
    beginning_is_a_prefix(s, pat);
}

/// Removing a character is done piece by piece: it takes that character and leaves any
/// other.
pub proof fn removal_takes_only_the_character(a: Seq<char>, b: Seq<char>, c: char)
    ensures
        without_char(a + b, c) == without_char(a, c) + without_char(b, c),
        without_char(seq![c], c) == Seq::<char>::empty(),
        !a.contains(c) ==> without_char(a, c) == a,
    decreases a.len() + b.len(),
{
    assert(seq![c].drop_last() =~= seq![]);
    assert(seq![c].last() == c);
    assert(without_char(seq![c].drop_last(), c) =~= seq![]);
    if b.len() == 0 {
        assert(a + b =~= a);
        assert(without_char(a, c) + b =~= without_char(a, c));
    } else {
        let ab = a + b;
        assert(ab.drop_last() =~= a + b.drop_last());
        assert(ab.last() == b.last());
        removal_takes_only_the_character(a, b.drop_last(), c);
        let x = without_char(a, c);
        let y = without_char(b.drop_last(), c);
        assert((x + y).push(b.last()) =~= x + y.push(b.last()));
    }
    if !a.contains(c) && a.len() > 0 {
        assert(a[a.len() - 1] == a.last());
        assert(a.contains(a.last()));
        let rest = a.drop_last();
        assert(!rest.contains(c)) by {
            if rest.contains(c) {
                let i = choose|i: int| 0 <= i < rest.len() && rest[i] == c;
                assert(a[i] == c);
            }
        }
        removal_takes_only_the_character(rest, seq![], c);
        assert(rest.push(a.last()) =~= a);
    }
}

/// Digits write a number in base ten, the last of them counting ones.
pub proof fn digits_write_a_number(a: Seq<char>, b: Seq<char>, d: char)
    ensures
        decimal(Seq::<char>::empty()) == 0,
        '0' <= d <= '9' ==> decimal(seq![d]) == d as int - 48,
        decimal(a + b) == decimal(a) * pow(10, b.len()) + decimal(b),
    decreases b.len(),
{
    assert(seq![d].drop_last() =~= seq![]);
    if b.len() == 0 {
        assert(a + b =~= a);
        lemma_pow0(10);
        assert(decimal(a) * 1 == decimal(a)) by (nonlinear_arith);
    } else {
        let ab = a + b;
        let rest = b.drop_last();
        let ones = (b.last() as nat - '0' as nat) as nat;
        assert(ab.drop_last() =~= a + rest);
        assert(ab.last() == b.last());
        digits_write_a_number(a, rest, d);
        reveal(pow);
        let p = pow(10, rest.len());
        assert(pow(10, b.len()) == 10 * p);
        assert((decimal(a) * p + decimal(rest)) * 10 + ones == decimal(a) * (10 * p) + (decimal(
            rest,
        ) * 10 + ones)) by (nonlinear_arith);
    }
}

/// A text is a number where it is digits, a plus sign in front allowed, and their value
/// fits; then it is that value.
pub proof fn numbers_are_digits(digits: Seq<char>)
    requires
        digits.len() > 0,
    ensures
        all_digits(digits) && decimal(digits) <= usize::MAX ==> parsed_usize(digits) == Some(
            decimal(digits) as usize,
        ) && parsed_usize(seq!['+'] + digits) == Some(decimal(digits) as usize),
        all_digits(digits) && decimal(digits) > usize::MAX ==> parsed_usize(digits) is None
            && parsed_usize(seq!['+'] + digits) is None,
        !all_digits(digits) ==> parsed_usize(seq!['+'] + digits) is None,
        digits[0] != '+' && !all_digits(digits) ==> parsed_usize(digits) is None,
{
    assert((seq!['+'] + digits).skip(1) =~= digits);
}

/// Whether `pat` stands in `v` at position `i`.
pub fn occurs(v: &Vec<char>, pat: &Vec<char>, i: usize) -> (r: bool)
    ensures
        r == occurs_at(v@, pat@, i as int),
{
    if i > v.len() || pat.len() > v.len() - i {
        return false;
    }
    let mut k: usize = 0;
    while k < pat.len()
        invariant
            k <= pat@.len(),
            i + pat@.len() <= v.len(),
            forall|j: int| 0 <= j < k ==> v@[i + j] == pat@[j],
        decreases pat@.len() - k,
    {
        if v[i + k] != pat[k] {
            proof {
                assert(v@.subrange(i as int, i + pat@.len())[k as int] != pat@[k as int]);
            }
            return false;
        }
        k += 1;
    }
    proof {
        assert(v@.subrange(i as int, i + pat@.len()) =~= pat@);
    }
    true
}

/// The first position at or after `from` where `pat` stands in `v`.
pub fn find(v: &Vec<char>, pat: &Vec<char>, from: usize) -> (r: Option<usize>)
    requires
        from <= v@.len(),
    ensures
        match r {
            Some(i) => find_from(v@, pat@, from as nat) == Some(i as nat) && from <= i && i
                + pat@.len() <= v.len(),
            None => find_from(v@, pat@, from as nat) is None,
        },
{
    let mut i: usize = from;
    while i <= v.len() && pat.len() <= v.len() - i
        invariant
            from <= i <= v.len(),
            find_from(v@, pat@, from as nat) == find_from(v@, pat@, i as nat),
        decreases v@.len() + 1 - i,
    {
        if occurs(v, pat, i) {
            return Some(i);
        }
        proof {
            if pat@.len() == 0 {
                assert(v@.subrange(i as int, i as int) =~= pat@);
            }
        }
        i += 1;
    }
    None
}

/// The parts of `v` between the occurrences of `sep`.
pub fn split_text(v: &Vec<char>, sep: &Vec<char>) -> (r: Vec<Vec<char>>)
    requires
        sep@.len() > 0,
    ensures
        pieces(r@) == split(v@, sep@),
{
    let mut r: Vec<Vec<char>> = Vec::new();
    let mut pos: usize = 0;
    proof {
        assert(v@.skip(0) =~= v@);
        assert(pieces(r@) + split(v@, sep@) =~= split(v@, sep@));
    }
    loop
        invariant
            sep@.len() > 0,
            pos <= v@.len(),
            pieces(r@) + split(v@.skip(pos as int), sep@) == split(v@, sep@),
        decreases v@.len() - pos,
    {
        let ghost rest = v@.skip(pos as int);
        let ghost before = r@;
        proof {
            lemma_find_skip(v@, sep@, pos as nat, 0);
        }
        match find(v, sep, pos) {
            Some(i) => {
                let part = copy_between(v, pos, i);
                r.push(part);
                proof {
                    assert(rest.take(i - pos) =~= part@);
                    assert(rest.skip(i - pos + sep@.len()) =~= v@.skip(i + sep@.len()));
                    assert(pieces(r@) =~= pieces(before).push(part@));
                    assert(pieces(r@) + split(v@.skip(i + sep@.len()), sep@) =~= pieces(before) + (
                    seq![part@] + split(v@.skip(i + sep@.len()), sep@)));
                }
                pos = i + sep.len();
            },
            None => {
                let part = copy_between(v, pos, v.len());
                r.push(part);
                proof {
                    assert(rest =~= part@);
                    assert(pieces(r@) =~= pieces(before).push(part@));
                    assert(pieces(before) + seq![part@] =~= pieces(r@));
                }
                return r;
            },
        }
    }
}

/// The characters `v[from..to]`.
pub fn copy_between(v: &Vec<char>, from: usize, to: usize) -> (r: Vec<char>)
    requires
        from <= to <= v@.len(),
    ensures
        r@ == v@.subrange(from as int, to as int),
{
    let mut r: Vec<char> = Vec::new();
    let mut i: usize = from;
    while i < to
        invariant
            from <= i <= to <= v@.len(),
            r@ == v@.subrange(from as int, i as int),
        decreases to - i,
    {
        proof {
            assert(v@.subrange(from as int, i + 1) =~= v@.subrange(from as int, i as int).push(
                v@[i as int],
            ));
        }
        r.push(v[i]);
        i += 1;
    }
    r
}

/// Whether `v` begins with `pat`.
pub fn begins_with(v: &Vec<char>, pat: &Vec<char>) -> (r: bool)
    ensures
        r == starts_with(v@, pat@),
{
    occurs(v, pat, 0)
}

/// Whether `v` ends with `pat`.
pub fn finishes_with(v: &Vec<char>, pat: &Vec<char>) -> (r: bool)
    ensures
        r == ends_with(v@, pat@),
{
    pat.len() <= v.len() && occurs(v, pat, v.len() - pat.len())
}

/// Whether `pat` stands anywhere in `v`.
pub fn holds(v: &Vec<char>, pat: &Vec<char>) -> (r: bool)
    ensures
        r == contains(v@, pat@),
{
    let mut i: usize = 0;
    while i <= v.len() && pat.len() <= v.len() - i
        invariant
            i <= v.len(),
            forall|j: int| 0 <= j < i ==> !occurs_at(v@, pat@, j),
        decreases v@.len() + 1 - i,
    {
        if occurs(v, pat, i) {
            return true;
        }
        proof {
            if pat@.len() == 0 {
                assert(v@.subrange(i as int, i as int) =~= pat@);
            }
        }
        i += 1;
    }
    false
}

/// The lines of `v`.
pub fn lines_of(v: &Vec<char>) -> (r: Vec<Vec<char>>)
    ensures
        pieces(r@) == lines(v@),
{
    let mut r: Vec<Vec<char>> = Vec::new();
    let feed: Vec<char> = vec!['\n'];
    let mut pos: usize = 0;
    proof {
        assert(feed@ =~= seq!['\n']);
        assert(v@.skip(0) =~= v@);
        assert(pieces(r@) + lines(v@) =~= lines(v@));
    }
    while pos < v.len()
        invariant
            feed@ == seq!['\n'],
            pos <= v@.len(),
            pieces(r@) + lines(v@.skip(pos as int)) == lines(v@),
        decreases v@.len() - pos,
    {
        let ghost rest = v@.skip(pos as int);
        let ghost before = r@;
        proof {
            lemma_find_skip(v@, feed@, pos as nat, 0);
        }
        match find(v, &feed, pos) {
            Some(i) => {
                let end = if i > pos && v[i - 1] == '\r' {
                    i - 1
                } else {
                    i
                };
                let part = copy_between(v, pos, end);
                r.push(part);
                proof {
                    assert(rest.take(i - pos) =~= v@.subrange(pos as int, i as int));
                    assert(chop_cr(rest.take(i - pos)) =~= part@);
                    assert(rest.skip(i - pos + 1) =~= v@.skip(i + 1));
                    assert(pieces(r@) =~= pieces(before).push(part@));
                    assert(pieces(r@) + lines(v@.skip(i + 1)) =~= pieces(before) + (seq![part@]
                        + lines(v@.skip(i + 1))));
                }
                pos = i + 1;
            },
            None => {
                let part = copy_between(v, pos, v.len());
                r.push(part);
                proof {
                    assert(rest =~= part@);
                    assert(pieces(r@) =~= pieces(before).push(part@));
                    assert(pieces(before) + seq![part@] =~= pieces(r@));
                }
                return r;
            },
        }
    }
    proof {
        assert(v@.skip(pos as int) =~= seq![]);
        assert(pieces(r@) + seq![] =~= pieces(r@));
    }
    r
}

/// `v` without the white space at either end.
pub fn trimmed(v: &Vec<char>) -> (r: Vec<char>)
    ensures
        r@ == trim(v@),
{
    let mut from: usize = 0;
    proof {
        assert(v@.skip(0) =~= v@);
    }
    while from < v.len() && v[from].is_whitespace()
        invariant
            from <= v@.len(),
            trim_start(v@) == trim_start(v@.skip(from as int)),
        decreases v@.len() - from,
    {
        proof {
            assert(v@.skip(from as int).drop_first() =~= v@.skip(from + 1));
        }
        from += 1;
    }
    let mut to: usize = v.len();
    proof {
        assert(v@.subrange(from as int, v@.len() as int) =~= v@.skip(from as int));
    }
    while to > from && v[to - 1].is_whitespace()
        invariant
            from <= to <= v@.len(),
            trim(v@) == trim_end(v@.subrange(from as int, to as int)),
        decreases to,
    {
        proof {
            assert(v@.subrange(from as int, to as int).drop_last() =~= v@.subrange(
                from as int,
                to - 1,
            ));
        }
        to -= 1;
    }
    copy_between(v, from, to)
}

/// `v` without `pat` at its start, however often it is repeated there.
pub fn strip_start(v: &Vec<char>, pat: &Vec<char>) -> (r: Vec<char>)
    requires
        pat@.len() > 0,
    ensures
        r@ == strip_repeated(v@, pat@),
{
    let mut from: usize = 0;
    proof {
        assert(v@.skip(0) =~= v@);
        lemma_occurs_skip(v@, pat@, 0, 0);
    }
    while occurs(v, pat, from)
        invariant
            pat@.len() > 0,
            from <= v.len(),
            strip_repeated(v@, pat@) == strip_repeated(v@.skip(from as int), pat@),
            occurs_at(v@.skip(from as int), pat@, 0) == occurs_at(v@, pat@, from as int),
        decreases v@.len() - from,
    {
        proof {
            assert(v@.skip(from as int).skip(pat@.len() as int) =~= v@.skip(from + pat@.len()));
            lemma_occurs_skip(v@, pat@, from + pat@.len(), 0);
        }
        from += pat.len();
    }
    proof {
        assert(v@.subrange(from as int, v@.len() as int) =~= v@.skip(from as int));
    }
    copy_between(v, from, v.len())
}

/// `v` without any occurrence of `c`.
pub fn remove_char(v: &Vec<char>, c: char) -> (r: Vec<char>)
    ensures
        r@ == without_char(v@, c),
{
    let mut r: Vec<char> = Vec::new();
    let mut i: usize = 0;
    while i < v.len()
        invariant
            i <= v@.len(),
            r@ == without_char(v@.take(i as int), c),
        decreases v@.len() - i,
    {
        proof {
            assert(v@.take(i + 1).drop_last() =~= v@.take(i as int));
        }
        if v[i] != c {
            r.push(v[i]);
        }
        i += 1;
    }
    proof {
        assert(v@.take(v@.len() as int) =~= v@);
    }
    r
}

proof fn lemma_decimal_grows(s: Seq<char>, n: nat)
    requires
        n <= s.len(),
    ensures
        decimal(s.take(n as int)) <= decimal(s),
    decreases s.len(),
{
    if n < s.len() {
        lemma_decimal_grows(s.drop_last(), n);
        assert(s.drop_last().take(n as int) =~= s.take(n as int));
    } else {
        assert(s.take(n as int) =~= s);
    }
}

/// `v` read as a decimal number.
pub fn parse_usize(v: &Vec<char>) -> (r: Option<usize>)
    ensures
        r == parsed_usize(v@),
{
    let start: usize = if v.len() > 0 && v[0] == '+' {
        1
    } else {
        0
    };
    let ghost digits = v@.skip(start as int);
    proof {
        assert(v@.skip(0) =~= v@);
    }
    if start == v.len() {
        return None;
    }
    let mut value: usize = 0;
    let mut i: usize = start;
    while i < v.len()
        invariant
            start <= i <= v@.len(),
            digits == v@.skip(start as int),
            digits == (if v@.len() > 0 && v@[0] == '+' {
                v@.skip(1)
            } else {
                v@
            }),
            all_digits(digits.take(i - start)),
            value == decimal(digits.take(i - start)),
        decreases v@.len() - i,
    {
        let c = v[i];
        proof {
            assert(c == digits[i - start]);
            assert(digits.take(i + 1 - start).drop_last() =~= digits.take(i - start));
            assert(digits.take(i + 1 - start).last() == c);
        }
        if c < '0' || c > '9' {
            return None;
        }
        let d: usize = c as usize - '0' as usize;
        proof {
            lemma_decimal_grows(digits, (i + 1 - start) as nat);
            assert(decimal(digits.take(i + 1 - start)) == value * 10 + d);
        }
        if value > (usize::MAX - d) / 10 {
            return None;
        }
        value = value * 10 + d;
        i += 1;
    }
    proof {
        assert(digits.take(v@.len() - start) =~= digits);
    }
    Some(value)
}

/// The contents of a list of strings are those of each, in order.
pub proof fn texts_are_viewed_in_order(v: Seq<String>)
    ensures
        texts(v).len() == v.len(),
        forall|i: int| 0 <= i < v.len() ==> #[trigger] texts(v)[i] == v[i]@,
{
}

} // verus!
