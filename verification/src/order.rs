//! The order of names and causes in a result: every value has a sort key, a
//! list of numbers, and keys are compared as dictionaries compare words.

use crate::path::{FilePath, PathView};
use crate::text::{chars_of, texts};
use crate::types::{cause_views, AffectCause, Cause};
use vstd::prelude::*;

verus! {

/// Whether `a` comes before `b` in dictionary order.
pub open spec fn lex_less(a: Seq<u64>, b: Seq<u64>) -> bool
    decreases a.len(),
{
    if b.len() == 0 {
        false
    } else if a.len() == 0 {
        true
    } else {
        a[0] < b[0] || (a[0] == b[0] && lex_less(a.drop_first(), b.drop_first()))
    }
}

/// A text orders by its characters; a text comes before its continuations.
pub open spec fn text_key(s: Seq<char>) -> Seq<u64> {
    s.map_values(|c: char| (c as u64 + 1) as u64).push(0)
}

/// The kinds of path components in their order: the root, `.`, `..`, names.
pub open spec fn part_rank(part: Seq<char>) -> u64 {
    if part == seq!['/'] {
        1
    } else if part == seq!['.'] {
        2
    } else if part == seq!['.', '.'] {
        3
    } else {
        4
    }
}

/// A path orders component by component.
pub open spec fn path_key(p: Seq<Seq<char>>) -> Seq<u64>
    decreases p.len(),
{
    if p.len() == 0 {
        seq![0]
    } else {
        seq![part_rank(p[0])] + text_key(p[0]) + path_key(p.drop_first())
    }
}

/// No text comes before every text.
pub open spec fn optional_key(s: Option<Seq<char>>) -> Seq<u64> {
    match s {
        None => seq![0],
        Some(t) => seq![1] + text_key(t),
    }
}

/// A cause orders by its kind, then by its fields in turn. How a path is spelled
/// makes no difference.
pub open spec fn cause_key(c: Cause) -> Seq<u64> {
    match c {
        Cause::DirectChange { file, symbol, line } => seq![0] + path_key(file.parts) + optional_key(
            symbol,
        ) + seq![line as u64],
        Cause::ImportedSymbol { source_project, symbol, via_file, source_file } => seq![1]
            + text_key(source_project) + text_key(symbol) + path_key(via_file.parts) + path_key(
            source_file.parts,
        ),
        Cause::ReExported { through_file, symbol, source_file } => seq![2] + path_key(
            through_file.parts,
        ) + text_key(symbol) + path_key(source_file.parts),
        Cause::ImplicitDependency { depends_on } => seq![3] + text_key(depends_on),
        Cause::AssetChange { asset_file, referenced_in, line } => seq![4] + path_key(
            asset_file.parts,
        ) + path_key(referenced_in.parts) + seq![line as u64],
    }
}

/// Whether two causes are the same but for the spelling of paths.
pub open spec fn same_cause(c: Cause, d: Cause) -> bool {
    match (c, d) {
        (
            Cause::DirectChange { file, symbol, line },
            Cause::DirectChange { file: f2, symbol: s2, line: l2 },
        ) => file.parts == f2.parts && symbol == s2 && line == l2,
        (
            Cause::ImportedSymbol { source_project, symbol, via_file, source_file },
            Cause::ImportedSymbol {
                source_project: p2,
                symbol: s2,
                via_file: v2,
                source_file: f2,
            },
        ) => source_project == p2 && symbol == s2 && via_file.parts == v2.parts && source_file.parts
            == f2.parts,
        (
            Cause::ReExported { through_file, symbol, source_file },
            Cause::ReExported { through_file: t2, symbol: s2, source_file: f2 },
        ) => through_file.parts == t2.parts && symbol == s2 && source_file.parts == f2.parts,
        (
            Cause::ImplicitDependency { depends_on },
            Cause::ImplicitDependency { depends_on: d2 },
        ) => depends_on == d2,
        (
            Cause::AssetChange { asset_file, referenced_in, line },
            Cause::AssetChange { asset_file: a2, referenced_in: r2, line: l2 },
        ) => asset_file.parts == a2.parts && referenced_in.parts == r2.parts && line == l2,
        _ => false,
    }
}

/// Whether the names are in strictly ascending order.
pub open spec fn ascending_names(v: Seq<Seq<char>>) -> bool {
    forall|i: int, j: int|
        #![trigger v[i], v[j]]
        0 <= i < j < v.len() ==> lex_less(text_key(v[i]), text_key(v[j]))
}

/// Whether the causes are in strictly ascending order.
pub open spec fn ascending_causes(v: Seq<Cause>) -> bool {
    forall|i: int, j: int|
        #![trigger v[i], v[j]]
        0 <= i < j < v.len() ==> lex_less(cause_key(v[i]), cause_key(v[j]))
}

/// Dictionary order is a strict order.
pub proof fn lex_order_is_irreflexive(a: Seq<u64>)
    ensures
        !lex_less(a, a),
    decreases a.len(),
{
    if a.len() > 0 {
        lex_order_is_irreflexive(a.drop_first());
    }
}

/// Dictionary order is transitive.
pub proof fn lex_order_is_transitive(a: Seq<u64>, b: Seq<u64>, c: Seq<u64>)
    requires
        lex_less(a, b),
        lex_less(b, c),
    ensures
        lex_less(a, c),
    decreases a.len(),
{
    if a.len() > 0 && b.len() > 0 && c.len() > 0 && a[0] == b[0] && b[0] == c[0] {
        lex_order_is_transitive(a.drop_first(), b.drop_first(), c.drop_first());
    }
}

/// Of two different keys one comes before the other.
pub proof fn lex_order_is_total(a: Seq<u64>, b: Seq<u64>)
    ensures
        a == b || lex_less(a, b) || lex_less(b, a),
    decreases a.len(),
{
    if a.len() > 0 && b.len() > 0 {
        if a[0] == b[0] {
            lex_order_is_total(a.drop_first(), b.drop_first());
            if a.drop_first() == b.drop_first() {
                assert(a =~= seq![a[0]] + a.drop_first());
                assert(b =~= seq![b[0]] + b.drop_first());
            }
        }
    } else if a.len() == 0 && b.len() == 0 {
        assert(a =~= b);
    }
}

proof fn lemma_concat_cancel(a: Seq<u64>, b: Seq<u64>, x: Seq<u64>, y: Seq<u64>)
    requires
        a + x == b + y,
        a.len() == b.len(),
    ensures
        a == b,
        x == y,
{
    assert(a =~= (a + x).take(a.len() as int));
    assert(b =~= (b + y).take(a.len() as int));
    assert(x =~= (a + x).skip(a.len() as int));
    assert(y =~= (b + y).skip(a.len() as int));
}

proof fn lemma_char_code(c: char)
    ensures
        (c as u64 + 1) as u64 == c as int + 1,
        c as int >= 0,
{
}

proof fn lemma_text_key_cancels(s: Seq<char>, t: Seq<char>, x: Seq<u64>, y: Seq<u64>)
    requires
        text_key(s) + x == text_key(t) + y,
    ensures
        s == t,
        x == y,
{
    let a = text_key(s);
    let b = text_key(t);
    assert forall|i: int| 0 <= i < s.len() implies a[i] == s[i] as int + 1 by {
        lemma_char_code(s[i]);
    }
    assert forall|i: int| 0 <= i < t.len() implies b[i] == t[i] as int + 1 by {
        lemma_char_code(t[i]);
    }
    if s.len() < t.len() {
        assert((a + x)[s.len() as int] == 0);
        assert((b + y)[s.len() as int] == b[s.len() as int]);
        lemma_char_code(t[s.len() as int]);
    }
    if t.len() < s.len() {
        assert((b + y)[t.len() as int] == 0);
        assert((a + x)[t.len() as int] == a[t.len() as int]);
        lemma_char_code(s[t.len() as int]);
    }
    lemma_concat_cancel(a, b, x, y);
    assert forall|i: int| 0 <= i < s.len() implies s[i] == t[i] by {
        assert(a[i] == b[i]);
    }
    assert(s =~= t);
}

proof fn lemma_path_key_cancels(p: Seq<Seq<char>>, q: Seq<Seq<char>>, x: Seq<u64>, y: Seq<u64>)
    requires
        path_key(p) + x == path_key(q) + y,
    ensures
        p == q,
        x == y,
    decreases p.len(),
{
    let a = path_key(p) + x;
    let b = path_key(q) + y;
    if p.len() == 0 {
        assert(a[0] == 0);
        if q.len() > 0 {
            assert(b[0] == part_rank(q[0]));
        } else {
            lemma_concat_cancel(path_key(p), path_key(q), x, y);
            assert(p =~= q);
        }
    } else if q.len() == 0 {
        assert(b[0] == 0);
        assert(a[0] == part_rank(p[0]));
    } else {
        let ra = path_key(p.drop_first()) + x;
        let rb = path_key(q.drop_first()) + y;
        assert(a =~= seq![part_rank(p[0])] + (text_key(p[0]) + ra));
        assert(b =~= seq![part_rank(q[0])] + (text_key(q[0]) + rb));
        lemma_concat_cancel(
            seq![part_rank(p[0])],
            seq![part_rank(q[0])],
            text_key(p[0]) + ra,
            text_key(q[0]) + rb,
        );
        lemma_text_key_cancels(p[0], q[0], ra, rb);
        lemma_path_key_cancels(p.drop_first(), q.drop_first(), x, y);
        assert(p =~= seq![p[0]] + p.drop_first());
        assert(q =~= seq![q[0]] + q.drop_first());
    }
}

proof fn lemma_optional_key_cancels(
    s: Option<Seq<char>>,
    t: Option<Seq<char>>,
    x: Seq<u64>,
    y: Seq<u64>,
)
    requires
        optional_key(s) + x == optional_key(t) + y,
    ensures
        s == t,
        x == y,
{
    assert((optional_key(s) + x)[0] == optional_key(s)[0]);
    assert((optional_key(t) + y)[0] == optional_key(t)[0]);
    match (s, t) {
        (Some(a), Some(b)) => {
            assert(optional_key(s) + x =~= seq![1] + (text_key(a) + x));
            assert(optional_key(t) + y =~= seq![1] + (text_key(b) + y));
            lemma_concat_cancel(seq![1], seq![1], text_key(a) + x, text_key(b) + y);
            lemma_text_key_cancels(a, b, x, y);
        },
        (None, None) => {
            lemma_concat_cancel(seq![0], seq![0], x, y);
        },
        _ => {},
    }
}

/// Two names with the same sort key are the same name.
pub proof fn name_order_is_total(s: Seq<char>, t: Seq<char>)
    ensures
        s == t || lex_less(text_key(s), text_key(t)) || lex_less(text_key(t), text_key(s)),
{
    lex_order_is_total(text_key(s), text_key(t));
    if text_key(s) == text_key(t) {
        lemma_text_key_cancels(s, t, seq![], seq![]);
    }
}

/// Two causes with the same sort key are the same but for the spelling of paths.
#[verifier::rlimit(40)]
pub proof fn cause_order_is_total(c: Cause, d: Cause)
    ensures
        same_cause(c, d) || lex_less(cause_key(c), cause_key(d)) || lex_less(cause_key(d), cause_key(c)),
{
    let a = cause_key(c);
    let b = cause_key(d);
    lex_order_is_total(a, b);
    if a == b {
        let none = Seq::<u64>::empty();
        match (c, d) {
            (
                Cause::DirectChange { file, symbol, line },
                Cause::DirectChange { file: f2, symbol: s2, line: l2 },
            ) => {
                let x = optional_key(symbol) + seq![line as u64];
                let y = optional_key(s2) + seq![l2 as u64];
                assert(a =~= seq![0] + (path_key(file.parts) + x));
                assert(b =~= seq![0] + (path_key(f2.parts) + y));
                lemma_concat_cancel(seq![0], seq![0], path_key(file.parts) + x, path_key(f2.parts) + y);
                lemma_path_key_cancels(file.parts, f2.parts, x, y);
                lemma_optional_key_cancels(symbol, s2, seq![line as u64], seq![l2 as u64]);
                assert(seq![line as u64][0] == seq![l2 as u64][0]);
            },
            (
                Cause::ImportedSymbol { source_project, symbol, via_file, source_file },
                Cause::ImportedSymbol {
                    source_project: p2,
                    symbol: s2,
                    via_file: v2,
                    source_file: f2,
                },
            ) => {
                let x1 = text_key(symbol) + (path_key(via_file.parts) + (path_key(source_file.parts) + none));
                let y1 = text_key(s2) + (path_key(v2.parts) + (path_key(f2.parts) + none));
                assert(a =~= seq![1] + (text_key(source_project) + x1));
                assert(b =~= seq![1] + (text_key(p2) + y1));
                lemma_concat_cancel(seq![1], seq![1], text_key(source_project) + x1, text_key(p2) + y1);
                lemma_text_key_cancels(source_project, p2, x1, y1);
                lemma_text_key_cancels(
                    symbol,
                    s2,
                    path_key(via_file.parts) + (path_key(source_file.parts) + none),
                    path_key(v2.parts) + (path_key(f2.parts) + none),
                );
                lemma_path_key_cancels(
                    via_file.parts,
                    v2.parts,
                    path_key(source_file.parts) + none,
                    path_key(f2.parts) + none,
                );
                lemma_path_key_cancels(source_file.parts, f2.parts, none, none);
            },
            (
                Cause::ReExported { through_file, symbol, source_file },
                Cause::ReExported { through_file: t2, symbol: s2, source_file: f2 },
            ) => {
                let x = text_key(symbol) + (path_key(source_file.parts) + none);
                let y = text_key(s2) + (path_key(f2.parts) + none);
                assert(a =~= seq![2] + (path_key(through_file.parts) + x));
                assert(b =~= seq![2] + (path_key(t2.parts) + y));
                lemma_concat_cancel(seq![2], seq![2], path_key(through_file.parts) + x, path_key(t2.parts) + y);
                lemma_path_key_cancels(through_file.parts, t2.parts, x, y);
                lemma_text_key_cancels(symbol, s2, path_key(source_file.parts) + none, path_key(f2.parts) + none);
                lemma_path_key_cancels(source_file.parts, f2.parts, none, none);
            },
            (
                Cause::ImplicitDependency { depends_on },
                Cause::ImplicitDependency { depends_on: d2 },
            ) => {
                lemma_concat_cancel(seq![3], seq![3], text_key(depends_on), text_key(d2));
                assert(text_key(depends_on) + none =~= text_key(depends_on));
                assert(text_key(d2) + none =~= text_key(d2));
                lemma_text_key_cancels(depends_on, d2, none, none);
            },
            (
                Cause::AssetChange { asset_file, referenced_in, line },
                Cause::AssetChange { asset_file: a2, referenced_in: r2, line: l2 },
            ) => {
                let x = path_key(referenced_in.parts) + seq![line as u64];
                let y = path_key(r2.parts) + seq![l2 as u64];
                assert(a =~= seq![4] + (path_key(asset_file.parts) + x));
                assert(b =~= seq![4] + (path_key(a2.parts) + y));
                lemma_concat_cancel(seq![4], seq![4], path_key(asset_file.parts) + x, path_key(a2.parts) + y);
                lemma_path_key_cancels(asset_file.parts, a2.parts, x, y);
                lemma_path_key_cancels(referenced_in.parts, r2.parts, seq![line as u64], seq![l2 as u64]);
                assert(seq![line as u64][0] == seq![l2 as u64][0]);
            },
            _ => {
                assert(a[0] == b[0]);
            },
        }
    }
}

/// The contents of a list of keys.
pub open spec fn key_views(v: Seq<Vec<u64>>) -> Seq<Seq<u64>> {
    v.map_values(|k: Vec<u64>| k@)
}

/// Whether the keys are in strictly ascending order.
pub open spec fn ascending(v: Seq<Seq<u64>>) -> bool {
    forall|i: int, j: int| #![trigger v[i], v[j]] 0 <= i < j < v.len() ==> lex_less(v[i], v[j])
}

proof fn lemma_ascending_first(a: Seq<Seq<u64>>, b: Seq<Seq<u64>>)
    requires
        ascending(a),
        ascending(b),
        a.len() > 0,
        b.len() > 0,
        a.contains(b[0]),
        b.contains(a[0]),
    ensures
        a[0] == b[0],
{
    let i = choose|i: int| 0 <= i < a.len() && a[i] == b[0];
    let j = choose|j: int| 0 <= j < b.len() && b[j] == a[0];
    if i > 0 && j > 0 {
        assert(lex_less(a[0], a[i]));
        assert(lex_less(b[0], b[j]));
        lex_order_is_transitive(a[0], b[0], a[0]);
        lex_order_is_irreflexive(a[0]);
    }
}

/// Keys in ascending order are determined by which keys there are.
pub proof fn ascending_order_is_determined(a: Seq<Seq<u64>>, b: Seq<Seq<u64>>)
    requires
        ascending(a),
        ascending(b),
        forall|k: Seq<u64>| #[trigger] a.contains(k) <==> b.contains(k),
    ensures
        a == b,
    decreases a.len(),
{
    if a.len() == 0 {
        if b.len() > 0 {
            assert(b.contains(b[0]));
            assert(a.contains(b[0]));
        }
        assert(a =~= b);
    } else {
        assert(a.contains(a[0]));
        assert(b.contains(a[0]));
        assert(b.len() > 0);
        assert(b.contains(b[0]));
        lemma_ascending_first(a, b);
        let ra = a.drop_first();
        let rb = b.drop_first();
        assert forall|k: Seq<u64>| #[trigger] ra.contains(k) <==> rb.contains(k) by {
            lemma_rest_contains(a, k);
            lemma_rest_contains(b, k);
            assert(a.contains(k) <==> b.contains(k));
        }
        assert(ascending(ra)) by {
            assert forall|i: int, j: int|
                #![trigger ra[i], ra[j]]
                0 <= i < j < ra.len() implies lex_less(ra[i], ra[j]) by {
                assert(lex_less(a[i + 1], a[j + 1]));
            }
        }
        assert(ascending(rb)) by {
            assert forall|i: int, j: int|
                #![trigger rb[i], rb[j]]
                0 <= i < j < rb.len() implies lex_less(rb[i], rb[j]) by {
                assert(lex_less(b[i + 1], b[j + 1]));
            }
        }
        ascending_order_is_determined(ra, rb);
        assert(a =~= seq![a[0]] + ra);
        assert(b =~= seq![b[0]] + rb);
    }
}

/// An ascending list without its first key holds the others.
proof fn lemma_rest_contains(a: Seq<Seq<u64>>, k: Seq<u64>)
    requires
        ascending(a),
        a.len() > 0,
    ensures
        a.drop_first().contains(k) <==> a.contains(k) && k != a[0],
{
    let rest = a.drop_first();
    if rest.contains(k) {
        let i = choose|i: int| 0 <= i < rest.len() && rest[i] == k;
        assert(a[i + 1] == k);
        assert(lex_less(a[0], a[i + 1]));
        lex_order_is_irreflexive(a[0]);
    }
    if a.contains(k) && k != a[0] {
        let i = choose|i: int| 0 <= i < a.len() && a[i] == k;
        assert(rest[i - 1] == k);
    }
}

/// Names in ascending order are determined by which names there are.
pub proof fn name_order_is_determined(a: Seq<Seq<char>>, b: Seq<Seq<char>>)
    requires
        ascending_names(a),
        ascending_names(b),
        forall|n: Seq<char>| #[trigger] a.contains(n) <==> b.contains(n),
    ensures
        a == b,
{
    let ka = a.map_values(|n: Seq<char>| text_key(n));
    let kb = b.map_values(|n: Seq<char>| text_key(n));
    assert forall|k: Seq<u64>| #[trigger] ka.contains(k) <==> kb.contains(k) by {
        if ka.contains(k) {
            let i = choose|i: int| 0 <= i < ka.len() && ka[i] == k;
            assert(a.contains(a[i]));
            let j = choose|j: int| 0 <= j < b.len() && b[j] == a[i];
            assert(kb[j] == k);
        }
        if kb.contains(k) {
            let i = choose|i: int| 0 <= i < kb.len() && kb[i] == k;
            assert(b.contains(b[i]));
            assert(a.contains(b[i]));
            let j = choose|j: int| 0 <= j < a.len() && a[j] == b[i];
            assert(ka[j] == k);
        }
    }
    ascending_order_is_determined(ka, kb);
    assert(a.len() == ka.len() == kb.len() == b.len());
    assert forall|i: int| 0 <= i < a.len() implies a[i] == b[i] by {
        assert(ka[i] == kb[i]);
        lemma_same_name(a[i], b[i]);
    }
    assert(a =~= b);
}

/// Whether `c` is the first of the causes that are the same but for the spelling
/// of paths.
#[verifier::opaque]
pub open spec fn is_first(all: Seq<Cause>, c: Cause) -> bool {
    exists|i: int|
        0 <= i < all.len() && #[trigger] all[i] == c && forall|j: int|
            0 <= j < i ==> cause_key(#[trigger] all[j]) != cause_key(c)
}

/// Whether `shown` holds `c`, the spelling of paths aside.
#[verifier::opaque]
pub open spec fn shown_once(shown: Seq<Cause>, c: Cause) -> bool {
    exists|k: int| 0 <= k < shown.len() && cause_key(#[trigger] shown[k]) == cause_key(c)
}

/// Whether `shown` are the causes `all` in ascending order, each once: of several
/// that are the same but for the spelling of paths the first stays.
pub open spec fn condensed(shown: Seq<Cause>, all: Seq<Cause>) -> bool {
    &&& ascending_causes(shown)
    &&& forall|k: int| 0 <= k < shown.len() ==> is_first(all, #[trigger] shown[k])
    &&& forall|i: int| 0 <= i < all.len() ==> shown_once(shown, #[trigger] all[i])
}

proof fn lemma_first_is_unique(all: Seq<Cause>, c: Cause, d: Cause)
    requires
        is_first(all, c),
        is_first(all, d),
        cause_key(c) == cause_key(d),
    ensures
        c == d,
{
    reveal(is_first);
    let i = choose|i: int|
        0 <= i < all.len() && #[trigger] all[i] == c && forall|j: int|
            0 <= j < i ==> cause_key(#[trigger] all[j]) != cause_key(c);
    let n = choose|n: int|
        0 <= n < all.len() && #[trigger] all[n] == d && forall|j: int|
            0 <= j < n ==> cause_key(#[trigger] all[j]) != cause_key(d);
    if n < i {
        assert(cause_key(all[n]) != cause_key(c));
    }
    if i < n {
        assert(cause_key(all[i]) != cause_key(d));
    }
}

proof fn lemma_first_place(all: Seq<Cause>, c: Cause) -> (i: int)
    requires
        is_first(all, c),
    ensures
        0 <= i < all.len(),
        all[i] == c,
{
    reveal(is_first);
    choose|i: int|
        0 <= i < all.len() && #[trigger] all[i] == c && forall|j: int|
            0 <= j < i ==> cause_key(#[trigger] all[j]) != cause_key(c)
}

proof fn lemma_shown_place(shown: Seq<Cause>, c: Cause) -> (k: int)
    requires
        shown_once(shown, c),
    ensures
        0 <= k < shown.len(),
        cause_key(shown[k]) == cause_key(c),
{
    reveal(shown_once);
    choose|k: int| 0 <= k < shown.len() && cause_key(#[trigger] shown[k]) == cause_key(c)
}

proof fn lemma_shown_at(shown: Seq<Cause>, k: int, c: Cause)
    requires
        0 <= k < shown.len(),
        cause_key(shown[k]) == cause_key(c),
    ensures
        shown_once(shown, c),
{
    reveal(shown_once);
}

pub(crate) proof fn lemma_condensed_is_not_empty(shown: Seq<Cause>, all: Seq<Cause>)
    requires
        condensed(shown, all),
        all.len() > 0,
    ensures
        shown.len() > 0,
{
    assert(shown_once(shown, all[0]));
    let k = lemma_shown_place(shown, all[0]);
}

proof fn lemma_condensed_holds(a: Seq<Cause>, b: Seq<Cause>, all: Seq<Cause>, c: Cause)
    requires
        condensed(a, all),
        condensed(b, all),
        a.contains(c),
    ensures
        b.contains(c),
{
    let k = choose|k: int| 0 <= k < a.len() && a[k] == c;
    assert(is_first(all, a[k]));
    let i = lemma_first_place(all, c);
    assert(shown_once(b, all[i]));
    let m = lemma_shown_place(b, c);
    assert(is_first(all, b[m]));
    lemma_first_is_unique(all, c, b[m]);
}

/// The condensed causes are determined by the causes.
pub proof fn condensed_causes_are_determined(a: Seq<Cause>, b: Seq<Cause>, all: Seq<Cause>)
    requires
        condensed(a, all),
        condensed(b, all),
    ensures
        a == b,
{
    let ka = a.map_values(|c: Cause| cause_key(c));
    let kb = b.map_values(|c: Cause| cause_key(c));
    assert forall|k: Seq<u64>| #[trigger] ka.contains(k) <==> kb.contains(k) by {
        if ka.contains(k) {
            let i = choose|i: int| 0 <= i < ka.len() && ka[i] == k;
            lemma_condensed_holds(a, b, all, a[i]);
            let j = choose|j: int| 0 <= j < b.len() && b[j] == a[i];
            assert(kb[j] == k);
        }
        if kb.contains(k) {
            let i = choose|i: int| 0 <= i < kb.len() && kb[i] == k;
            lemma_condensed_holds(b, a, all, b[i]);
            let j = choose|j: int| 0 <= j < a.len() && a[j] == b[i];
            assert(ka[j] == k);
        }
    }
    ascending_order_is_determined(ka, kb);
    assert(a.len() == ka.len() == kb.len() == b.len());
    assert forall|i: int| 0 <= i < a.len() implies a[i] == b[i] by {
        lemma_condensed_holds(a, b, all, a[i]);
        let j = choose|j: int| 0 <= j < b.len() && b[j] == a[i];
        assert(kb[j] == ka[i]);
        assert(ka[i] == kb[i]);
        lex_order_is_irreflexive(kb[i]);
        if i < j {
            assert(lex_less(cause_key(b[i]), cause_key(b[j])));
        }
        if j < i {
            assert(lex_less(cause_key(b[j]), cause_key(b[i])));
        }
    }
    assert(a =~= b);
}

fn push_text_key(r: &mut Vec<u64>, s: &str)
    ensures
        final(r)@ == old(r)@ + text_key(s@),
{
    let v = chars_of(s);
    let ghost start = r@;
    let ghost key = text_key(s@);
    let mut i: usize = 0;
    proof {
        assert(start + key.take(0) =~= start);
    }
    while i < v.len()
        invariant
            v@ == s@,
            key == text_key(s@),
            i <= v@.len(),
            r@ == start + key.take(i as int),
        decreases v@.len() - i,
    {
        let c = v[i];
        proof {
            lemma_char_code(c);
            assert(key[i as int] == c as int + 1);
            assert(start + key.take(i + 1) =~= (start + key.take(i as int)).push(key[i as int]));
        }
        r.push(c as u64 + 1);
        i += 1;
    }
    r.push(0);
    proof {
        assert(start + key =~= (start + key.take(i as int)).push(0));
    }
}

fn rank_of(part: &String) -> (r: u64)
    ensures
        r == part_rank(part@),
{
    proof {
        reveal_strlit("/");
        reveal_strlit(".");
        reveal_strlit("..");
        assert("/"@ =~= seq!['/']);
        assert("."@ =~= seq!['.']);
        assert(".."@ =~= seq!['.', '.']);
    }
    if *part == "/".to_owned() {
        1
    } else if *part == ".".to_owned() {
        2
    } else if *part == "..".to_owned() {
        3
    } else {
        4
    }
}

fn push_path_key(r: &mut Vec<u64>, p: &FilePath)
    ensures
        final(r)@ == old(r)@ + path_key(p@),
{
    let parts = p.components();
    let ghost start = r@;
    let mut i: usize = 0;
    proof {
        assert(p@.skip(0) =~= p@);
    }
    while i < parts.len()
        invariant
            texts(parts@) == p@,
            i <= parts@.len(),
            r@ + path_key(p@.skip(i as int)) == start + path_key(p@),
        decreases parts@.len() - i,
    {
        let ghost before = r@;
        proof {
            assert(p@.skip(i as int)[0] == parts@[i as int]@);
            assert(p@.skip(i as int).drop_first() =~= p@.skip(i + 1));
        }
        r.push(rank_of(&parts[i]));
        push_text_key(r, parts[i].as_str());
        proof {
            let part = parts@[i as int]@;
            let rest = path_key(p@.skip(i + 1));
            assert(r@ + rest =~= before + (seq![part_rank(part)] + text_key(part) + rest));
        }
        i += 1;
    }
    r.push(0);
    proof {
        assert(p@.skip(i as int) =~= seq![]);
    }
}

/// The sort key of a name.
pub fn key_of_name(s: &str) -> (r: Vec<u64>)
    ensures
        r@ == text_key(s@),
{
    let mut r: Vec<u64> = Vec::new();
    push_text_key(&mut r, s);
    proof {
        assert(Seq::<u64>::empty() + text_key(s@) =~= text_key(s@));
    }
    r
}

/// The sort key of a cause.
pub fn key_of_cause(c: &AffectCause) -> (r: Vec<u64>)
    ensures
        r@ == cause_key(c@),
{
    let mut r: Vec<u64> = Vec::new();
    match c {
        AffectCause::DirectChange { file, symbol, line } => {
            r.push(0);
            push_path_key(&mut r, file);
            match symbol {
                None => {
                    r.push(0);
                },
                Some(t) => {
                    r.push(1);
                    push_text_key(&mut r, t.as_str());
                },
            }
            r.push(*line as u64);
        },
        AffectCause::ImportedSymbol { source_project, symbol, via_file, source_file } => {
            r.push(1);
            push_text_key(&mut r, source_project.as_str());
            push_text_key(&mut r, symbol.as_str());
            push_path_key(&mut r, via_file);
            push_path_key(&mut r, source_file);
        },
        AffectCause::ReExported { through_file, symbol, source_file } => {
            r.push(2);
            push_path_key(&mut r, through_file);
            push_text_key(&mut r, symbol.as_str());
            push_path_key(&mut r, source_file);
        },
        AffectCause::ImplicitDependency { depends_on } => {
            r.push(3);
            push_text_key(&mut r, depends_on.as_str());
        },
        AffectCause::AssetChange { asset_file, referenced_in, line } => {
            r.push(4);
            push_path_key(&mut r, asset_file);
            push_path_key(&mut r, referenced_in);
            r.push(*line as u64);
        },
    }
    proof {
        assert(r@ =~= cause_key(c@));
    }
    r
}

/// Whether `a` comes before `b` in dictionary order.
pub fn key_less(a: &Vec<u64>, b: &Vec<u64>) -> (r: bool)
    ensures
        r == lex_less(a@, b@),
{
    let mut i: usize = 0;
    proof {
        assert(a@.skip(0) =~= a@);
        assert(b@.skip(0) =~= b@);
    }
    while i < a.len() && i < b.len()
        invariant
            i <= a@.len(),
            i <= b@.len(),
            lex_less(a@, b@) == lex_less(a@.skip(i as int), b@.skip(i as int)),
        decreases a@.len() - i,
    {
        proof {
            assert(a@.skip(i as int).drop_first() =~= a@.skip(i + 1));
            assert(b@.skip(i as int).drop_first() =~= b@.skip(i + 1));
        }
        if a[i] < b[i] {
            return true;
        }
        if a[i] > b[i] {
            return false;
        }
        i += 1;
    }
    i < b.len()
}

/// Where `key` belongs in the ascending list `keys`, and whether it is there
/// already.
pub(crate) fn place(keys: &Vec<Vec<u64>>, key: &Vec<u64>) -> (r: (usize, bool))
    requires
        ascending(key_views(keys@)),
    ensures
        r.0 <= keys@.len(),
        r.1 ==> r.0 < keys@.len() && keys@[r.0 as int]@ == key@,
        !r.1 ==> ascending(key_views(keys@).insert(r.0 as int, key@)),
{
    let ghost all = key_views(keys@);
    let mut i: usize = 0;
    while i < keys.len() && key_less(&keys[i], key)
        invariant
            all == key_views(keys@),
            i <= keys@.len(),
            forall|j: int| 0 <= j < i ==> lex_less(#[trigger] all[j], key@),
        decreases keys@.len() - i,
    {
        i += 1;
    }
    let found = i < keys.len() && !key_less(key, &keys[i]);
    proof {
        if i < keys@.len() {
            lex_order_is_total(all[i as int], key@);
        }
        if !found {
            let longer = all.insert(i as int, key@);
            assert forall|a: int, b: int|
                #![trigger longer[a], longer[b]]
                0 <= a < b < longer.len() implies lex_less(longer[a], longer[b]) by {
                if a == i {
                    assert(longer[b] == all[b - 1]);
                    if b - 1 > i {
                        assert(lex_less(all[i as int], all[b - 1]));
                        lex_order_is_transitive(key@, all[i as int], all[b - 1]);
                    }
                } else if b == i {
                    assert(longer[a] == all[a]);
                } else {
                    let a0 = if a < i {
                        a
                    } else {
                        a - 1
                    };
                    let b0 = if b < i {
                        b
                    } else {
                        b - 1
                    };
                    assert(longer[a] == all[a0]);
                    assert(longer[b] == all[b0]);
                }
            }
        }
    }
    (i, found)
}

/// The names in ascending order, each once.
pub fn sort_names(names: Vec<String>) -> (r: Vec<String>)
    ensures
        ascending_names(texts(r@)),
        forall|n: Seq<char>| texts(r@).contains(n) <==> texts(names@).contains(n),
{
    let mut r: Vec<String> = Vec::new();
    let mut keys: Vec<Vec<u64>> = Vec::new();
    let mut i: usize = 0;
    proof {
        assert(texts(names@).take(0) =~= seq![]);
    }
    while i < names.len()
        invariant
            i <= names@.len(),
            keys@.len() == r@.len(),
            forall|j: int| 0 <= j < r@.len() ==> (#[trigger] keys@[j])@ == text_key(r@[j]@),
            ascending(key_views(keys@)),
            forall|n: Seq<char>|
                texts(r@).contains(n) <==> texts(names@).take(i as int).contains(n),
        decreases names@.len() - i,
    {
        let name = names[i].clone();
        let key = key_of_name(name.as_str());
        let (at, found) = place(&keys, &key);
        let ghost old_r = r@;
        let ghost old_keys = keys@;
        if !found {
            r.insert(at, name);
            keys.insert(at, key);
            proof {
                assert(key_views(keys@) =~= key_views(old_keys).insert(at as int, key@));
                assert(texts(r@) =~= texts(old_r).insert(at as int, name@));
                assert forall|j: int| 0 <= j < r@.len() implies (#[trigger] keys@[j])@ == text_key(
                    r@[j]@,
                ) by {
                    if j < at {
                        assert(keys@[j] == old_keys[j]);
                    } else if j > at {
                        assert(keys@[j] == old_keys[j - 1]);
                    }
                }
            }
        } else {
            proof {
                lemma_same_name(old_r[at as int]@, name@);
            }
        }
        proof {
            let seen = texts(names@).take(i as int);
            let more = texts(names@).take(i + 1);
            assert(more =~= seen.push(name@));
            assert forall|n: Seq<char>| texts(r@).contains(n) <==> more.contains(n) by {
                lemma_push_contains(seen, name@, n);
                if !found {
                    lemma_insert_contains(texts(old_r), at as int, name@, n);
                } else {
                    assert(texts(old_r)[at as int] == name@);
                }
            }
        }
        i += 1;
    }
    proof {
        assert(texts(names@).take(i as int) =~= texts(names@));
        assert forall|a: int, b: int|
            #![trigger texts(r@)[a], texts(r@)[b]]
            0 <= a < b < texts(r@).len() implies lex_less(
            text_key(texts(r@)[a]),
            text_key(texts(r@)[b]),
        ) by {
            assert(key_views(keys@)[a] == keys@[a]@);
            assert(key_views(keys@)[b] == keys@[b]@);
        }
    }
    r
}

proof fn lemma_first_in_front(rest: Seq<Cause>, v: Cause, c: Cause)
    requires
        is_first(rest, c),
        cause_key(c) != cause_key(v),
    ensures
        is_first(seq![v] + rest, c),
{
    reveal(is_first);
    let all = seq![v] + rest;
    let i = choose|i: int|
        0 <= i < rest.len() && #[trigger] rest[i] == c && forall|j: int|
            0 <= j < i ==> cause_key(#[trigger] rest[j]) != cause_key(c);
    assert(all[i + 1] == c);
    assert forall|j: int| 0 <= j < i + 1 implies cause_key(#[trigger] all[j]) != cause_key(c) by {
        if j > 0 {
            assert(all[j] == rest[j - 1]);
        }
    }
}

/// One more cause in front of those that are condensed already.
proof fn lemma_condense_one(
    before: Seq<Cause>,
    after: Seq<Cause>,
    rest: Seq<Cause>,
    v: Cause,
    at: int,
    found: bool,
)
    requires
        condensed(before, rest),
        ascending_causes(after),
        found ==> 0 <= at < before.len() && cause_key(before[at]) == cause_key(v) && after
            == before.update(at, v),
        !found ==> 0 <= at <= before.len() && after == before.insert(at, v),
    ensures
        condensed(after, seq![v] + rest),
{
    let all = seq![v] + rest;
    assert(after[at] == v);
    assert(is_first(all, v)) by {
        reveal(is_first);
        assert(all[0] == v);
    }
    assert forall|k: int| 0 <= k < after.len() implies is_first(all, #[trigger] after[k]) by {
        if k != at {
            let k0 = if found || k < at {
                k
            } else {
                k - 1
            };
            assert(after[k] == before[k0]);
            assert(is_first(rest, before[k0]));
            lex_order_is_irreflexive(cause_key(v));
            if k < at {
                assert(lex_less(cause_key(after[k]), cause_key(after[at])));
            } else {
                assert(lex_less(cause_key(after[at]), cause_key(after[k])));
            }
            lemma_first_in_front(rest, v, before[k0]);
        }
    }
    assert forall|i: int| 0 <= i < all.len() implies shown_once(after, #[trigger] all[i]) by {
        if i == 0 {
            lemma_shown_at(after, at, all[0]);
        } else {
            assert(all[i] == rest[i - 1]);
            assert(shown_once(before, rest[i - 1]));
            let k = lemma_shown_place(before, rest[i - 1]);
            if !found && k >= at {
                assert(after[k + 1] == before[k]);
                lemma_shown_at(after, k + 1, all[i]);
            } else {
                assert(k == at || after[k] == before[k]);
                lemma_shown_at(after, k, all[i]);
            }
        }
    }
}

proof fn lemma_ascending_keys(keys: Seq<Vec<u64>>, causes: Seq<AffectCause>)
    requires
        ascending(key_views(keys)),
        keys.len() == causes.len(),
        forall|j: int| 0 <= j < causes.len() ==> (#[trigger] keys[j])@ == cause_key(causes[j]@),
    ensures
        ascending_causes(cause_views(causes)),
{
    let views = cause_views(causes);
    assert forall|a: int, b: int|
        #![trigger views[a], views[b]]
        0 <= a < b < views.len() implies lex_less(cause_key(views[a]), cause_key(views[b])) by {
        assert(key_views(keys)[a] == keys[a]@);
        assert(key_views(keys)[b] == keys[b]@);
    }
}

/// The causes in ascending order, each once.
pub fn sort_causes(causes: Vec<AffectCause>) -> (r: Vec<AffectCause>)
    ensures
        condensed(cause_views(r@), cause_views(causes@)),
{
    let mut rest = causes;
    let ghost orig = rest@;
    let ghost all = cause_views(orig);
    let mut r: Vec<AffectCause> = Vec::new();
    let mut keys: Vec<Vec<u64>> = Vec::new();
    proof {
        assert(orig.take(orig.len() as int) =~= orig);
    }
    while rest.len() > 0
        invariant
            orig == causes@,
            all == cause_views(orig),
            rest@.len() <= orig.len(),
            rest@ == orig.take(rest@.len() as int),
            keys@.len() == r@.len(),
            forall|j: int| 0 <= j < r@.len() ==> (#[trigger] keys@[j])@ == cause_key(r@[j]@),
            ascending(key_views(keys@)),
            condensed(cause_views(r@), all.skip(rest@.len() as int)),
        decreases rest@.len(),
    {
        let ghost n = rest@.len();
        let ghost old_r = r@;
        let ghost old_keys = keys@;
        if let Some(cause) = rest.pop() {
            let ghost view = cause@;
            proof {
                assert(orig.take(n as int)[n - 1] == orig[n - 1]);
                assert(rest@ =~= orig.take(n - 1));
                assert(all.skip(n - 1) =~= seq![view] + all.skip(n as int));
            }
            let key = key_of_cause(&cause);
            let (at, found) = place(&keys, &key);
            if found {
                r.set(at, cause);
                proof {
                    assert(cause_views(r@) =~= cause_views(old_r).update(at as int, view));
                    assert forall|j: int| 0 <= j < r@.len() implies (#[trigger] keys@[j])@
                        == cause_key(r@[j]@) by {
                        if j != at {
                            assert(r@[j] == old_r[j]);
                        }
                    }
                }
            } else {
                r.insert(at, cause);
                keys.insert(at, key);
                proof {
                    assert(key_views(keys@) =~= key_views(old_keys).insert(at as int, key@));
                    assert(cause_views(r@) =~= cause_views(old_r).insert(at as int, view));
                    assert forall|j: int| 0 <= j < r@.len() implies (#[trigger] keys@[j])@
                        == cause_key(r@[j]@) by {
                        if j < at {
                            assert(keys@[j] == old_keys[j]);
                        } else if j > at {
                            assert(keys@[j] == old_keys[j - 1]);
                        }
                    }
                }
            }
            proof {
                if found {
                    assert(cause_views(old_r)[at as int] == old_r[at as int]@);
                    assert(old_keys[at as int]@ == cause_key(old_r[at as int]@));
                }
                lemma_ascending_keys(keys@, r@);
                lemma_condense_one(
                    cause_views(old_r),
                    cause_views(r@),
                    all.skip(n as int),
                    view,
                    at as int,
                    found,
                );
            }
        }
    }
    proof {
        assert(all.skip(0) =~= all);
    }
    r
}

pub(crate) proof fn lemma_same_name(a: Seq<char>, b: Seq<char>)
    requires
        text_key(a) == text_key(b),
    ensures
        a == b,
{
    lemma_text_key_cancels(a, b, seq![], seq![]);
}

proof fn lemma_push_contains<A>(s: Seq<A>, x: A, y: A)
    ensures
        s.push(x).contains(y) <==> s.contains(y) || y == x,
{
    if s.contains(y) {
        let i = choose|i: int| 0 <= i < s.len() && s[i] == y;
        assert(s.push(x)[i] == y);
    }
    if y == x {
        assert(s.push(x)[s.len() as int] == y);
    }
}

proof fn lemma_insert_contains<A>(s: Seq<A>, at: int, x: A, y: A)
    requires
        0 <= at <= s.len(),
    ensures
        s.insert(at, x).contains(y) <==> s.contains(y) || y == x,
{
    let t = s.insert(at, x);
    if s.contains(y) {
        let i = choose|i: int| 0 <= i < s.len() && s[i] == y;
        if i < at {
            assert(t[i] == y);
        } else {
            assert(t[i + 1] == y);
        }
    }
    if y == x {
        assert(t[at] == y);
    }
    if t.contains(y) {
        let i = choose|i: int| 0 <= i < t.len() && t[i] == y;
        if i < at {
            assert(s[i] == y);
        } else if i > at {
            assert(s[i - 1] == y);
        }
    }
}

/// What two keys have in common at the start decides nothing; then a smaller number
/// comes first, and a key comes before its continuations.
pub proof fn first_difference_decides(p: Seq<u64>, x: Seq<u64>, y: Seq<u64>)
    ensures
        lex_less(p + x, p + y) == lex_less(x, y),
        lex_less(x, y) <==> y.len() > 0 && (x.len() == 0 || x[0] < y[0] || (x[0] == y[0]
            && lex_less(x.drop_first(), y.drop_first()))),
    decreases p.len(),
{
    if p.len() == 0 {
        assert(p + x =~= x);
        assert(p + y =~= y);
    } else {
        let rest = p.drop_first();
        first_difference_decides(rest, x, y);
        assert((p + x).drop_first() =~= rest + x);
        assert((p + y).drop_first() =~= rest + y);
        assert((p + x)[0] == p[0]);
        assert((p + y)[0] == p[0]);
    }
}

proof fn lemma_text_key_sum(p: Seq<char>, s: Seq<char>)
    ensures
        text_key(p + s) == p.map_values(|c: char| (c as u64 + 1) as u64) + text_key(s),
{
    assert(text_key(p + s) =~= p.map_values(|c: char| (c as u64 + 1) as u64) + text_key(s));
}

/// Names order by the first character in which they differ, by its code; a name comes
/// before those that go on behind it.
pub proof fn names_order_by_their_first_difference(
    p: Seq<char>,
    c: char,
    d: char,
    x: Seq<char>,
    y: Seq<char>,
)
    ensures
        c < d ==> lex_less(text_key(p + (seq![c] + x)), text_key(p + (seq![d] + y))),
        lex_less(text_key(p), text_key(p + (seq![c] + x))),
        !lex_less(text_key(p), text_key(p)),
{
    let front = p.map_values(|c: char| (c as u64 + 1) as u64);
    lemma_text_key_sum(p, seq![c] + x);
    lemma_text_key_sum(p, seq![d] + y);
    first_difference_decides(front, text_key(seq![c] + x), text_key(seq![d] + y));
    lemma_char_code(c);
    lemma_char_code(d);
    assert(text_key(seq![c] + x)[0] == c as u64 + 1);
    assert(text_key(seq![d] + y)[0] == d as u64 + 1);
    let none = Seq::<char>::empty();
    lemma_text_key_sum(p, none);
    assert(p + none =~= p);
    first_difference_decides(front, text_key(none), text_key(seq![c] + x));
    assert(text_key(none) =~= seq![0]);
    assert(text_key(none)[0] == 0);
    lex_order_is_irreflexive(text_key(p));
}

/// Where a key is no beginning of another, what follows them decides nothing.
proof fn lemma_less_goes_on(a: Seq<u64>, b: Seq<u64>, x: Seq<u64>, y: Seq<u64>)
    requires
        lex_less(a, b),
        !a.is_prefix_of(b),
    ensures
        lex_less(a + x, b + y),
    decreases a.len(),
{
    if a.len() == 0 {
        assert(b.take(0) =~= a);
    } else {
        let p = a.drop_first();
        let q = b.drop_first();
        assert((a + x)[0] == a[0]);
        assert((b + y)[0] == b[0]);
        if a[0] == b[0] {
            assert(!p.is_prefix_of(q)) by {
                if p.is_prefix_of(q) {
                    assert(a =~= b.take(a.len() as int)) by {
                        assert forall|i: int| 0 <= i < a.len() implies a[i] == b[i] by {
                            if i > 0 {
                                assert(p[i - 1] == q.take(p.len() as int)[i - 1]);
                            }
                        }
                    }
                }
            }
            lemma_less_goes_on(p, q, x, y);
            assert((a + x).drop_first() =~= p + x);
            assert((b + y).drop_first() =~= q + y);
        }
    }
}

proof fn lemma_text_less_goes_on(s: Seq<char>, t: Seq<char>, x: Seq<u64>, y: Seq<u64>)
    requires
        lex_less(text_key(s), text_key(t)),
    ensures
        lex_less(text_key(s) + x, text_key(t) + y),
{
    let a = text_key(s);
    let b = text_key(t);
    if a.is_prefix_of(b) {
        let z = b.skip(a.len() as int);
        assert(a + z =~= b + Seq::<u64>::empty());
        lemma_text_key_cancels(s, t, z, seq![]);
        lex_order_is_irreflexive(a);
    }
    lemma_less_goes_on(a, b, x, y);
}

proof fn lemma_path_less_goes_on(
    p: Seq<Seq<char>>,
    q: Seq<Seq<char>>,
    x: Seq<u64>,
    y: Seq<u64>,
)
    requires
        lex_less(path_key(p), path_key(q)),
    ensures
        lex_less(path_key(p) + x, path_key(q) + y),
{
    let a = path_key(p);
    let b = path_key(q);
    if a.is_prefix_of(b) {
        let z = b.skip(a.len() as int);
        assert(a + z =~= b + Seq::<u64>::empty());
        lemma_path_key_cancels(p, q, z, seq![]);
        lex_order_is_irreflexive(a);
    }
    lemma_less_goes_on(a, b, x, y);
}

proof fn lemma_optional_less_goes_on(
    s: Option<Seq<char>>,
    t: Option<Seq<char>>,
    x: Seq<u64>,
    y: Seq<u64>,
)
    requires
        lex_less(optional_key(s), optional_key(t)),
    ensures
        lex_less(optional_key(s) + x, optional_key(t) + y),
{
    let a = optional_key(s);
    let b = optional_key(t);
    if a.is_prefix_of(b) {
        let z = b.skip(a.len() as int);
        assert(a + z =~= b + Seq::<u64>::empty());
        lemma_optional_key_cancels(s, t, z, seq![]);
        lex_order_is_irreflexive(a);
    }
    lemma_less_goes_on(a, b, x, y);
}

/// Paths order by the first component in which they differ: the root comes before `.`,
/// that before `..`, and that before names, which order as names do. A path comes
/// before those that lie below it.
pub proof fn paths_order_by_their_first_difference(
    dir: Seq<Seq<char>>,
    a: Seq<char>,
    b: Seq<char>,
    x: Seq<Seq<char>>,
    y: Seq<Seq<char>>,
)
    ensures
        ({
            let root = seq!['/'];
            let here = seq!['.'];
            let up = seq!['.', '.'];
            let less = lex_less(path_key(dir + (seq![a] + x)), path_key(dir + (seq![b] + y)));
            &&& a == root && b != root ==> less
            &&& a == here && b != root && b != here ==> less
            &&& a == up && b != root && b != here && b != up ==> less
            &&& a != root && a != here && a != up && b != root && b != here && b != up && lex_less(
                text_key(a),
                text_key(b),
            ) ==> less
        }),
        lex_less(path_key(dir), path_key(dir + (seq![b] + y))),
    decreases dir.len(),
{
    let p = seq![a] + x;
    let q = seq![b] + y;
    let root = seq!['/'];
    let here = seq!['.'];
    let up = seq!['.', '.'];
    assert(root[0] == '/' && here[0] == '.' && up[0] == '.' && root.len() == 1 && here.len() == 1
        && up.len() == 2);
    if dir.len() == 0 {
        assert(dir + p =~= p);
        assert(dir + q =~= q);
        assert(p.drop_first() =~= x);
        assert(q.drop_first() =~= y);
        let ka = path_key(p);
        let kb = path_key(q);
        assert(ka[0] == part_rank(a));
        assert(kb[0] == part_rank(b));
        assert(ka =~= seq![part_rank(a)] + (text_key(a) + path_key(x)));
        assert(kb =~= seq![part_rank(b)] + (text_key(b) + path_key(y)));
        if part_rank(a) == part_rank(b) {
            first_difference_decides(
                seq![part_rank(a)],
                text_key(a) + path_key(x),
                text_key(b) + path_key(y),
            );
            if lex_less(text_key(a), text_key(b)) {
                lemma_text_less_goes_on(a, b, path_key(x), path_key(y));
            }
        }
        assert(path_key(dir)[0] == 0);
    } else {
        let rest = dir.drop_first();
        paths_order_by_their_first_difference(rest, a, b, x, y);
        let front = seq![part_rank(dir[0])] + text_key(dir[0]);
        assert((dir + p).drop_first() =~= rest + p);
        assert((dir + q).drop_first() =~= rest + q);
        assert((dir + p)[0] == dir[0]);
        assert((dir + q)[0] == dir[0]);
        assert(path_key(dir + p) == front + path_key(rest + p));
        assert(path_key(dir + q) == front + path_key(rest + q));
        assert(path_key(dir) == front + path_key(rest));
        first_difference_decides(front, path_key(rest + p), path_key(rest + q));
        first_difference_decides(front, path_key(rest), path_key(rest + q));
    }
}

/// No text comes before any text, and texts order as names do.
pub proof fn missing_text_comes_first(s: Seq<char>, t: Seq<char>)
    ensures
        lex_less(optional_key(None), optional_key(Some(s))),
        lex_less(optional_key(Some(s)), optional_key(Some(t))) <==> lex_less(
            text_key(s),
            text_key(t),
        ),
{
    assert(optional_key(Some(s))[0] == 1);
    first_difference_decides(seq![1], text_key(s), text_key(t));
}

/// The place of a kind of cause among the others.
pub open spec fn kind_place(c: Cause) -> int {
    match c {
        Cause::DirectChange { .. } => 0,
        Cause::ImportedSymbol { .. } => 1,
        Cause::ReExported { .. } => 2,
        Cause::ImplicitDependency { .. } => 3,
        Cause::AssetChange { .. } => 4,
    }
}

/// Whether the path `p` comes before `q`.
pub open spec fn path_before(p: PathView, q: PathView) -> bool {
    lex_less(path_key(p.parts), path_key(q.parts))
}

/// Whether the text `s` comes before `t`.
pub open spec fn text_before(s: Seq<char>, t: Seq<char>) -> bool {
    lex_less(text_key(s), text_key(t))
}

/// Causes order by their kind: direct changes, imports, re-exports, implicit
/// dependencies, assets.
pub proof fn causes_order_by_kind(c: Cause, d: Cause)
    ensures
        kind_place(c) < kind_place(d) ==> lex_less(cause_key(c), cause_key(d)),
{
    assert(cause_key(c)[0] == kind_place(c));
    assert(cause_key(d)[0] == kind_place(d));
}

/// Direct changes order by their file, then by their symbol, then by their line.
pub proof fn direct_changes_order_by_place(
    f: PathView,
    g: PathView,
    s: Option<Seq<char>>,
    t: Option<Seq<char>>,
    m: usize,
    n: usize,
)
    ensures
        ({
            let less = lex_less(
                cause_key(Cause::DirectChange { file: f, symbol: s, line: m }),
                cause_key(Cause::DirectChange { file: g, symbol: t, line: n }),
            );
            &&& path_before(f, g) ==> less
            &&& f.parts == g.parts && lex_less(optional_key(s), optional_key(t)) ==> less
            &&& f.parts == g.parts && s == t && m < n ==> less
        }),
{
    let zero = seq![0u64];
    let x = seq![m as u64];
    let y = seq![n as u64];
    let a = optional_key(s) + x;
    let b = optional_key(t) + y;
    assert(cause_key(Cause::DirectChange { file: f, symbol: s, line: m }) =~= zero + (path_key(
        f.parts,
    ) + a));
    assert(cause_key(Cause::DirectChange { file: g, symbol: t, line: n }) =~= zero + (path_key(
        g.parts,
    ) + b));
    first_difference_decides(zero, path_key(f.parts) + a, path_key(g.parts) + b);
    if path_before(f, g) {
        lemma_path_less_goes_on(f.parts, g.parts, a, b);
    }
    if f.parts == g.parts {
        first_difference_decides(path_key(f.parts), a, b);
        if lex_less(optional_key(s), optional_key(t)) {
            lemma_optional_less_goes_on(s, t, x, y);
        }
        if s == t {
            first_difference_decides(optional_key(s), x, y);
            assert(x[0] == m && y[0] == n);
        }
    }
}

/// Imports order by the project that they are from, then by the symbol, then by the
/// file that imports it, then by the file that declares it.
pub proof fn imports_order_by_origin(
    p: Seq<char>,
    q: Seq<char>,
    s: Seq<char>,
    t: Seq<char>,
    v: PathView,
    w: PathView,
    f: PathView,
    g: PathView,
)
    ensures
        ({
            let less = lex_less(
                cause_key(
                    Cause::ImportedSymbol {
                        source_project: p,
                        symbol: s,
                        via_file: v,
                        source_file: f,
                    },
                ),
                cause_key(
                    Cause::ImportedSymbol {
                        source_project: q,
                        symbol: t,
                        via_file: w,
                        source_file: g,
                    },
                ),
            );
            &&& text_before(p, q) ==> less
            &&& p == q && text_before(s, t) ==> less
            &&& p == q && s == t && path_before(v, w) ==> less
            &&& p == q && s == t && v.parts == w.parts && path_before(f, g) ==> less
        }),
{
    let one = seq![1u64];
    let x3 = path_key(f.parts);
    let y3 = path_key(g.parts);
    let x2 = path_key(v.parts) + x3;
    let y2 = path_key(w.parts) + y3;
    let x1 = text_key(s) + x2;
    let y1 = text_key(t) + y2;
    assert(cause_key(
        Cause::ImportedSymbol { source_project: p, symbol: s, via_file: v, source_file: f },
    ) =~= one + (text_key(p) + x1));
    assert(cause_key(
        Cause::ImportedSymbol { source_project: q, symbol: t, via_file: w, source_file: g },
    ) =~= one + (text_key(q) + y1));
    first_difference_decides(one, text_key(p) + x1, text_key(q) + y1);
    if text_before(p, q) {
        lemma_text_less_goes_on(p, q, x1, y1);
    }
    if p == q {
        first_difference_decides(text_key(p), x1, y1);
        if text_before(s, t) {
            lemma_text_less_goes_on(s, t, x2, y2);
        }
        if s == t {
            first_difference_decides(text_key(s), x2, y2);
            if path_before(v, w) {
                lemma_path_less_goes_on(v.parts, w.parts, x3, y3);
            }
            if v.parts == w.parts {
                first_difference_decides(path_key(v.parts), x3, y3);
            }
        }
    }
}

/// Re-exports order by the file that passes on, then by the symbol, then by the file
/// that declares it. Implicit dependencies order by the project depended on.
pub proof fn dependencies_order_by_name(
    h: PathView,
    k: PathView,
    s: Seq<char>,
    t: Seq<char>,
    f: PathView,
    g: PathView,
)
    ensures
        ({
            let less = lex_less(
                cause_key(Cause::ReExported { through_file: h, symbol: s, source_file: f }),
                cause_key(Cause::ReExported { through_file: k, symbol: t, source_file: g }),
            );
            &&& path_before(h, k) ==> less
            &&& h.parts == k.parts && text_before(s, t) ==> less
            &&& h.parts == k.parts && s == t && path_before(f, g) ==> less
        }),
        text_before(s, t) ==> lex_less(
            cause_key(Cause::ImplicitDependency { depends_on: s }),
            cause_key(Cause::ImplicitDependency { depends_on: t }),
        ),
{
    let two = seq![2u64];
    let x2 = path_key(f.parts);
    let y2 = path_key(g.parts);
    let x1 = text_key(s) + x2;
    let y1 = text_key(t) + y2;
    assert(cause_key(Cause::ReExported { through_file: h, symbol: s, source_file: f }) =~= two + (
    path_key(h.parts) + x1));
    assert(cause_key(Cause::ReExported { through_file: k, symbol: t, source_file: g }) =~= two + (
    path_key(k.parts) + y1));
    first_difference_decides(two, path_key(h.parts) + x1, path_key(k.parts) + y1);
    if path_before(h, k) {
        lemma_path_less_goes_on(h.parts, k.parts, x1, y1);
    }
    if h.parts == k.parts {
        first_difference_decides(path_key(h.parts), x1, y1);
        if text_before(s, t) {
            lemma_text_less_goes_on(s, t, x2, y2);
        }
        if s == t {
            first_difference_decides(text_key(s), x2, y2);
        }
    }
    first_difference_decides(seq![3u64], text_key(s), text_key(t));
}

/// Changed assets order by the asset, then by the file that refers to it, then by the
/// line.
pub proof fn assets_order_by_place(
    p: PathView,
    q: PathView,
    f: PathView,
    g: PathView,
    m: usize,
    n: usize,
)
    ensures
        ({
            let less = lex_less(
                cause_key(Cause::AssetChange { asset_file: p, referenced_in: f, line: m }),
                cause_key(Cause::AssetChange { asset_file: q, referenced_in: g, line: n }),
            );
            &&& path_before(p, q) ==> less
            &&& p.parts == q.parts && path_before(f, g) ==> less
            &&& p.parts == q.parts && f.parts == g.parts && m < n ==> less
        }),
{
    let four = seq![4u64];
    let x2 = seq![m as u64];
    let y2 = seq![n as u64];
    let x1 = path_key(f.parts) + x2;
    let y1 = path_key(g.parts) + y2;
    assert(cause_key(Cause::AssetChange { asset_file: p, referenced_in: f, line: m }) =~= four + (
    path_key(p.parts) + x1));
    assert(cause_key(Cause::AssetChange { asset_file: q, referenced_in: g, line: n }) =~= four + (
    path_key(q.parts) + y1));
    first_difference_decides(four, path_key(p.parts) + x1, path_key(q.parts) + y1);
    if path_before(p, q) {
        lemma_path_less_goes_on(p.parts, q.parts, x1, y1);
    }
    if p.parts == q.parts {
        first_difference_decides(path_key(p.parts), x1, y1);
        if path_before(f, g) {
            lemma_path_less_goes_on(f.parts, g.parts, x2, y2);
        }
        if f.parts == g.parts {
            first_difference_decides(path_key(f.parts), x2, y2);
            assert(x2[0] == m && y2[0] == n);
        }
    }
}

proof fn lemma_same_key(c: Cause, d: Cause)
    ensures
        same_cause(c, d) <==> cause_key(c) == cause_key(d),
{
    cause_order_is_total(c, d);
    lex_order_is_irreflexive(cause_key(c));
}

/// What is shown of a list of causes: nothing else, each of them, none twice, and of
/// several that differ in the spelling of paths the first.
pub proof fn condensed_shows_each_cause_once(shown: Seq<Cause>, all: Seq<Cause>, c: Cause)
    requires
        condensed(shown, all),
    ensures
        shown.contains(c) <==> exists|i: int|
            0 <= i < all.len() && #[trigger] all[i] == c && forall|j: int|
                0 <= j < i ==> !same_cause(#[trigger] all[j], c),
        all.contains(c) ==> exists|k: int| 0 <= k < shown.len() && same_cause(#[trigger] shown[k], c),
        forall|k: int, m: int|
            #![trigger shown[k], shown[m]]
            0 <= k < m < shown.len() ==> !same_cause(shown[k], shown[m]) && lex_less(
                cause_key(shown[k]),
                cause_key(shown[m]),
            ),
{
    if shown.contains(c) {
        let k = choose|k: int| 0 <= k < shown.len() && shown[k] == c;
        assert(is_first(all, shown[k]));
        reveal(is_first);
        let i = choose|i: int|
            0 <= i < all.len() && #[trigger] all[i] == c && forall|j: int|
                0 <= j < i ==> cause_key(#[trigger] all[j]) != cause_key(c);
        assert(all[i] == c);
        assert forall|j: int| 0 <= j < i implies !same_cause(#[trigger] all[j], c) by {
            lemma_same_key(all[j], c);
        }
    }
    if all.contains(c) {
        let i = choose|i: int| 0 <= i < all.len() && all[i] == c;
        assert(shown_once(shown, all[i]));
        let k = lemma_shown_place(shown, c);
        lemma_same_key(shown[k], c);
        assert(same_cause(shown[k], c));
    }
    if exists|i: int|
        0 <= i < all.len() && #[trigger] all[i] == c && forall|j: int|
            0 <= j < i ==> !same_cause(#[trigger] all[j], c) {
        let i = choose|i: int|
            0 <= i < all.len() && #[trigger] all[i] == c && forall|j: int|
                0 <= j < i ==> !same_cause(#[trigger] all[j], c);
        assert(is_first(all, c)) by {
            reveal(is_first);
            assert forall|j: int| 0 <= j < i implies cause_key(#[trigger] all[j]) != cause_key(
                c,
            ) by {
                lemma_same_key(all[j], c);
            }
            assert(all[i] == c);
        }
        assert(shown_once(shown, all[i]));
        let k = lemma_shown_place(shown, c);
        assert(is_first(all, shown[k]));
        lemma_first_is_unique(all, c, shown[k]);
    }
    assert forall|k: int, m: int|
        #![trigger shown[k], shown[m]]
        0 <= k < m < shown.len() implies !same_cause(shown[k], shown[m]) && lex_less(
        cause_key(shown[k]),
        cause_key(shown[m]),
    ) by {
        lemma_same_key(shown[k], shown[m]);
        lex_order_is_irreflexive(cause_key(shown[k]));
    }
}

} // verus!
