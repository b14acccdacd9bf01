//! The headers in a section of a diff: the path that it is about, and where its
//! hunks start. Both are read off the characters, up to the digits and white space
//! that lie outside ASCII: what the patterns make of these is theirs to say.

use crate::git::{header_pattern, hunk_pattern};
use crate::pattern::{
    all_matches, first_match, is_small, match_text, optional_texts, regex_first_match,
    regex_matches, regex_rejection,
};
use crate::text::{
    all_digits, chars_of, contains, find, find_from, lemma_char_at, lemma_find_is_first,
    lemma_found, occurs, occurs_at, pieces, split, split_text, starts_with, string_between,
    text_splits_at_a_character, text_without_a_character_is_one_part, white_space,
};
use crate::types::optional_text;
use vstd::prelude::*;

verus! {

/// Whether `c` is an ASCII digit.
pub open spec fn is_digit(c: char) -> bool {
    '0' <= c <= '9'
}

/// Whether `c` lies outside ASCII.
pub open spec fn is_foreign(c: char) -> bool {
    c > '\u{7f}'
}

/// Where the ASCII digits end that stand in `s` from `i` on.
pub open spec fn digits_end(s: Seq<char>, i: int) -> int
    decreases s.len() - i,
{
    if 0 <= i < s.len() && is_digit(s[i]) {
        digits_end(s, i + 1)
    } else {
        i
    }
}

/// Where the digits, commas and foreign characters end that stand in `s` from `i`
/// on.
pub open spec fn run_end(s: Seq<char>, i: int) -> int
    decreases s.len() - i,
{
    if 0 <= i < s.len() && (is_digit(s[i]) || s[i] == ',' || is_foreign(s[i])) {
        run_end(s, i + 1)
    } else {
        i
    }
}

/// Where a number ends whose digits end at `i`: a count may follow behind a comma.
pub open spec fn count_end(s: Seq<char>, i: int) -> int {
    if 0 <= i < s.len() && s[i] == ',' && digits_end(s, i + 1) > i + 1 {
        digits_end(s, i + 1)
    } else {
        i
    }
}

/// The number that stands in `s` at `q` as a hunk header writes the start of its new
/// side: between ` +` and ` @@`, with or without a count.
pub open spec fn number_at(s: Seq<char>, q: int) -> Option<Seq<char>> {
    let start = q + 2;
    let end = digits_end(s, start);
    if occurs_at(s, seq![' ', '+'], q) && end > start && occurs_at(
        s,
        seq![' ', '@', '@'],
        count_end(s, end),
    ) {
        Some(s.subrange(start, end))
    } else {
        None
    }
}

/// The last number in `s` that starts at `from` or behind it, and before `to`.
pub open spec fn last_number(s: Seq<char>, from: int, to: int) -> Option<Seq<char>>
    decreases to - from,
{
    if to <= from {
        None
    } else if number_at(s, to - 1) is Some {
        number_at(s, to - 1)
    } else {
        last_number(s, from, to - 1)
    }
}

/// Whether the number at `q` may be written with digits outside ASCII.
pub open spec fn doubtful_at(s: Seq<char>, q: int) -> bool {
    let end = run_end(s, q + 2);
    &&& occurs_at(s, seq![' ', '+'], q)
    &&& q + 2 < end
    &&& s[q + 2] != ','
    &&& occurs_at(s, seq![' ', '@', '@'], end)
    &&& exists|i: int| q + 2 <= i < end && is_foreign(#[trigger] s[i])
}

/// Whether a line holds such a number.
pub open spec fn is_doubtful(s: Seq<char>) -> bool {
    exists|q: int| 0 <= q < s.len() && #[trigger] doubtful_at(s, q)
}

/// Where a hunk starts that a line is the header of: the last number behind `@@ -`.
/// A line that may hold other digits than those of ASCII is left to the pattern.
pub open spec fn line_start(line: Seq<char>) -> Seq<Option<Seq<char>>> {
    match find_from(line, "@@ -"@, 0) {
        None => seq![],
        Some(p) => if is_doubtful(line) {
            regex_matches(hunk_pattern(), line)
        } else {
            match last_number(line, (p + 4) as int, line.len() as int) {
                Some(number) => seq![Some(number)],
                None => seq![],
            }
        },
    }
}

/// Where the hunks start that the lines are headers of.
pub open spec fn line_starts(lines: Seq<Seq<char>>) -> Seq<Option<Seq<char>>>
    decreases lines.len(),
{
    if lines.len() == 0 {
        seq![]
    } else {
        line_starts(lines.drop_last()) + line_start(lines.last())
    }
}

/// Where the hunks of a section start, in order.
pub open spec fn hunk_starts(section: Seq<char>) -> Seq<Option<Seq<char>>> {
    line_starts(split(section, seq!['\n']))
}

/// Whether a path may start or end next to `c`: it is a quote or white space.
pub open spec fn is_edge(c: char) -> bool {
    c == '"' || white_space(c)
}

/// Whether the second path of a header starts in `s` at `j`.
pub open spec fn second_at(s: Seq<char>, j: int) -> bool {
    0 <= j && j + 2 < s.len() && is_edge(s[j]) && s[j + 1] == 'b' && s[j + 2] == '/'
}

/// The last place from `from` on, and before `to`, where a second path starts.
pub open spec fn last_second(s: Seq<char>, from: int, to: int) -> Option<int>
    decreases to - from,
{
    if to <= from {
        None
    } else if second_at(s, to - 1) {
        Some(to - 1)
    } else {
        last_second(s, from, to - 1)
    }
}

/// Where the line ends that `i` lies on: behind its line feed.
pub open spec fn line_end(s: Seq<char>, i: nat) -> int {
    match find_from(s, seq!['\n'], i) {
        Some(n) => n + 1int,
        None => s.len() as int,
    }
}

/// Whether the first path of a header starts in `s` behind `i`.
pub open spec fn first_at(s: Seq<char>, i: int) -> bool {
    0 <= i && i + 2 < s.len() && is_edge(s[i]) && s[i + 1] == 'a' && s[i + 2] == '/'
}

/// The path that starts behind `i`, up to the last second path on its line.
pub open spec fn path_at(s: Seq<char>, i: int) -> Option<Seq<char>> {
    if first_at(s, i) {
        match last_second(s, i + 3, line_end(s, (i + 3) as nat)) {
            Some(j) => Some(s.subrange(i + 3, j)),
            None => None,
        }
    } else {
        None
    }
}

/// The first such path from `i` on.
pub open spec fn path_from(s: Seq<char>, i: int) -> Option<Seq<char>>
    decreases s.len() - i,
{
    if i >= s.len() {
        None
    } else if path_at(s, i) is Some {
        path_at(s, i)
    } else {
        path_from(s, i + 1)
    }
}

/// Whether white space outside ASCII stands in `s` where a path may start.
pub open spec fn has_foreign_edge(s: Seq<char>) -> bool {
    exists|i: int| 0 <= i && #[trigger] foreign_edge_at(s, i)
}

/// Whether such white space stands at `i`.
pub open spec fn foreign_edge_at(s: Seq<char>, i: int) -> bool {
    i + 2 < s.len() && is_foreign(s[i]) && white_space(s[i]) && (s[i + 1] == 'a' || s[i + 1] == 'b')
        && s[i + 2] == '/'
}

/// The path in the header of a section. A section with other white space than that
/// of ASCII next to a path is left to the pattern.
pub open spec fn header_path(section: Seq<char>) -> Option<Option<Seq<char>>> {
    if has_foreign_edge(section) {
        regex_first_match(header_pattern(), section)
    } else {
        match path_from(section, 0) {
            Some(path) => Some(Some(path)),
            None => None,
        }
    }
}

fn find_digits_end(s: &Vec<char>, i: usize) -> (r: usize)
    requires
        i <= s@.len(),
    ensures
        i <= r <= s@.len(),
        r == digits_end(s@, i as int),
{
    let mut r: usize = i;
    while r < s.len() && '0' <= s[r] && s[r] <= '9'
        invariant
            i <= r <= s@.len(),
            digits_end(s@, i as int) == digits_end(s@, r as int),
        decreases s@.len() - r,
    {
        r += 1;
    }
    r
}

fn read_number(s: &Vec<char>, q: usize) -> (r: Option<String>)
    requires
        q < s@.len(),
    ensures
        optional_text(r) == number_at(s@, q as int),
{
    let plus: Vec<char> = vec![' ', '+'];
    let close: Vec<char> = vec![' ', '@', '@'];
    proof {
        assert(plus@ =~= seq![' ', '+']);
        assert(close@ =~= seq![' ', '@', '@']);
    }
    if !occurs(s, &plus, q) {
        return None;
    }
    proof {
        assert(q + 2 <= s.len());
    }
    let end = find_digits_end(s, q + 2);
    let mut last: usize = end;
    if end < s.len() && s[end] == ',' {
        last = find_digits_end(s, end + 1);
        if last == end + 1 {
            last = end;
        }
    }
    if end > q + 2 && occurs(s, &close, last) {
        Some(string_between(s, q + 2, end))
    } else {
        None
    }
}

fn find_last_number(s: &Vec<char>, from: usize) -> (r: Option<String>)
    ensures
        optional_text(r) == last_number(s@, from as int, s@.len() as int),
{
    let mut to: usize = s.len();
    while to > from
        invariant
            to <= s@.len(),
            last_number(s@, from as int, s@.len() as int) == last_number(
                s@,
                from as int,
                to as int,
            ),
        decreases to,
    {
        if let Some(number) = read_number(s, to - 1) {
            return Some(number);
        }
        to -= 1;
    }
    None
}

fn check_doubtful_at(s: &Vec<char>, q: usize) -> (r: bool)
    requires
        q < s@.len(),
    ensures
        r == doubtful_at(s@, q as int),
{
    let plus: Vec<char> = vec![' ', '+'];
    let close: Vec<char> = vec![' ', '@', '@'];
    proof {
        assert(plus@ =~= seq![' ', '+']);
        assert(close@ =~= seq![' ', '@', '@']);
    }
    if !occurs(s, &plus, q) {
        return false;
    }
    proof {
        assert(q + 2 <= s.len());
    }
    let mut end: usize = q + 2;
    let mut foreign = false;
    while end < s.len() && (('0' <= s[end] && s[end] <= '9') || s[end] == ',' || s[end] > '\u{7f}')
        invariant
            q + 2 <= end <= s@.len(),
            run_end(s@, q + 2) == run_end(s@, end as int),
            foreign <==> exists|i: int| q + 2 <= i < end && is_foreign(#[trigger] s@[i]),
        decreases s@.len() - end,
    {
        if s[end] > '\u{7f}' {
            foreign = true;
            proof {
                assert(is_foreign(s@[end as int]));
            }
        }
        end += 1;
    }
    foreign && s[q + 2] != ',' && occurs(s, &close, end)
}

fn check_doubtful(s: &Vec<char>) -> (r: bool)
    ensures
        r == is_doubtful(s@),
{
    let mut q: usize = 0;
    while q < s.len()
        invariant
            q <= s@.len(),
            forall|k: int| 0 <= k < q ==> !#[trigger] doubtful_at(s@, k),
        decreases s@.len() - q,
    {
        if check_doubtful_at(s, q) {
            return true;
        }
        q += 1;
    }
    false
}

fn read_line_start(hunk: &str, line: &Vec<char>) -> (r: Vec<Option<String>>)
    requires
        hunk@ == hunk_pattern(),
        is_small(hunk@),
        regex_rejection(hunk@) is None,
    ensures
        optional_texts(r@) == line_start(line@),
{
    let open = chars_of("@@ -");
    proof {
        reveal_strlit("@@ -");
    }
    let mut r: Vec<Option<String>> = Vec::new();
    proof {
        assert(optional_texts(r@) =~= seq![]);
    }
    match find(line, &open, 0) {
        None => r,
        Some(p) => {
            if check_doubtful(line) {
                let text = string_between(line, 0, line.len());
                proof {
                    assert(line@.subrange(0, line@.len() as int) =~= line@);
                }
                return all_matches(hunk, text.as_str());
            }
            if let Some(number) = find_last_number(line, p + 4) {
                r.push(Some(number));
                proof {
                    assert(optional_texts(r@) =~= seq![Some(number@)]);
                }
            }
            r
        },
    }
}

/// Where the hunks of a section start.
pub(crate) fn read_hunk_starts(hunk: &str, section: &str) -> (r: Vec<Option<String>>)
    requires
        hunk@ == hunk_pattern(),
        is_small(hunk@),
        regex_rejection(hunk@) is None,
    ensures
        optional_texts(r@) == hunk_starts(section@),
{
    let feed: Vec<char> = vec!['\n'];
    proof {
        assert(feed@ =~= seq!['\n']);
    }
    let all = split_text(&chars_of(section), &feed);
    let ghost views = pieces(all@);
    let mut r: Vec<Option<String>> = Vec::new();
    let mut i: usize = 0;
    proof {
        assert(optional_texts(r@) =~= line_starts(views.take(0)));
    }
    while i < all.len()
        invariant
            i <= all@.len(),
            views == pieces(all@),
            views == split(section@, seq!['\n']),
            hunk@ == hunk_pattern(),
            is_small(hunk@),
            regex_rejection(hunk@) is None,
            optional_texts(r@) == line_starts(views.take(i as int)),
        decreases all@.len() - i,
    {
        let ghost before = optional_texts(r@);
        let mut more = read_line_start(hunk, &all[i]);
        let ghost added = optional_texts(more@);
        let ghost start = r@;
        r.append(&mut more);
        proof {
            assert(optional_texts(r@) =~= before + added);
            assert(views.take(i + 1).drop_last() =~= views.take(i as int));
            assert(views.take(i + 1).last() == all@[i as int]@);
        }
        i += 1;
    }
    proof {
        assert(views.take(i as int) =~= views);
    }
    r
}

fn check_second(s: &Vec<char>, j: usize) -> (r: bool)
    requires
        j < s@.len(),
    ensures
        r == second_at(s@, j as int),
{
    s.len() - j > 2 && (s[j] == '"' || s[j].is_whitespace()) && s[j + 1] == 'b' && s[j + 2] == '/'
}

fn find_last_second(s: &Vec<char>, from: usize, to: usize) -> (r: Option<usize>)
    requires
        to <= s@.len(),
    ensures
        match r {
            Some(j) => from <= j < to && last_second(s@, from as int, to as int) == Some(j as int),
            None => last_second(s@, from as int, to as int) is None,
        },
{
    let mut end: usize = to;
    while end > from
        invariant
            end <= to <= s@.len(),
            last_second(s@, from as int, to as int) == last_second(s@, from as int, end as int),
        decreases end,
    {
        if check_second(s, end - 1) {
            return Some(end - 1);
        }
        end -= 1;
    }
    None
}

fn check_foreign_edge(s: &Vec<char>) -> (r: bool)
    ensures
        r == has_foreign_edge(s@),
{
    let mut i: usize = 0;
    while i < s.len()
        invariant
            i <= s@.len(),
            forall|k: int| 0 <= k < i ==> !#[trigger] foreign_edge_at(s@, k),
        decreases s@.len() - i,
    {
        if s.len() - i > 2 && s[i] > '\u{7f}' && s[i].is_whitespace() && (s[i + 1] == 'a' || s[i + 1]
            == 'b') && s[i + 2] == '/' {
            proof {
                assert(foreign_edge_at(s@, i as int));
            }
            return true;
        }
        i += 1;
    }
    false
}

fn read_path_at(s: &Vec<char>, i: usize) -> (r: Option<String>)
    requires
        i < s@.len(),
    ensures
        optional_text(r) == path_at(s@, i as int),
{
    let feed: Vec<char> = vec!['\n'];
    proof {
        assert(feed@ =~= seq!['\n']);
    }
    if s.len() - i > 2 && (s[i] == '"' || s[i].is_whitespace()) && s[i + 1] == 'a' && s[i + 2]
        == '/' {
        let end: usize = match find(s, &feed, i + 3) {
            Some(n) => n + 1,
            None => s.len(),
        };
        if let Some(j) = find_last_second(s, i + 3, end) {
            return Some(string_between(s, i + 3, j));
        }
    }
    None
}

/// The path in the header of a section.
pub(crate) fn read_header_path(header: &str, section: &str) -> (r: Option<Option<String>>)
    requires
        header@ == header_pattern(),
        is_small(header@),
        regex_rejection(header@) is None,
    ensures
        match_text(r) == header_path(section@),
{
    let v = chars_of(section);
    if check_foreign_edge(&v) {
        return first_match(header, section);
    }
    let mut i: usize = 0;
    while i < v.len()
        invariant
            i <= v@.len(),
            v@ == section@,
            !has_foreign_edge(section@),
            path_from(v@, 0) == path_from(v@, i as int),
        decreases v@.len() - i,
    {
        if let Some(path) = read_path_at(&v, i) {
            return Some(Some(path));
        }
        i += 1;
    }
    None
}

/// Whether a hunk header stands in `line`: `@@ -` at `p`, a plus sign behind a blank
/// at `q`, a number up to `e`, a count behind a comma up to `f` unless `f` is `e`, and
/// then ` @@`.
pub open spec fn is_hunk_header(line: Seq<char>, p: int, q: int, e: int, f: int) -> bool {
    &&& 0 <= p && p + 4 <= q && q + 2 < e <= f && f + 3 <= line.len()
    &&& line[p] == '@' && line[p + 1] == '@' && line[p + 2] == ' ' && line[p + 3] == '-'
    &&& line[q] == ' ' && line[q + 1] == '+'
    &&& forall|i: int| q + 2 <= i < e ==> '0' <= #[trigger] line[i] <= '9'
    &&& f == e || (e + 1 < f && line[e] == ',' && forall|i: int|
        e < i < f ==> '0' <= #[trigger] line[i] <= '9')
    &&& line[f] == ' ' && line[f + 1] == '@' && line[f + 2] == '@'
}

proof fn lemma_digits_end(s: Seq<char>, i: int, e: int)
    requires
        0 <= i <= e <= s.len(),
        forall|k: int| i <= k < e ==> '0' <= #[trigger] s[k] <= '9',
        e < s.len() ==> !('0' <= s[e] <= '9'),
    ensures
        digits_end(s, i) == e,
    decreases e - i,
{
    if i < e {
        assert('0' <= s[i] <= '9');
        lemma_digits_end(s, i + 1, e);
    }
}

proof fn lemma_digits(s: Seq<char>, i: int)
    requires
        0 <= i <= s.len(),
    ensures
        i <= digits_end(s, i) <= s.len(),
        forall|k: int| i <= k < digits_end(s, i) ==> '0' <= #[trigger] s[k] <= '9',
        digits_end(s, i) < s.len() ==> !('0' <= s[digits_end(s, i)] <= '9'),
    decreases s.len() - i,
{
    if i < s.len() && is_digit(s[i]) {
        lemma_digits(s, i + 1);
    }
}

/// Two or three characters stand where each of them stands.
proof fn lemma_stands(s: Seq<char>, i: int)
    ensures
        occurs_at(s, seq![' ', '+'], i) <==> (0 <= i && i + 2 <= s.len() && s[i] == ' ' && s[i + 1]
            == '+'),
        occurs_at(s, seq![' ', '@', '@'], i) <==> (0 <= i && i + 3 <= s.len() && s[i] == ' ' && s[i
            + 1] == '@' && s[i + 2] == '@'),
        occurs_at(s, "@@ -"@, i) <==> (0 <= i && i + 4 <= s.len() && s[i] == '@' && s[i + 1] == '@'
            && s[i + 2] == ' ' && s[i + 3] == '-'),
{
    reveal_strlit("@@ -");
    let plus = seq![' ', '+'];
    let close = seq![' ', '@', '@'];
    let open = "@@ -"@;
    if 0 <= i && i + 2 <= s.len() {
        let part = s.subrange(i, i + 2);
        assert(part[0] == s[i] && part[1] == s[i + 1]);
        assert(plus[0] == ' ' && plus[1] == '+');
        if s[i] == ' ' && s[i + 1] == '+' {
            assert(part =~= plus);
        }
    }
    if 0 <= i && i + 3 <= s.len() {
        let part = s.subrange(i, i + 3);
        assert(part[0] == s[i] && part[1] == s[i + 1] && part[2] == s[i + 2]);
        assert(close[0] == ' ' && close[1] == '@' && close[2] == '@');
        if s[i] == ' ' && s[i + 1] == '@' && s[i + 2] == '@' {
            assert(part =~= close);
        }
    }
    if 0 <= i && i + 4 <= s.len() {
        let part = s.subrange(i, i + 4);
        assert(part[0] == s[i] && part[1] == s[i + 1] && part[2] == s[i + 2] && part[3] == s[i
            + 3]);
        assert(open[0] == '@' && open[1] == '@' && open[2] == ' ' && open[3] == '-');
        if s[i] == '@' && s[i + 1] == '@' && s[i + 2] == ' ' && s[i + 3] == '-' {
            assert(part =~= open);
        }
    }
}

/// Whether a number stands at `q`, up to `e`, with a count up to `f`.
spec fn numbered(s: Seq<char>, q: int, e: int, f: int) -> bool {
    &&& 0 <= q && q + 2 < e <= f && f + 3 <= s.len()
    &&& s[q] == ' ' && s[q + 1] == '+'
    &&& forall|i: int| q + 2 <= i < e ==> '0' <= #[trigger] s[i] <= '9'
    &&& f == e || (e + 1 < f && s[e] == ',' && forall|i: int|
        e < i < f ==> '0' <= #[trigger] s[i] <= '9')
    &&& s[f] == ' ' && s[f + 1] == '@' && s[f + 2] == '@'
}

proof fn lemma_number_stands(s: Seq<char>, q: int, e: int, f: int)
    requires
        numbered(s, q, e, f),
    ensures
        number_at(s, q) == Some(s.subrange(q + 2, e)),
{
    lemma_stands(s, q);
    lemma_stands(s, f);
    lemma_digits_end(s, q + 2, e);
    if f > e {
        lemma_digits_end(s, e + 1, f);
    }
}

proof fn lemma_number_is_written(s: Seq<char>, q: int)
    requires
        number_at(s, q) is Some,
    ensures
        numbered(s, q, digits_end(s, q + 2), count_end(s, digits_end(s, q + 2))),
        number_at(s, q) == Some(s.subrange(q + 2, digits_end(s, q + 2))),
{
    lemma_stands(s, q);
    lemma_digits(s, q + 2);
    let e = digits_end(s, q + 2);
    if e + 1 <= s.len() {
        lemma_digits(s, e + 1);
    }
    lemma_stands(s, count_end(s, e));
}

proof fn lemma_last_number(s: Seq<char>, from: int, to: int)
    requires
        0 <= from,
    ensures
        match last_number(s, from, to) {
            Some(number) => exists|q: int|
                from <= q < to && #[trigger] number_at(s, q) == Some(number) && forall|k: int|
                    q < k < to ==> #[trigger] number_at(s, k) is None,
            None => forall|k: int| from <= k < to ==> #[trigger] number_at(s, k) is None,
        },
    decreases to - from,
{
    if from < to {
        if number_at(s, to - 1) is None {
            lemma_last_number(s, from, to - 1);
            if let Some(number) = last_number(s, from, to - 1) {
                let q = choose|q: int|
                    from <= q < to - 1 && #[trigger] number_at(s, q) == Some(number) && forall|
                        k: int,
                    |
                        q < k < to - 1 ==> #[trigger] number_at(s, k) is None;
                assert(number_at(s, q) == Some(number));
            }
        }
    }
}

/// A line with a hunk header in it tells where the hunk starts: at the number of the
/// last header in it. A line without one tells nothing. (Lines that may hold digits
/// outside ASCII there are not spoken of.)
pub proof fn hunk_header_tells_the_start(line: Seq<char>)
    requires
        !is_doubtful(line),
    ensures
        forall|p: int, q: int, e: int, f: int| #[trigger]
            is_hunk_header(line, p, q, e, f) && (forall|p2: int, q2: int, e2: int, f2: int|
                #[trigger]
                is_hunk_header(line, p2, q2, e2, f2) ==> q2 <= q) ==> line_start(line) == seq![
                Some(line.subrange(q + 2, e)),
            ],
        (forall|p: int, q: int, e: int, f: int| !#[trigger] is_hunk_header(line, p, q, e, f))
            <==> line_start(line).len() == 0,
{
    let open = "@@ -"@;
    reveal_strlit("@@ -");
    lemma_find_is_first(line, open, 0);
    lemma_found(line, open, 0);
    let n = line.len() as int;
    assert forall|p: int, q: int, e: int, f: int| #[trigger]
        is_hunk_header(line, p, q, e, f) implies ({
        &&& find_from(line, open, 0) matches Some(first)
        &&& first <= p
        &&& number_at(line, q) == Some(line.subrange(q + 2, e))
    }) by {
        lemma_stands(line, p);
        assert(numbered(line, q, e, f));
        lemma_number_stands(line, q, e, f);
    }
    match find_from(line, open, 0) {
        None => {},
        Some(first) => {
            let p = first as int;
            lemma_stands(line, p);
            lemma_last_number(line, p + 4, n);
            assert forall|q: int| p + 4 <= q && #[trigger] number_at(line, q) is Some implies (
            exists|e: int, f: int| is_hunk_header(line, p, q, e, f)) by {
                lemma_number_is_written(line, q);
                let e = digits_end(line, q + 2);
                assert(is_hunk_header(line, p, q, e, count_end(line, e)));
            }
            if let Some(number) = last_number(line, p + 4, n) {
                let q = choose|q: int|
                    p + 4 <= q < n && #[trigger] number_at(line, q) == Some(number) && forall|
                        k: int,
                    |
                        q < k < n ==> #[trigger] number_at(line, k) is None;
                assert(number_at(line, q) is Some);
                let (e, f) = choose|e: int, f: int| is_hunk_header(line, p, q, e, f);
                assert(is_hunk_header(line, p, q, e, f));
                assert forall|p1: int, q1: int, e1: int, f1: int| #[trigger]
                    is_hunk_header(line, p1, q1, e1, f1) && (forall|
                        p2: int,
                        q2: int,
                        e2: int,
                        f2: int,
                    | #[trigger]
                        is_hunk_header(line, p2, q2, e2, f2) ==> q2 <= q1) implies line_start(line)
                    == seq![Some(line.subrange(q1 + 2, e1))] by {
                    assert(q <= q1);
                    assert(number_at(line, q1) is Some);
                    assert(q1 == q);
                }
            } else {
                assert forall|p1: int, q1: int, e1: int, f1: int|
                    !#[trigger] is_hunk_header(line, p1, q1, e1, f1) by {
                    if is_hunk_header(line, p1, q1, e1, f1) {
                        assert(number_at(line, q1) is Some);
                    }
                }
            }
        },
    }
}

/// A header as git writes it, `@@ -a,b +c,d @@`, each count left out or not, tells
/// that its hunk starts at `c`, whatever follows without another ` @@`.
pub proof fn hunk_starts_where_its_header_says(
    old_side: Seq<char>,
    number: Seq<char>,
    count: Option<Seq<char>>,
    context: Seq<char>,
)
    requires
        number.len() > 0,
        all_digits(number),
        count matches Some(digits) ==> digits.len() > 0 && all_digits(digits),
        forall|i: int|
            0 <= i < old_side.len() ==> '0' <= #[trigger] old_side[i] <= '9' || old_side[i] == ',',
        !contains(context, seq![' ', '@', '@']),
    ensures
        line_start(
            "@@ -"@ + old_side + seq![' ', '+'] + number + (match count {
                Some(digits) => seq![','] + digits,
                None => seq![],
            }) + seq![' ', '@', '@'] + context,
        ) == seq![Some(number)],
{
    reveal_strlit("@@ -");
    let open = "@@ -"@;
    let plus = seq![' ', '+'];
    let tail = match count {
        Some(digits) => seq![','] + digits,
        None => seq![],
    };
    let close = seq![' ', '@', '@'];
    let line = open + old_side + plus + number + tail + close + context;
    let q = (4 + old_side.len()) as int;
    let e = (q + 2 + number.len()) as int;
    let f = (e + tail.len()) as int;
    let c = f + 3;
    assert(line.subrange(q + 2, e) =~= number);
    assert forall|i: int| q + 2 <= i < e implies '0' <= #[trigger] line[i] <= '9' by {
        assert(line[i] == number[i - q - 2]);
    }
    if let Some(digits) = count {
        assert forall|i: int| e < i < f implies '0' <= #[trigger] line[i] <= '9' by {
            assert(line[i] == digits[i - e - 1]);
        }
    }
    assert forall|i: int| 4 <= i < q implies '0' <= #[trigger] line[i] <= '9' || line[i] == ',' by {
        assert(line[i] == old_side[i - 4]);
    }
    assert forall|i: int| c <= i < line.len() implies #[trigger] line[i] == context[i - c] by {}
    assert(is_hunk_header(line, 0, q, e, f));
    // The only closing mark stands at `f`.
    assert forall|k: int| 4 <= k && #[trigger] occurs_at(line, close, k) implies k == f by {
        lemma_stands(line, k);
        if k >= c {
            lemma_stands(context, k - c);
            assert(line[k] == context[k - c] && line[k + 1] == context[k + 1 - c] && line[k + 2]
                == context[k + 2 - c]);
            assert(occurs_at(context, close, k - c));
        }
    }
    assert forall|p2: int, q2: int, e2: int, f2: int| #[trigger]
        is_hunk_header(line, p2, q2, e2, f2) implies q2 <= q by {
        lemma_stands(line, f2);
        assert(occurs_at(line, close, f2));
        if q2 > q {
            assert(line[q2] == ' ');
        }
    }
    assert forall|k: int| 0 <= k < line.len() implies !#[trigger] doubtful_at(line, k) by {
        if doubtful_at(line, k) {
            let end = run_end(line, k + 2);
            lemma_stands(line, k);
            lemma_run(line, k + 2);
            assert(occurs_at(line, close, end));
            assert(end == f);
            let i = choose|i: int| k + 2 <= i < end && is_foreign(#[trigger] line[i]);
            assert(line[i] > '\u{7f}');
            assert(k + 2 <= i < f);
        }
    }
    assert(!is_doubtful(line));
    hunk_header_tells_the_start(line);
}

proof fn lemma_run(s: Seq<char>, i: int)
    requires
        0 <= i <= s.len(),
    ensures
        i <= run_end(s, i) <= s.len(),
    decreases s.len() - i,
{
    if i < s.len() && (is_digit(s[i]) || s[i] == ',' || is_foreign(s[i])) {
        lemma_run(s, i + 1);
    }
}

proof fn lemma_starts_sum(a: Seq<Seq<char>>, b: Seq<Seq<char>>)
    ensures
        line_starts(a + b) == line_starts(a) + line_starts(b),
    decreases b.len(),
{
    if b.len() == 0 {
        assert(a + b =~= a);
        assert(line_starts(a) + line_starts(b) =~= line_starts(a));
    } else {
        let ab = a + b;
        assert(ab.drop_last() =~= a + b.drop_last());
        lemma_starts_sum(a, b.drop_last());
        assert(line_starts(ab) =~= line_starts(a) + line_starts(b));
    }
}

/// Hunk headers are read line by line: the starts in a text are those in its first
/// lines, and then those in the others.
pub proof fn hunks_are_read_line_by_line(first: Seq<char>, second: Seq<char>)
    ensures
        hunk_starts(first + seq!['\n'] + second) == hunk_starts(first) + hunk_starts(second),
{
    text_splits_at_a_character(first, '\n', second);
    lemma_starts_sum(split(first, seq!['\n']), split(second, seq!['\n']));
}

/// The starts on a single line are those that the line tells.
pub proof fn single_line_is_read_for_itself(line: Seq<char>)
    requires
        !line.contains('\n'),
    ensures
        hunk_starts(line) == line_start(line),
{
    text_without_a_character_is_one_part(line, '\n');
    let one = seq![line];
    assert(one.drop_last() =~= seq![]);
    assert(line_starts(one.drop_last()) =~= seq![]);
    assert(line_starts(one) =~= line_start(line));
}

/// Whether a header lists a path in `s` from `i` to `j`: `a/` behind a quote or white
/// space, the path on one line, and `b/` behind a quote or white space.
pub open spec fn is_listed(s: Seq<char>, i: int, j: int) -> bool {
    &&& 0 <= i && i + 3 <= j && j + 2 < s.len()
    &&& s[i] == '"' || white_space(s[i])
    &&& s[i + 1] == 'a' && s[i + 2] == '/'
    &&& forall|k: int| i + 3 <= k < j ==> #[trigger] s[k] != '\n'
    &&& s[j] == '"' || white_space(s[j])
    &&& s[j + 1] == 'b' && s[j + 2] == '/'
}

proof fn lemma_last_second(s: Seq<char>, from: int, to: int)
    requires
        0 <= from,
    ensures
        match last_second(s, from, to) {
            Some(j) => from <= j < to && second_at(s, j) && forall|k: int|
                j < k < to ==> !#[trigger] second_at(s, k),
            None => forall|k: int| from <= k < to ==> !#[trigger] second_at(s, k),
        },
    decreases to - from,
{
    if from < to && !second_at(s, to - 1) {
        lemma_last_second(s, from, to - 1);
    }
}

proof fn lemma_line_end(s: Seq<char>, i: nat, j: int)
    requires
        i <= j < s.len(),
    ensures
        j < line_end(s, i) <==> forall|k: int| i <= k < j ==> #[trigger] s[k] != '\n',
{
    let feed = seq!['\n'];
    lemma_find_is_first(s, feed, i);
    lemma_found(s, feed, i);
    assert forall|k: int| i <= k < s.len() implies (#[trigger] s[k] == '\n') == occurs_at(
        s,
        feed,
        k,
    ) by {
        lemma_char_at(s, '\n', k);
    }
    if let Some(n) = find_from(s, feed, i) {
        lemma_char_at(s, '\n', n as int);
        if j > n {
            assert(s[n as int] == '\n');
        }
    }
}

proof fn lemma_path_at(s: Seq<char>, i: int)
    ensures
        match path_at(s, i) {
            Some(path) => exists|j: int| #[trigger]
                is_listed(s, i, j) && path == s.subrange(i + 3, j) && forall|k: int| #[trigger]
                    is_listed(s, i, k) ==> k <= j,
            None => forall|j: int| !#[trigger] is_listed(s, i, j),
        },
{
    if first_at(s, i) {
        let end = line_end(s, (i + 3) as nat);
        lemma_last_second(s, i + 3, end);
        assert forall|j: int| i + 3 <= j < s.len() implies (#[trigger] is_listed(s, i, j) <==> j < end
            && second_at(s, j)) by {
            lemma_line_end(s, (i + 3) as nat, j);
        }
        if let Some(j) = last_second(s, i + 3, end) {
            assert(is_listed(s, i, j));
            assert forall|k: int| #[trigger] is_listed(s, i, k) implies k <= j by {
                assert(second_at(s, k));
            }
        } else {
            assert forall|j: int| !#[trigger] is_listed(s, i, j) by {
                if is_listed(s, i, j) {
                    assert(second_at(s, j));
                }
            }
        }
    }
}

proof fn lemma_path_from(s: Seq<char>, from: int)
    requires
        0 <= from,
    ensures
        match path_from(s, from) {
            Some(path) => exists|i: int|
                from <= i && #[trigger] path_at(s, i) == Some(path) && forall|k: int|
                    from <= k < i ==> #[trigger] path_at(s, k) is None,
            None => forall|k: int| from <= k ==> #[trigger] path_at(s, k) is None,
        },
    decreases s.len() - from,
{
    if from < s.len() {
        if path_at(s, from) is None {
            lemma_path_from(s, from + 1);
            if let Some(path) = path_from(s, from + 1) {
                let i = choose|i: int|
                    from + 1 <= i && #[trigger] path_at(s, i) == Some(path) && forall|k: int|
                        from + 1 <= k < i ==> #[trigger] path_at(s, k) is None;
                assert(path_at(s, i) == Some(path));
            }
        }
    }
}

/// The path of a section is the first that a header lists in it, as far as its line
/// allows; there is none exactly where none is listed. (White space outside ASCII in
/// front of `a/` or `b/` is not spoken of.)
pub proof fn listed_path_is_the_first(s: Seq<char>)
    requires
        !has_foreign_edge(s),
    ensures
        header_path(s) is None <==> forall|i: int, j: int| !#[trigger] is_listed(s, i, j),
        forall|i: int, j: int| #[trigger]
            is_listed(s, i, j) && (forall|i2: int, j2: int| #[trigger]
                is_listed(s, i2, j2) ==> i < i2 || (i == i2 && j2 <= j)) ==> header_path(s) == Some(
                Some(s.subrange(i + 3, j)),
            ),
{
    lemma_path_from(s, 0);
    assert forall|i: int| 0 <= i implies match #[trigger] path_at(s, i) {
        Some(path) => exists|j: int| #[trigger]
            is_listed(s, i, j) && path == s.subrange(i + 3, j) && forall|k: int| #[trigger]
                is_listed(s, i, k) ==> k <= j,
        None => forall|j: int| !#[trigger] is_listed(s, i, j),
    } by {
        lemma_path_at(s, i);
    }
    if let Some(path) = path_from(s, 0) {
        let i = choose|i: int|
            0 <= i && #[trigger] path_at(s, i) == Some(path) && forall|k: int|
                0 <= k < i ==> #[trigger] path_at(s, k) is None;
        let j = choose|j: int| #[trigger]
            is_listed(s, i, j) && path == s.subrange(i + 3, j) && forall|k: int| #[trigger]
                is_listed(s, i, k) ==> k <= j;
        assert(is_listed(s, i, j));
        assert forall|i1: int, j1: int| #[trigger]
            is_listed(s, i1, j1) && (forall|i2: int, j2: int| #[trigger]
                is_listed(s, i2, j2) ==> i1 < i2 || (i1 == i2 && j2 <= j1)) implies header_path(s)
            == Some(Some(s.subrange(i1 + 3, j1))) by {
            assert(path_at(s, i1) is Some);
            assert(i1 == i);
            assert(j1 == j);
        }
    } else {
        assert forall|i: int, j: int| !#[trigger] is_listed(s, i, j) by {
            if is_listed(s, i, j) {
                assert(path_at(s, i) is Some);
            }
        }
    }
}

/// A section that starts as git writes it, ` a/p b/q` on a line of its own, lists `p`,
/// where `q` holds no other ` b/`.
pub proof fn git_header_lists_its_first_path(p: Seq<char>, q: Seq<char>, rest: Seq<char>)
    requires
        !p.contains('\n'),
        !has_foreign_edge(seq![' ', 'a', '/'] + p + seq![' ', 'b', '/'] + q + seq!['\n'] + rest),
        forall|i: int|
            #![trigger q[i]]
            0 <= i && i + 2 < q.len() && q[i + 1] == 'b' && q[i + 2] == '/' ==> q[i] != '"'
                && !white_space(q[i]),
        !q.contains('\n'),
        !starts_with(rest, seq!['b', '/']),
    ensures
        header_path(seq![' ', 'a', '/'] + p + seq![' ', 'b', '/'] + q + seq!['\n'] + rest) == Some(
            Some(p),
        ),
{
    let s = seq![' ', 'a', '/'] + p + seq![' ', 'b', '/'] + q + seq!['\n'] + rest;
    let j = (3 + p.len()) as int;
    let n = j + 3 + q.len();
    assert(s.subrange(3, j) =~= p);
    assert forall|k: int| 3 <= k < j implies #[trigger] s[k] != '\n' by {
        assert(s[k] == p[k - 3]);
        assert(p.contains(p[k - 3]));
    }
    assert(is_listed(s, 0, j));
    assert forall|k: int| j + 3 <= k < n implies #[trigger] s[k] == q[k - j - 3] && s[k] != '\n' by {
        assert(q.contains(q[k - j - 3]));
    }
    assert(s[n] == '\n');
    assert forall|k: int| n < k < s.len() implies #[trigger] s[k] == rest[k - n - 1] by {}
    assert forall|i2: int, j2: int| #[trigger] is_listed(s, i2, j2) implies 0 < i2 || (0 == i2 && j2
        <= j) by {
        if i2 == 0 && j2 > j {
            assert(j2 <= n) by {
                if j2 > n {
                    assert(s[n] != '\n');
                }
            }
            if j2 == n {
                assert(rest.len() >= 2 && rest[0] == 'b' && rest[1] == '/');
                assert(rest.subrange(0, 2) =~= seq!['b', '/']);
            } else if j2 >= j + 3 {
                let i = j2 - j - 3;
                assert(s[j2] == q[i]);
                if i + 2 < q.len() {
                    assert(s[j2 + 1] == q[i + 1]);
                    assert(s[j2 + 2] == q[i + 2]);
                } else {
                    assert(s[j2 + 1] == '\n' || s[j2 + 2] == '\n');
                }
            } else {
                assert(s[j + 1] == 'b' && s[j + 2] == '/');
            }
        }
    }
    listed_path_is_the_first(s);
}

} // verus!
