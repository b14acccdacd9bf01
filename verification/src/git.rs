//! What changed, as git tells it: which commands to run, what their outcomes
//! mean, and the files and lines of a diff.

use crate::error::{DominoError, ErrorView};
use crate::header::{
    has_foreign_edge, header_path, hunk_starts, hunk_starts_where_its_header_says,
    hunks_are_read_line_by_line, is_listed, listed_path_is_the_first, read_header_path,
    read_hunk_starts, single_line_is_read_for_itself,
};
use crate::path::{components, FilePath};
use crate::pattern::{is_small, lacks, match_text, optional_texts, regex_rejection, rejection};
use crate::text::{
    all_digits, begins_with, chars_of, concat, contains, decimal, ends_with, find_from,
    finishes_with, lemma_find_first, lemma_find_is_first, lemma_found, lines, lines_of, lossy_text,
    numbers_are_digits, occurs_at, parse_usize, parsed_usize, pieces, remove_char,
    repeated_beginning_is_lost, split, split_text, starts_with, string_between, strip_repeated,
    strip_start, text_without_a_separator_is_one_part, texts, trim, trimmed, utf8_lossy,
    without_char,
};
use crate::types::{optional_text, ChangedFile};
use vstd::prelude::*;

verus! {

/// What a diff says of a file: the path and the changed lines.
pub struct FileChange {
    pub path: Seq<char>,
    pub lines: Seq<usize>,
}

/// The content of a list of changed files.
pub open spec fn changes(v: Seq<ChangedFile>) -> Seq<FileChange> {
    v.map_values(
        |f: ChangedFile| FileChange { path: f.file_path.text(), lines: f.changed_lines@ },
    )
}

/// Whether the paths of the files are what their texts spell.
pub open spec fn paths_are_read(v: Seq<ChangedFile>) -> bool {
    forall|i: int|
        0 <= i < v.len() ==> (#[trigger] v[i]).file_path@ == components(v[i].file_path.text())
}

/// Whether the lines are counted from one.
pub open spec fn from_one(lines: Seq<usize>) -> bool {
    forall|i: int| 0 <= i < lines.len() ==> #[trigger] lines[i] >= 1
}

/// Whether the lines of all the files are counted from one.
pub open spec fn all_from_one(v: Seq<ChangedFile>) -> bool {
    forall|i: int| 0 <= i < v.len() ==> from_one((#[trigger] v[i]).changed_lines@)
}

/// The pattern for the path in the header of a section: what stands between
/// `a/` and `b/`, each after a quote or white space.
pub open spec fn header_pattern() -> Seq<char> {
    r#"(?:["\s]a/)(.*)(?:["\s]b/)"#@
}

/// The pattern for the first new line of a hunk: the number behind the plus sign
/// of a hunk header.
pub open spec fn hunk_pattern() -> Seq<char> {
    r"@@ -.* \+(\d+)(?:,\d+)? @@"@
}

/// The path that the header of a section lists.
pub open spec fn listed_path(header: Option<Option<Seq<char>>>) -> Option<Seq<char>> {
    match header {
        Some(Some(group)) => Some(trim(without_char(group, '"'))),
        _ => None,
    }
}

/// Whether a line says where a file was moved or copied to.
pub open spec fn tells_new_path(line: Seq<char>) -> bool {
    starts_with(line, "rename to "@) || starts_with(line, "copy to "@)
}

/// The path that the first such line tells.
pub open spec fn new_path(lines: Seq<Seq<char>>) -> Option<Seq<char>>
    decreases lines.len(),
{
    if lines.len() == 0 {
        None
    } else if tells_new_path(lines[0]) {
        Some(trim(strip_repeated(strip_repeated(lines[0], "rename to "@), "copy to "@)))
    } else {
        new_path(lines.drop_first())
    }
}

/// Whether a line is git's notice that it compared binary files, of which it
/// shows no lines.
pub open spec fn tells_binary(line: Seq<char>) -> bool {
    starts_with(line, "Binary files "@) && ends_with(line, " differ"@)
}

/// Whether there is such a line.
pub open spec fn is_binary(lines: Seq<Seq<char>>) -> bool {
    exists|i: int| 0 <= i < lines.len() && tells_binary(#[trigger] lines[i])
}

/// Lines count from one. A hunk that only deletes lines at the top of a file
/// starts at line zero in the header; it is counted at the first line.
pub open spec fn counted(n: usize) -> usize {
    if n == 0 {
        1
    } else {
        n
    }
}

/// The numbers of lines among the texts, in order; what is no number is left out.
pub open spec fn line_numbers(starts: Seq<Option<Seq<char>>>) -> Seq<usize>
    decreases starts.len(),
{
    if starts.len() == 0 {
        seq![]
    } else {
        let earlier = line_numbers(starts.drop_last());
        match starts.last() {
            Some(digits) => match parsed_usize(digits) {
                Some(n) => earlier.push(counted(n)),
                None => earlier,
            },
            None => earlier,
        }
    }
}

/// What a section of a diff says. A file that was moved or copied goes by its
/// new path. A binary file has no lines: the entire file counts as changed. Any
/// other file that was moved or copied counts as changed at its first line where
/// no lines are given. Any other section without lines says nothing, nor does one
/// without a path.
pub open spec fn section_change(
    section: Seq<char>,
    header: Option<Option<Seq<char>>>,
    starts: Seq<Option<Seq<char>>>,
) -> Option<FileChange> {
    match listed_path(header) {
        None => None,
        Some(listed) => {
            let moved = new_path(lines(section));
            let numbers = line_numbers(starts);
            let path = match moved {
                Some(path) => path,
                None => listed,
            };
            if numbers.len() > 0 {
                Some(FileChange { path, lines: numbers })
            } else if is_binary(lines(section)) {
                Some(FileChange { path, lines: seq![] })
            } else if moved is Some {
                Some(FileChange { path, lines: seq![1usize] })
            } else {
                None
            }
        },
    }
}

/// What the sections of a diff say, in order.
pub open spec fn section_changes(sections: Seq<Seq<char>>) -> Seq<FileChange>
    decreases sections.len(),
{
    if sections.len() == 0 {
        seq![]
    } else {
        let earlier = section_changes(sections.drop_last());
        let section = sections.last();
        match section_change(
            section,
            header_path(section),
            hunk_starts(section),
        ) {
            Some(change) => earlier.push(change),
            None => earlier,
        }
    }
}

/// The sections of a diff: a section follows each `diff --git`; what precedes
/// the first belongs to none.
pub open spec fn sections(diff: Seq<char>) -> Seq<Seq<char>> {
    split(diff, "diff --git"@).skip(1)
}

/// What a diff says, or which of the patterns it is read with is rejected.
pub open spec fn parsed(diff: Seq<char>) -> Result<Seq<FileChange>, ErrorView> {
    match regex_rejection(header_pattern()) {
        Some(e) => Err(ErrorView::Parse("Invalid file regex: "@ + e)),
        None => match regex_rejection(hunk_pattern()) {
            Some(e) => Err(ErrorView::Parse("Invalid line regex: "@ + e)),
            None => Ok(section_changes(sections(diff))),
        },
    }
}

/// The content of the outcome of reading a diff.
pub open spec fn parsed_view(r: Result<Vec<ChangedFile>, DominoError>) -> Result<
    Seq<FileChange>,
    ErrorView,
> {
    match r {
        Ok(files) => Ok(changes(files@)),
        Err(e) => Err(e@),
    }
}

proof fn lemma_patterns_are_small()
    ensures
        is_small(header_pattern()),
        is_small(hunk_pattern()),
{
    reveal_strlit(r#"(?:["\s]a/)(.*)(?:["\s]b/)"#);
    reveal_strlit(r"@@ -.* \+(\d+)(?:,\d+)? @@");
    reveal_with_fuel(lacks, 40);
}

/// The path that the header of a section lists.
fn read_listed_path(header: &Option<Option<String>>) -> (r: Option<String>)
    ensures
        optional_text(r) == listed_path(match_text(*header)),
{
    match header {
        Some(Some(group)) => {
            let path = trimmed(&remove_char(&chars_of(group.as_str()), '"'));
            proof {
                assert(path@.subrange(0, path@.len() as int) =~= path@);
            }
            Some(string_between(&path, 0, path.len()))
        },
        _ => None,
    }
}

/// The path that a section says the file was moved or copied to.
fn read_new_path(section: &Vec<char>) -> (r: Option<String>)
    ensures
        optional_text(r) == new_path(lines(section@)),
{
    let rename = chars_of("rename to ");
    let copy = chars_of("copy to ");
    proof {
        reveal_strlit("rename to ");
        reveal_strlit("copy to ");
    }
    let all = lines_of(section);
    let ghost views = pieces(all@);
    let mut i: usize = 0;
    proof {
        assert(views.skip(0) =~= views);
    }
    while i < all.len()
        invariant
            i <= all@.len(),
            views == pieces(all@),
            views == lines(section@),
            rename@ == "rename to "@,
            copy@ == "copy to "@,
            rename@.len() > 0,
            copy@.len() > 0,
            new_path(views) == new_path(views.skip(i as int)),
        decreases all@.len() - i,
    {
        let line = &all[i];
        proof {
            assert(views.skip(i as int)[0] == line@);
            assert(views.skip(i as int).drop_first() =~= views.skip(i + 1));
        }
        if begins_with(line, &rename) || begins_with(line, &copy) {
            let path = trimmed(&strip_start(&strip_start(line, &rename), &copy));
            proof {
                assert(path@.subrange(0, path@.len() as int) =~= path@);
            }
            return Some(string_between(&path, 0, path.len()));
        }
        i += 1;
    }
    None
}

/// Whether a section is about a binary file.
fn is_binary_section(section: &Vec<char>) -> (r: bool)
    ensures
        r == is_binary(lines(section@)),
{
    let start = chars_of("Binary files ");
    let end = chars_of(" differ");
    let all = lines_of(section);
    let ghost views = pieces(all@);
    let mut i: usize = 0;
    while i < all.len()
        invariant
            i <= all@.len(),
            views == pieces(all@),
            views == lines(section@),
            start@ == "Binary files "@,
            end@ == " differ"@,
            forall|k: int| 0 <= k < i ==> !tells_binary(#[trigger] views[k]),
        decreases all@.len() - i,
    {
        proof {
            assert(views[i as int] == all@[i as int]@);
        }
        if begins_with(&all[i], &start) && finishes_with(&all[i], &end) {
            proof {
                assert(tells_binary(views[i as int]));
            }
            return true;
        }
        i += 1;
    }
    false
}

/// The numbers among the texts, in order.
fn read_line_numbers(starts: &Vec<Option<String>>) -> (r: Vec<usize>)
    ensures
        r@ == line_numbers(optional_texts(starts@)),
        from_one(r@),
{
    let mut r: Vec<usize> = Vec::new();
    let ghost all = optional_texts(starts@);
    let mut i: usize = 0;
    while i < starts.len()
        invariant
            i <= starts@.len(),
            all == optional_texts(starts@),
            r@ == line_numbers(all.take(i as int)),
            from_one(r@),
        decreases starts@.len() - i,
    {
        proof {
            assert(all.take(i + 1).drop_last() =~= all.take(i as int));
            assert(all.take(i + 1).last() == optional_text(starts@[i as int]));
        }
        if let Some(digits) = &starts[i] {
            if let Some(n) = parse_usize(&chars_of(digits.as_str())) {
                r.push(
                    if n == 0 {
                        1
                    } else {
                        n
                    },
                );
            }
        }
        i += 1;
    }
    proof {
        assert(all.take(i as int) =~= all);
    }
    r
}

/// What a section of a diff says, given the first match of the header pattern
/// and the matches of the hunk pattern in it.
pub fn file_change(
    section: &str,
    header: Option<Option<String>>,
    starts: Vec<Option<String>>,
) -> (r: Option<ChangedFile>)
    ensures
        match r {
            Some(f) => section_change(section@, match_text(header), optional_texts(starts@)) == Some(
                FileChange { path: f.file_path.text(), lines: f.changed_lines@ },
            ) && f.file_path@ == components(f.file_path.text()),
            None => section_change(section@, match_text(header), optional_texts(starts@)) is None,
        },
        r matches Some(f) ==> from_one(f.changed_lines@),
{
    let listed = match read_listed_path(&header) {
        Some(path) => path,
        None => {
            return None;
        },
    };
    let text = chars_of(section);
    let moved = read_new_path(&text);
    let mut numbers = read_line_numbers(&starts);
    let path = match &moved {
        Some(path) => path.clone(),
        None => listed,
    };
    if numbers.len() == 0 {
        if is_binary_section(&text) {
            proof {
                assert(numbers@ =~= seq![]);
            }
        } else if moved.is_some() {
            numbers.push(1);
            proof {
                assert(numbers@ =~= seq![1usize]);
            }
        } else {
            return None;
        }
    }
    Some(ChangedFile { file_path: FilePath::new(path.as_str()), changed_lines: numbers })
}

/// Reads a diff: the changed files with their new line numbers.
pub fn parse_diff(diff: &str) -> (r: Result<Vec<ChangedFile>, DominoError>)
    ensures
        parsed_view(r) == parsed(diff@),
        r matches Ok(files) ==> paths_are_read(files@) && all_from_one(files@),
{
    let header = r#"(?:["\s]a/)(.*)(?:["\s]b/)"#;
    let hunk = r"@@ -.* \+(\d+)(?:,\d+)? @@";
    proof {
        lemma_patterns_are_small();
    }
    if let Some(e) = rejection(header) {
        return Err(DominoError::Parse(concat("Invalid file regex: ", e.as_str())));
    }
    if let Some(e) = rejection(hunk) {
        return Err(DominoError::Parse(concat("Invalid line regex: ", e.as_str())));
    }
    let start = chars_of("diff --git");
    proof {
        reveal_strlit("diff --git");
    }
    let parts = split_text(&chars_of(diff), &start);
    let ghost all = sections(diff@);
    let mut files: Vec<ChangedFile> = Vec::new();
    let mut i: usize = 1;
    proof {
        assert(pieces(parts@).len() >= 1);
        assert(all.take(0) =~= seq![]);
        assert(changes(files@) =~= seq![]);
    }
    while i < parts.len()
        invariant
            1 <= i <= parts@.len(),
            all == pieces(parts@).skip(1),
            header@ == header_pattern(),
            hunk@ == hunk_pattern(),
            is_small(header@),
            is_small(hunk@),
            regex_rejection(header@) is None,
            regex_rejection(hunk@) is None,
            changes(files@) == section_changes(all.take(i - 1)),
            paths_are_read(files@),
            all_from_one(files@),
        decreases parts@.len() - i,
    {
        let section = string_between(&parts[i], 0, parts[i].len());
        let ghost before = files@;
        proof {
            assert(parts@[i as int]@.subrange(0, parts@[i as int]@.len() as int)
                =~= parts@[i as int]@);
            assert(all.take(i as int).drop_last() =~= all.take(i - 1));
            assert(all.take(i as int).last() == section@);
        }
        let found = read_header_path(header, section.as_str());
        let starts = read_hunk_starts(hunk, section.as_str());
        if let Some(f) = file_change(section.as_str(), found, starts) {
            files.push(f);
            proof {
                assert(changes(files@) =~= changes(before).push(
                    FileChange { path: f.file_path.text(), lines: f.changed_lines@ },
                ));
            }
        }
        i += 1;
    }
    proof {
        assert(all.take(i - 1) =~= all);
    }
    Ok(files)
}

/// What a finished command left behind.
#[derive(Debug, Clone)]
pub struct CommandOutput {
    /// Whether it reported success
    pub success: bool,
    /// What it wrote to its standard output
    pub stdout: Vec<u8>,
    /// What it wrote to its standard error
    pub stderr: Vec<u8>,
}

/// The branches that may be the default one, most likely first.
pub open spec fn default_branches() -> Seq<Seq<char>> {
    seq!["origin/main"@, "origin/master"@]
}

/// The first of the branches that was found, or the first of all where none was.
pub open spec fn default_branch(found: Seq<bool>) -> Seq<char> {
    if found.len() > 0 && found[0] {
        default_branches()[0]
    } else if found.len() > 1 && found[1] {
        default_branches()[1]
    } else {
        default_branches()[0]
    }
}

/// The error of a git command that could not be run.
pub open spec fn not_executed(command: Seq<char>, e: Seq<char>) -> ErrorView {
    ErrorView::Other("Failed to execute git "@ + command + ": "@ + e)
}

/// The commit that `git merge-base` found: none where it failed or printed
/// nothing.
pub open spec fn merge_base(output: CommandOutput) -> Option<Seq<char>> {
    let commit = trim(utf8_lossy(output.stdout@));
    if output.success && commit.len() > 0 {
        Some(commit)
    } else {
        None
    }
}

/// What `git rev-parse` of the base came to.
pub open spec fn resolved_base(
    base: Seq<char>,
    run: Result<CommandOutput, String>,
) -> Result<Seq<char>, ErrorView> {
    match run {
        Err(e) => Err(not_executed("rev-parse"@, e@)),
        Ok(output) => if output.success {
            Ok(trim(utf8_lossy(output.stdout@)))
        } else {
            Err(
                ErrorView::Other(
                    "Git rev-parse failed for '"@ + base + "': "@ + utf8_lossy(output.stderr@),
                ),
            )
        },
    }
}

/// What `git diff` against `base` came to.
pub open spec fn diff_text(
    base: Seq<char>,
    run: Result<CommandOutput, String>,
) -> Result<Seq<char>, ErrorView> {
    match run {
        Err(e) => Err(not_executed("diff"@, e@)),
        Ok(output) => if output.success {
            Ok(utf8_lossy(output.stdout@))
        } else {
            Err(
                ErrorView::Other(
                    "Git diff failed for base '"@ + base + "': "@ + utf8_lossy(output.stderr@),
                ),
            )
        },
    }
}

/// Which git command was run.
#[derive(Debug, Clone)]
pub enum GitStage {
    /// The search for the commit where the current branch left the base
    MergeBase,
    /// The resolution of the base itself
    RevParse,
    /// The diff of the working tree against a commit
    Diff {
        /// The commit
        base: String,
    },
}

/// What to do next.
#[derive(Debug)]
pub enum GitAction {
    /// Run git with these arguments.
    Run { stage: GitStage, args: Vec<String> },
    /// The changed files are known, or cannot be.
    Done { files: Result<Vec<ChangedFile>, DominoError> },
}

/// The content of a `GitStage`.
pub enum Stage {
    MergeBase,
    RevParse,
    Diff { base: Seq<char> },
}

/// The content of a `GitAction`.
pub enum Action {
    Run { stage: Stage, args: Seq<Seq<char>> },
    Done { files: Result<Seq<FileChange>, ErrorView> },
}

impl View for GitStage {
    type V = Stage;

    open spec fn view(&self) -> Stage {
        match *self {
            GitStage::MergeBase => Stage::MergeBase,
            GitStage::RevParse => Stage::RevParse,
            GitStage::Diff { base } => Stage::Diff { base: base@ },
        }
    }
}

impl View for GitAction {
    type V = Action;

    open spec fn view(&self) -> Action {
        match *self {
            GitAction::Run { stage, args } => Action::Run { stage: stage@, args: texts(args@) },
            GitAction::Done { files } => Action::Done { files: parsed_view(files) },
        }
    }
}

/// To look for the commit where `head` left `base`.
pub open spec fn find_merge_base(base: Seq<char>, head: Seq<char>) -> Action {
    Action::Run { stage: Stage::MergeBase, args: seq!["merge-base"@, base, head] }
}

/// To resolve the base itself.
pub open spec fn resolve_base(base: Seq<char>) -> Action {
    Action::Run { stage: Stage::RevParse, args: seq!["rev-parse"@, base] }
}

/// To compare the working tree with `commit`: no second commit is named, so what
/// is not committed counts.
pub open spec fn compare_with(commit: Seq<char>) -> Action {
    Action::Run {
        stage: Stage::Diff { base: commit },
        args: seq!["diff"@, commit, "--unified=0"@, "--relative"@],
    }
}

/// What to do once a command has run. The commit to compare with is the merge
/// base where there is one, else the base itself.
pub open spec fn next_action(
    base: Seq<char>,
    stage: Stage,
    run: Result<CommandOutput, String>,
) -> Action {
    match stage {
        Stage::MergeBase => match run {
            Err(e) => Action::Done { files: Err(not_executed("merge-base"@, e@)) },
            Ok(output) => match merge_base(output) {
                Some(commit) => compare_with(commit),
                None => resolve_base(base),
            },
        },
        Stage::RevParse => match resolved_base(base, run) {
            Err(e) => Action::Done { files: Err(e) },
            Ok(commit) => compare_with(commit),
        },
        Stage::Diff { base: commit } => Action::Done {
            files: match diff_text(commit, run) {
                Err(e) => Err(e),
                Ok(diff) => parsed(diff),
            },
        },
    }
}

fn execution_error(command: &str, e: &String) -> (r: DominoError)
    ensures
        r@ == not_executed(command@, e@),
{
    let mut message = concat("Failed to execute git ", command);
    message.append(": ");
    message.append(e.as_str());
    DominoError::Other(message)
}

/// The message `start`, the base in quotes, and what the command complained of.
fn failure_message(start: &str, base: &str, stderr: &Vec<u8>) -> (r: String)
    ensures
        r@ == start@ + base@ + "': "@ + utf8_lossy(stderr@),
{
    let mut message = concat(start, base);
    message.append("': ");
    message.append(lossy_text(stderr).as_str());
    message
}

/// The text that bytes spell, without the white space at either end.
fn trimmed_text(bytes: &Vec<u8>) -> (r: String)
    ensures
        r@ == trim(utf8_lossy(bytes@)),
{
    let v = trimmed(&chars_of(lossy_text(bytes).as_str()));
    proof {
        assert(v@.subrange(0, v@.len() as int) =~= v@);
    }
    string_between(&v, 0, v.len())
}

/// The arguments that ask git whether a branch exists.
pub fn branch_probe(branch: &str) -> (r: Vec<String>)
    ensures
        texts(r@) == seq!["rev-parse"@, "--verify"@, branch@],
{
    let mut r: Vec<String> = Vec::new();
    r.push("rev-parse".to_owned());
    r.push("--verify".to_owned());
    r.push(branch.to_owned());
    proof {
        assert(texts(r@) =~= seq!["rev-parse"@, "--verify"@, branch@]);
    }
    r
}

/// The branches to ask git for, in order.
pub fn branch_candidates() -> (r: Vec<String>)
    ensures
        texts(r@) == default_branches(),
{
    let mut r: Vec<String> = Vec::new();
    r.push("origin/main".to_owned());
    r.push("origin/master".to_owned());
    proof {
        assert(texts(r@) =~= default_branches());
    }
    r
}

/// The default branch, given which of the candidates git was asked for exist:
/// the first that does. Where none does, it is the first candidate.
pub fn detect_default_branch(found: &Vec<bool>) -> (r: String)
    ensures
        r@ == default_branch(found@),
{
    if found.len() > 1 && !found[0] && found[1] {
        "origin/master".to_owned()
    } else {
        "origin/main".to_owned()
    }
}

/// Whether a command ran and reported success.
pub fn succeeded(run: &Result<CommandOutput, String>) -> (r: bool)
    ensures
        r == (run matches Ok(output) && output.success),
{
    match run {
        Ok(output) => output.success,
        Err(_) => false,
    }
}

/// The commit where the branches parted, as `git merge-base` told it. Nothing
/// where git found none: the base is to be resolved instead.
pub fn get_merge_base(run: &Result<CommandOutput, String>) -> (r: Result<
    Option<String>,
    DominoError,
>)
    ensures
        match *run {
            Err(e) => r matches Err(error) && error@ == not_executed("merge-base"@, e@),
            Ok(output) => r matches Ok(commit) && optional_text(commit) == merge_base(output),
        },
{
    match run {
        Err(e) => Err(execution_error("merge-base", e)),
        Ok(output) => {
            if output.success {
                let commit = trimmed_text(&output.stdout);
                if chars_of(commit.as_str()).len() > 0 {
                    return Ok(Some(commit));
                }
            }
            Ok(None)
        },
    }
}

/// The commit that the base stands for, as `git rev-parse` told it.
pub fn get_base_commit(base: &str, run: &Result<CommandOutput, String>) -> (r: Result<
    String,
    DominoError,
>)
    ensures
        match r {
            Ok(commit) => resolved_base(base@, *run) == Ok::<Seq<char>, ErrorView>(commit@),
            Err(e) => resolved_base(base@, *run) == Err::<Seq<char>, ErrorView>(e@),
        },
{
    match run {
        Err(e) => Err(execution_error("rev-parse", e)),
        Ok(output) => if output.success {
            Ok(trimmed_text(&output.stdout))
        } else {
            Err(
                DominoError::Other(
                    failure_message("Git rev-parse failed for '", base, &output.stderr),
                ),
            )
        },
    }
}

/// The diff against `base`, as `git diff` wrote it.
pub fn get_diff(base: &str, run: &Result<CommandOutput, String>) -> (r: Result<
    String,
    DominoError,
>)
    ensures
        match r {
            Ok(diff) => diff_text(base@, *run) == Ok::<Seq<char>, ErrorView>(diff@),
            Err(e) => diff_text(base@, *run) == Err::<Seq<char>, ErrorView>(e@),
        },
{
    match run {
        Err(e) => Err(execution_error("diff", e)),
        Ok(output) => if output.success {
            Ok(lossy_text(&output.stdout))
        } else {
            Err(
                DominoError::Other(
                    failure_message("Git diff failed for base '", base, &output.stderr),
                ),
            )
        },
    }
}

/// The first command to run: a search for the commit where `head` left `base`.
pub fn start_action(base: &str, head: &str) -> (r: GitAction)
    ensures
        r@ == find_merge_base(base@, head@),
{
    let mut args: Vec<String> = Vec::new();
    args.push("merge-base".to_owned());
    args.push(base.to_owned());
    args.push(head.to_owned());
    proof {
        assert(texts(args@) =~= seq!["merge-base"@, base@, head@]);
    }
    GitAction::Run { stage: GitStage::MergeBase, args }
}

fn resolve_action(base: &str) -> (r: GitAction)
    ensures
        r@ == resolve_base(base@),
{
    let mut args: Vec<String> = Vec::new();
    args.push("rev-parse".to_owned());
    args.push(base.to_owned());
    proof {
        assert(texts(args@) =~= seq!["rev-parse"@, base@]);
    }
    GitAction::Run { stage: GitStage::RevParse, args }
}

fn diff_action(commit: String) -> (r: GitAction)
    ensures
        r@ == compare_with(commit@),
{
    let mut args: Vec<String> = Vec::new();
    args.push("diff".to_owned());
    args.push(commit.clone());
    args.push("--unified=0".to_owned());
    args.push("--relative".to_owned());
    proof {
        assert(texts(args@) =~= seq!["diff"@, commit@, "--unified=0"@, "--relative"@]);
    }
    GitAction::Run { stage: GitStage::Diff { base: commit }, args }
}

/// What to do on the way to the changed files, once a command has run.
pub fn get_changed_files(
    base: &str,
    stage: &GitStage,
    run: &Result<CommandOutput, String>,
) -> (r: GitAction)
    ensures
        r@ == next_action(base@, stage@, *run),
        r matches GitAction::Done { files: Ok(files) } ==> paths_are_read(files@) && all_from_one(
            files@,
        ),
{
    match stage {
        GitStage::MergeBase => match get_merge_base(run) {
            Err(e) => GitAction::Done { files: Err(e) },
            Ok(Some(commit)) => diff_action(commit),
            Ok(None) => resolve_action(base),
        },
        GitStage::RevParse => match get_base_commit(base, run) {
            Err(e) => GitAction::Done { files: Err(e) },
            Ok(commit) => diff_action(commit),
        },
        GitStage::Diff { base: commit } => match get_diff(commit.as_str(), run) {
            Err(e) => GitAction::Done { files: Err(e) },
            Ok(diff) => GitAction::Done { files: parse_diff(diff.as_str()) },
        },
    }
}

/// How many commands may still have to run.
pub open spec fn commands_left(action: Action) -> nat {
    match action {
        Action::Run { stage: Stage::MergeBase, .. } => 3,
        Action::Run { stage: Stage::RevParse, .. } => 2,
        Action::Run { stage: Stage::Diff { .. }, .. } => 1,
        Action::Done { .. } => 0,
    }
}

/// Each command leaves fewer to run, whatever comes of it: the changed files are
/// known, or cannot be, after three commands at most.
pub proof fn commands_run_out(
    base: Seq<char>,
    stage: Stage,
    args: Seq<Seq<char>>,
    run: Result<CommandOutput, String>,
)
    ensures
        commands_left(next_action(base, stage, run)) < commands_left(Action::Run { stage, args }),
{
}

/// The commit to compare with: the merge base where git found one, else what the
/// base stands for.
pub open spec fn base_commit(
    base: Seq<char>,
    merge: Result<CommandOutput, String>,
    rev: Result<CommandOutput, String>,
) -> Result<Seq<char>, ErrorView> {
    match merge {
        Err(e) => Err(not_executed("merge-base"@, e@)),
        Ok(output) => match merge_base(output) {
            Some(commit) => Ok(commit),
            None => resolved_base(base, rev),
        },
    }
}

/// What comes of the commands that an action asks for, where `git rev-parse`
/// comes to `rev` and `git diff` to `diff`.
pub open spec fn settled(
    base: Seq<char>,
    action: Action,
    rev: Result<CommandOutput, String>,
    diff: Result<CommandOutput, String>,
) -> Option<Result<Seq<FileChange>, ErrorView>> {
    let compared = match action {
        Action::Run { stage: Stage::RevParse, .. } => next_action(base, Stage::RevParse, rev),
        _ => action,
    };
    let done = match compared {
        Action::Run { stage: Stage::Diff { base: commit }, .. } => next_action(
            base,
            Stage::Diff { base: commit },
            diff,
        ),
        _ => compared,
    };
    match done {
        Action::Done { files } => Some(files),
        _ => None,
    }
}

/// Whatever the commands come to, the search ends with the files of the diff
/// against the base commit, or with the first error on the way.
pub proof fn search_ends_with_the_diff(
    base: Seq<char>,
    merge: Result<CommandOutput, String>,
    rev: Result<CommandOutput, String>,
    diff: Result<CommandOutput, String>,
)
    ensures
        settled(base, next_action(base, Stage::MergeBase, merge), rev, diff) == Some(
            match base_commit(base, merge, rev) {
                Err(e) => Err(e),
                Ok(commit) => match diff_text(commit, diff) {
                    Err(e) => Err(e),
                    Ok(text) => parsed(text),
                },
            },
        ),
{
}

/// Files are only ever read off a diff: a result without an error comes from
/// what `git diff` printed when it reported success.
pub proof fn files_come_from_a_diff(
    base: Seq<char>,
    stage: Stage,
    run: Result<CommandOutput, String>,
    files: Seq<FileChange>,
)
    requires
        next_action(base, stage, run) == (Action::Done {
            files: Ok::<Seq<FileChange>, ErrorView>(files),
        }),
    ensures
        stage is Diff,
        run matches Ok(output) && output.success && files == section_changes(
            sections(utf8_lossy(output.stdout@)),
        ),
{
}

/// Every file that a section reports has a changed line, unless it is binary,
/// and a file that was moved or copied is reported under its new path.
pub proof fn reported_sections_have_lines(
    section: Seq<char>,
    header: Option<Option<Seq<char>>>,
    starts: Seq<Option<Seq<char>>>,
)
    ensures
        section_change(section, header, starts) matches Some(change) ==> {
            &&& change.lines.len() > 0 || is_binary(lines(section))
            &&& new_path(lines(section)) matches Some(path) ==> change.path == path
        },
{
}

proof fn lemma_numbers_from_one(starts: Seq<Option<Seq<char>>>)
    ensures
        from_one(line_numbers(starts)),
    decreases starts.len(),
{
    if starts.len() > 0 {
        lemma_numbers_from_one(starts.drop_last());
    }
}

/// Every line that a diff reports is counted from one.
pub proof fn reported_lines_count_from_one(parts: Seq<Seq<char>>)
    ensures
        forall|i: int|
            0 <= i < section_changes(parts).len() ==> from_one(
                (#[trigger] section_changes(parts)[i]).lines,
            ),
    decreases parts.len(),
{
    if parts.len() > 0 {
        let earlier = section_changes(parts.drop_last());
        let all = section_changes(parts);
        reported_lines_count_from_one(parts.drop_last());
        lemma_numbers_from_one(hunk_starts(parts.last()));
        assert forall|i: int| 0 <= i < all.len() implies from_one((#[trigger] all[i]).lines) by {
            if i < earlier.len() {
                assert(all[i] == earlier[i]);
            }
        }
    }
}

/// A text file that was moved or copied without a change inside is reported at
/// its first line.
pub proof fn bare_move_is_reported_at_line_one(
    section: Seq<char>,
    header: Option<Option<Seq<char>>>,
    starts: Seq<Option<Seq<char>>>,
    path: Seq<char>,
)
    requires
        listed_path(header) is Some,
        new_path(lines(section)) == Some(path),
        line_numbers(starts).len() == 0,
        !is_binary(lines(section)),
    ensures
        section_change(section, header, starts) == Some(FileChange { path, lines: seq![1usize] }),
{
}

/// A binary file is reported as changed entirely, with no lines, wherever it was
/// moved.
pub proof fn binary_file_is_reported_without_lines(
    section: Seq<char>,
    header: Option<Option<Seq<char>>>,
    starts: Seq<Option<Seq<char>>>,
)
    requires
        listed_path(header) is Some,
        line_numbers(starts).len() == 0,
        is_binary(lines(section)),
    ensures
        section_change(section, header, starts) matches Some(change) && change.lines.len() == 0
            && change.path == match new_path(lines(section)) {
            Some(path) => path,
            None => listed_path(header)->Some_0,
        },
{
}

/// A section without a path, or without lines and neither moved nor binary, says
/// nothing.
pub proof fn other_sections_say_nothing(
    section: Seq<char>,
    header: Option<Option<Seq<char>>>,
    starts: Seq<Option<Seq<char>>>,
)
    ensures
        section_change(section, header, starts) is None <==> listed_path(header) is None || (
        line_numbers(starts).len() == 0 && new_path(lines(section)) is None && !is_binary(
            lines(section),
        )),
{
}

/// Numbers of lines are read one by one: those of two lists are those of the first,
/// and then those of the second.
pub proof fn starts_are_read_one_by_one(a: Seq<Option<Seq<char>>>, b: Seq<Option<Seq<char>>>)
    ensures
        line_numbers(a + b) == line_numbers(a) + line_numbers(b),
    decreases b.len(),
{
    if b.len() == 0 {
        assert(a + b =~= a);
        assert(line_numbers(a) + line_numbers(b) =~= line_numbers(a));
    } else {
        let ab = a + b;
        assert(ab.drop_last() =~= a + b.drop_last());
        assert(ab.last() == b.last());
        starts_are_read_one_by_one(a, b.drop_last());
        assert(line_numbers(ab) =~= line_numbers(a) + line_numbers(b));
    }
}

/// Digits give the line that they write, line zero counting as the first. What is no
/// number, or is too large, gives none.
pub proof fn start_is_the_line_it_writes(start: Seq<char>)
    ensures
        start.len() > 0 && all_digits(start) && 0 < decimal(start) <= usize::MAX ==> line_numbers(
            seq![Some(start)],
        ) == seq![decimal(start) as usize],
        start.len() > 0 && all_digits(start) && decimal(start) == 0 ==> line_numbers(
            seq![Some(start)],
        ) == seq![1usize],
        parsed_usize(start) is None ==> line_numbers(seq![Some(start)]).len() == 0,
        line_numbers(seq![None]).len() == 0,
{
    let one = seq![Some(start)];
    let none = seq![None::<Seq<char>>];
    assert(one.drop_last() =~= seq![]);
    assert(none.drop_last() =~= seq![]);
    assert(line_numbers(one.drop_last()) =~= seq![]);
    assert(line_numbers(none.drop_last()) =~= seq![]);
    if start.len() > 0 {
        numbers_are_digits(start);
        if all_digits(start) {
            assert('0' <= start[0] <= '9');
        }
    }
    if let Some(n) = parsed_usize(start) {
        assert(line_numbers(one) =~= seq![counted(n)]);
    }
}

/// A hunk header as git writes it: `@@ -a,b +c,d @@`, each count left out or not, and
/// what follows on the line.
pub open spec fn written_header(
    old_side: Seq<char>,
    number: Seq<char>,
    count: Option<Seq<char>>,
    context: Seq<char>,
) -> Seq<char> {
    "@@ -"@ + old_side + seq![' ', '+'] + number + (match count {
        Some(digits) => seq![','] + digits,
        None => seq![],
    }) + seq![' ', '@', '@'] + context
}

/// Whether the parts of such a header are what git writes there: numbers, and a
/// context that holds no other ` @@`.
pub open spec fn is_written(
    old_side: Seq<char>,
    number: Seq<char>,
    count: Option<Seq<char>>,
    context: Seq<char>,
) -> bool {
    &&& number.len() > 0 && all_digits(number)
    &&& count matches Some(digits) ==> digits.len() > 0 && all_digits(digits)
    &&& forall|i: int|
        0 <= i < old_side.len() ==> '0' <= #[trigger] old_side[i] <= '9' || old_side[i] == ','
    &&& !contains(context, seq![' ', '@', '@'])
    &&& !context.contains('\n')
}

proof fn lemma_header_is_one_line(
    old_side: Seq<char>,
    number: Seq<char>,
    count: Option<Seq<char>>,
    context: Seq<char>,
)
    requires
        is_written(old_side, number, count, context),
    ensures
        !written_header(old_side, number, count, context).contains('\n'),
{
    let tail = match count {
        Some(digits) => seq![','] + digits,
        None => seq![],
    };
    reveal_strlit("@@ -");
    let line = written_header(old_side, number, count, context);
    if line.contains('\n') {
        let i = choose|i: int| 0 <= i < line.len() && line[i] == '\n';
        let q = (4 + old_side.len()) as int;
        let e = q + 2 + number.len();
        let f = e + tail.len();
        if i < 4 {
        } else if i < q {
            assert(line[i] == old_side[i - 4]);
        } else if i < q + 2 {
        } else if i < e {
            assert(line[i] == number[i - q - 2]);
        } else if i < f {
            if let Some(digits) = count {
                if i > e {
                    assert(line[i] == digits[i - e - 1]);
                }
            }
        } else if i >= f + 3 {
            assert(line[i] == context[i - f - 3]);
            assert(context.contains(context[i - f - 3]));
        }
    }
}

/// A hunk header on a line of its own gives the line that it writes, between those of
/// the lines before it and those of the lines behind it.
pub proof fn hunk_header_gives_its_line(
    before: Seq<char>,
    old_side: Seq<char>,
    number: Seq<char>,
    count: Option<Seq<char>>,
    context: Seq<char>,
    behind: Seq<char>,
)
    requires
        is_written(old_side, number, count, context),
        0 < decimal(number) <= usize::MAX,
    ensures
        line_numbers(
            hunk_starts(
                before + seq!['\n'] + written_header(old_side, number, count, context) + seq!['\n']
                    + behind,
            ),
        ) == line_numbers(hunk_starts(before)) + seq![decimal(number) as usize] + line_numbers(
            hunk_starts(behind),
        ),
{
    let line = written_header(old_side, number, count, context);
    lemma_header_is_one_line(old_side, number, count, context);
    hunk_starts_where_its_header_says(old_side, number, count, context);
    single_line_is_read_for_itself(line);
    hunks_are_read_line_by_line(before, line);
    hunks_are_read_line_by_line(before + seq!['\n'] + line, behind);
    starts_are_read_one_by_one(hunk_starts(before), seq![Some(number)]);
    starts_are_read_one_by_one(hunk_starts(before) + seq![Some(number)], hunk_starts(behind));
    start_is_the_line_it_writes(number);
}

/// Every hunk is reported: where a line of a section is a hunk header and the section
/// lists a path, the diff reports a file with the line of the header among its lines,
/// in the order of the headers. The file goes by the path it was moved to, or else by
/// the one that is listed, without quotes.
pub proof fn every_hunk_is_reported(
    diff: Seq<char>,
    files: Seq<FileChange>,
    k: int,
    before: Seq<char>,
    old_side: Seq<char>,
    number: Seq<char>,
    count: Option<Seq<char>>,
    context: Seq<char>,
    behind: Seq<char>,
    i: int,
    j: int,
)
    requires
        parsed(diff) == Ok::<Seq<FileChange>, ErrorView>(files),
        0 <= k < sections(diff).len(),
        is_written(old_side, number, count, context),
        0 < decimal(number) <= usize::MAX,
        sections(diff)[k] == before + seq!['\n'] + written_header(old_side, number, count, context)
            + seq!['\n'] + behind,
        !has_foreign_edge(sections(diff)[k]),
        is_listed(sections(diff)[k], i, j),
        forall|i2: int, j2: int| #[trigger]
            is_listed(sections(diff)[k], i2, j2) ==> i < i2 || (i == i2 && j2 <= j),
    ensures
        exists|n: int|
            0 <= n < files.len() && (#[trigger] files[n]).lines == line_numbers(hunk_starts(before))
                + seq![decimal(number) as usize] + line_numbers(hunk_starts(behind))
                && files[n].path == match new_path(lines(sections(diff)[k])) {
                Some(path) => path,
                None => trim(without_char(sections(diff)[k].subrange(i + 3, j), '"')),
            },
{
    let section = sections(diff)[k];
    hunk_header_gives_its_line(before, old_side, number, count, context, behind);
    listed_path_is_the_first(section);
    assert(line_numbers(hunk_starts(section)).len() > 0);
    let change = section_change(section, header_path(section), hunk_starts(section))->Some_0;
    reported_files_are_those_of_the_sections(sections(diff), change);
    assert(section_changes(sections(diff)).contains(change));
}

/// The files of a diff are those of its sections, in order: appending sections
/// appends their files.
pub proof fn sections_are_read_one_by_one(first: Seq<Seq<char>>, second: Seq<Seq<char>>)
    ensures
        section_changes(first + second) == section_changes(first) + section_changes(second),
    decreases second.len(),
{
    if second.len() == 0 {
        assert(first + second =~= first);
        assert(section_changes(first) + Seq::<FileChange>::empty() =~= section_changes(first));
    } else {
        let both = first + second;
        assert(both.drop_last() =~= first + second.drop_last());
        sections_are_read_one_by_one(first, second.drop_last());
        assert(both.last() == second.last());
        let a = section_changes(first);
        let b = section_changes(second.drop_last());
        match section_change(
            second.last(),
            header_path(second.last()),
            hunk_starts(second.last()),
        ) {
            Some(change) => {
                assert((a + b).push(change) =~= a + b.push(change));
            },
            None => {},
        }
    }
}

/// A diff reports exactly what its sections say.
pub proof fn reported_files_are_those_of_the_sections(parts: Seq<Seq<char>>, change: FileChange)
    ensures
        section_changes(parts).contains(change) <==> exists|i: int|
            0 <= i < parts.len() && section_change(
                #[trigger] parts[i],
                header_path(parts[i]),
                hunk_starts(parts[i]),
            ) == Some(change),
    decreases parts.len(),
{
    if parts.len() > 0 {
        let rest = parts.drop_last();
        let n = parts.len() - 1;
        let earlier = section_changes(rest);
        let all = section_changes(parts);
        reported_files_are_those_of_the_sections(rest, change);
        assert(parts[n] == parts.last());
        assert forall|i: int| 0 <= i < n implies #[trigger] rest[i] == parts[i] by {}
        if all.contains(change) {
            let k = choose|k: int| 0 <= k < all.len() && all[k] == change;
            if k < earlier.len() {
                assert(earlier[k] == change);
                let i = choose|i: int|
                    0 <= i < rest.len() && section_change(
                        #[trigger] rest[i],
                        header_path(rest[i]),
                        hunk_starts(rest[i]),
                    ) == Some(change);
                assert(parts[i] == rest[i]);
            }
        }
        if exists|i: int|
            0 <= i < parts.len() && section_change(
                #[trigger] parts[i],
                header_path(parts[i]),
                hunk_starts(parts[i]),
            ) == Some(change) {
            let i = choose|i: int|
                0 <= i < parts.len() && section_change(
                    #[trigger] parts[i],
                    header_path(parts[i]),
                    hunk_starts(parts[i]),
                ) == Some(change);
            if i < n {
                assert(rest[i] == parts[i]);
                let k = choose|k: int| 0 <= k < earlier.len() && earlier[k] == change;
                assert(all[k] == change);
            } else {
                assert(all[earlier.len() as int] == change);
            }
        }
    }
}

proof fn lemma_separator(i: int)
    requires
        0 < i < "diff --git"@.len(),
    ensures
        "diff --git"@.len() == 10,
        "diff --git"@[i] != "diff --git"@[0],
{
    reveal_strlit("diff --git");
    assert(i == 1 || i == 2 || i == 3 || i == 4 || i == 5 || i == 6 || i == 7 || i == 8 || i == 9);
}

/// Where a text is followed by a separator, the first separator in the text comes
/// first, or else the one that follows.
proof fn lemma_find_joined(a: Seq<char>, rest: Seq<char>)
    ensures
        match find_from(a, "diff --git"@, 0) {
            Some(i) => find_from(a + "diff --git"@ + rest, "diff --git"@, 0) == Some(i) && i
                + "diff --git"@.len() <= a.len(),
            None => find_from(a + "diff --git"@ + rest, "diff --git"@, 0) == Some(a.len()),
        },
{
    let sep = "diff --git"@;
    let s = a + sep + rest;
    reveal_strlit("diff --git");
    assert(s.subrange(a.len() as int, (a.len() + sep.len()) as int) =~= sep);
    assert(occurs_at(s, sep, a.len() as int));
    assert forall|i: int| 0 <= i < a.len() implies occurs_at(s, sep, i) == occurs_at(a, sep, i) by {
        if i + sep.len() <= a.len() {
            assert(s.subrange(i, i + sep.len()) =~= a.subrange(i, i + sep.len()));
        } else if occurs_at(s, sep, i) {
            // The second separator would start inside the first.
            let k = a.len() - i;
            lemma_separator(k);
            assert(s.subrange(i, i + sep.len())[k] == s[a.len() as int]);
            assert(s[a.len() as int] == sep[0]);
        }
    }
    lemma_find_is_first(a, sep, 0);
    match find_from(a, sep, 0) {
        Some(i) => {
            lemma_found(a, sep, 0);
            lemma_find_first(s, sep, 0, i);
        },
        None => {
            lemma_find_first(s, sep, 0, a.len());
        },
    }
}

proof fn lemma_split_joined(a: Seq<char>, rest: Seq<char>)
    ensures
        split(a + "diff --git"@ + rest, "diff --git"@) == split(a, "diff --git"@) + split(
            rest,
            "diff --git"@,
        ),
    decreases a.len(),
{
    let sep = "diff --git"@;
    let s = a + sep + rest;
    reveal_strlit("diff --git");
    lemma_find_joined(a, rest);
    match find_from(a, sep, 0) {
        Some(i) => {
            let next = (i + sep.len()) as int;
            lemma_split_joined(a.skip(next), rest);
            assert(s.take(i as int) =~= a.take(i as int));
            assert(s.skip(next) =~= a.skip(next) + sep + rest);
            assert(split(s, sep) == seq![a.take(i as int)] + split(s.skip(next), sep));
            assert(split(a, sep) == seq![a.take(i as int)] + split(a.skip(next), sep));
            assert(split(s, sep) =~= split(a, sep) + split(rest, sep));
        },
        None => {
            assert(s.take(a.len() as int) =~= a);
            assert(s.skip((a.len() + sep.len()) as int) =~= rest);
            assert(split(a, sep) == seq![a]);
            assert(split(s, sep) == seq![a] + split(rest, sep));
        },
    }
}

/// Two diffs one after the other, the second starting with a section, report what
/// the first reports, and then what the second does.
pub proof fn diffs_are_read_one_by_one(first: Seq<char>, second: Seq<char>)
    requires
        starts_with(second, "diff --git"@),
    ensures
        sections(first + second) == sections(first) + sections(second),
        parsed(first + second) == match (parsed(first), parsed(second)) {
            (Ok(a), Ok(b)) => Ok(a + b),
            (Err(e), _) => Err(e),
            (_, Err(e)) => Err(e),
        },
{
    let sep = "diff --git"@;
    let rest = second.skip(sep.len() as int);
    reveal_strlit("diff --git");
    assert(second =~= sep + rest) by {
        assert(second.subrange(0, sep.len() as int) =~= second.take(sep.len() as int));
    }
    assert(first + second =~= first + sep + rest);
    lemma_split_joined(first, rest);
    let none = Seq::<char>::empty();
    assert(none + sep + rest =~= second);
    lemma_split_joined(none, rest);
    assert(split(none, sep) =~= seq![none]);
    assert(split(first, sep).len() > 0);
    assert(sections(second) =~= split(rest, sep));
    assert(sections(first + second) =~= sections(first) + sections(second));
    sections_are_read_one_by_one(sections(first), sections(second));
}

/// A text without `diff --git` in it, such as the empty one, reports no files.
pub proof fn text_without_sections_reports_nothing(diff: Seq<char>)
    requires
        !contains(diff, "diff --git"@),
    ensures
        sections(diff).len() == 0,
        section_changes(sections(diff)).len() == 0,
{
    if let Some(i) = find_from(diff, "diff --git"@, 0) {
        lemma_found(diff, "diff --git"@, 0);
    }
}

/// A section with lines reports them, under the path that the header lists, unless the
/// file was moved. Quotes and the white space around the path do not belong to it.
pub proof fn changed_section_reports_its_lines(
    section: Seq<char>,
    listed: Seq<char>,
    starts: Seq<Option<Seq<char>>>,
)
    requires
        line_numbers(starts).len() > 0,
        new_path(lines(section)) is None,
    ensures
        section_change(section, Some(Some(listed)), starts) == Some(
            FileChange { path: trim(without_char(listed, '"')), lines: line_numbers(starts) },
        ),
        section_change(section, Some(None), starts) is None,
        section_change(section, None, starts) is None,
{
}

/// The path that a file was moved or copied to is the one on the first line that says
/// so. Where no line does, it was not moved.
pub proof fn new_path_is_told_by_the_first_line(
    before: Seq<Seq<char>>,
    path: Seq<char>,
    behind: Seq<Seq<char>>,
)
    requires
        forall|i: int|
            0 <= i < before.len() ==> !starts_with(#[trigger] before[i], "rename to "@)
                && !starts_with(before[i], "copy to "@),
        !starts_with(path, "rename to "@),
        !starts_with(path, "copy to "@),
    ensures
        new_path(before) is None,
        new_path(before + seq!["rename to "@ + path] + behind) == Some(trim(path)),
        new_path(before + seq!["copy to "@ + path] + behind) == Some(trim(path)),
    decreases before.len(),
{
    let rename = "rename to "@;
    let copy = "copy to "@;
    reveal_strlit("rename to ");
    reveal_strlit("copy to ");
    let r = rename + path;
    let c = copy + path;
    let a = before + seq![r] + behind;
    let b = before + seq![c] + behind;
    if before.len() == 0 {
        repeated_beginning_is_lost(path, rename);
        repeated_beginning_is_lost(path, copy);
        assert(strip_repeated(r, rename) == strip_repeated(path, rename));
        assert(strip_repeated(path, rename) == path);
        assert(strip_repeated(path, copy) == path);
        assert(a[0] == r);
        assert(b[0] == c);
        assert(r.subrange(0, rename.len() as int) =~= rename);
        assert(c.subrange(0, copy.len() as int) =~= copy);
        assert(!starts_with(c, rename)) by {
            if starts_with(c, rename) {
                assert(c.subrange(0, rename.len() as int)[0] == c[0]);
                assert(c[0] == 'c');
                assert(rename[0] == 'r');
            }
        }
        assert(strip_repeated(c, rename) == c);
    } else {
        let rest = before.drop_first();
        assert forall|i: int| 0 <= i < rest.len() implies !starts_with(#[trigger] rest[i], rename)
            && !starts_with(rest[i], copy) by {
            assert(rest[i] == before[i + 1]);
        }
        assert(!starts_with(before[0], rename));
        new_path_is_told_by_the_first_line(rest, path, behind);
        assert(a[0] == before[0]);
        assert(b[0] == before[0]);
        assert(a.drop_first() =~= rest + seq![r] + behind);
        assert(b.drop_first() =~= rest + seq![c] + behind);
    }
}

/// A section is about a binary file exactly where a line of it says that such files
/// differ.
pub proof fn binary_files_differ(all: Seq<Seq<char>>)
    ensures
        is_binary(all) <==> exists|i: int|
            0 <= i < all.len() && starts_with(#[trigger] all[i], "Binary files "@) && ends_with(
                all[i],
                " differ"@,
            ),
{
    if is_binary(all) {
        let i = choose|i: int| 0 <= i < all.len() && tells_binary(#[trigger] all[i]);
        assert(starts_with(all[i], "Binary files "@));
    }
    if exists|i: int|
        0 <= i < all.len() && starts_with(#[trigger] all[i], "Binary files "@) && ends_with(
            all[i],
            " differ"@,
        ) {
        let i = choose|i: int|
            0 <= i < all.len() && starts_with(#[trigger] all[i], "Binary files "@) && ends_with(
                all[i],
                " differ"@,
            );
        assert(tells_binary(all[i]));
    }
}

/// The default branch is `origin/main` where it exists, else `origin/master` where that
/// does, else `origin/main` after all.
pub proof fn default_branch_is_the_first_there_is(found: Seq<bool>)
    ensures
        default_branches() == seq!["origin/main"@, "origin/master"@],
        found.len() > 0 && found[0] ==> default_branch(found) == "origin/main"@,
        found.len() > 1 && !found[0] && found[1] ==> default_branch(found) == "origin/master"@,
        (forall|i: int| 0 <= i < found.len() ==> !#[trigger] found[i]) ==> default_branch(found)
            == "origin/main"@,
{
}

/// A commit that `git merge-base` prints is the one to compare with; where it fails or
/// prints nothing, the base itself is resolved. A command that could not be run ends
/// the search with an error.
pub proof fn merge_base_decides_the_comparison(
    base: Seq<char>,
    head: Seq<char>,
    run: Result<CommandOutput, String>,
)
    ensures
        find_merge_base(base, head) == (Action::Run {
            stage: Stage::MergeBase,
            args: seq!["merge-base"@, base, head],
        }),
        match run {
            Err(e) => next_action(base, Stage::MergeBase, run) == (Action::Done {
                files: Err(
                    ErrorView::Other("Failed to execute git "@ + "merge-base"@ + ": "@ + e@),
                ),
            }),
            Ok(output) => {
                let commit = trim(utf8_lossy(output.stdout@));
                next_action(base, Stage::MergeBase, run) == if output.success && commit.len() > 0 {
                    Action::Run {
                        stage: Stage::Diff { base: commit },
                        args: seq!["diff"@, commit, "--unified=0"@, "--relative"@],
                    }
                } else {
                    Action::Run { stage: Stage::RevParse, args: seq!["rev-parse"@, base] }
                }
            },
        },
{
}

/// Where the base itself is resolved, the commit that `git rev-parse` prints is the one
/// to compare with; where it fails, the search ends with what it complained of.
pub proof fn resolved_base_decides_the_comparison(
    base: Seq<char>,
    run: Result<CommandOutput, String>,
)
    ensures
        match run {
            Err(e) => next_action(base, Stage::RevParse, run) == (Action::Done {
                files: Err(ErrorView::Other("Failed to execute git "@ + "rev-parse"@ + ": "@ + e@)),
            }),
            Ok(output) => next_action(base, Stage::RevParse, run) == if output.success {
                let commit = trim(utf8_lossy(output.stdout@));
                Action::Run {
                    stage: Stage::Diff { base: commit },
                    args: seq!["diff"@, commit, "--unified=0"@, "--relative"@],
                }
            } else {
                Action::Done {
                    files: Err(
                        ErrorView::Other(
                            "Git rev-parse failed for '"@ + base + "': "@ + utf8_lossy(
                                output.stderr@,
                            ),
                        ),
                    ),
                }
            },
        },
{
}

/// The changed files are what the diff says that git prints; where it fails, the search
/// ends with what it complained of.
pub proof fn diff_decides_the_files(
    base: Seq<char>,
    commit: Seq<char>,
    run: Result<CommandOutput, String>,
)
    ensures
        match run {
            Err(e) => next_action(base, Stage::Diff { base: commit }, run) == (Action::Done {
                files: Err(ErrorView::Other("Failed to execute git "@ + "diff"@ + ": "@ + e@)),
            }),
            Ok(output) => next_action(base, Stage::Diff { base: commit }, run) == (Action::Done {
                files: if output.success {
                    parsed(utf8_lossy(output.stdout@))
                } else {
                    Err(
                        ErrorView::Other(
                            "Git diff failed for base '"@ + commit + "': "@ + utf8_lossy(
                                output.stderr@,
                            ),
                        ),
                    )
                },
            }),
        },
{
}

/// A section is what follows its `diff --git`, up to the next.
pub proof fn section_follows_its_start(before: Seq<char>, section: Seq<char>, second: Seq<char>)
    requires
        !contains(before, "diff --git"@),
        !contains(section, "diff --git"@),
        second.len() > 0 ==> starts_with(second, "diff --git"@),
    ensures
        sections(before + "diff --git"@ + section + second) == seq![section] + sections(second),
{
    let sep = "diff --git"@;
    reveal_strlit("diff --git");
    lemma_split_joined(before, section);
    text_without_a_separator_is_one_part(before, sep);
    text_without_a_separator_is_one_part(section, sep);
    let first = before + sep + section;
    assert(split(first, sep) =~= seq![before, section]);
    assert(sections(first) =~= seq![section]);
    if second.len() > 0 {
        diffs_are_read_one_by_one(first, second);
    } else {
        assert(first + second =~= first);
        assert(second =~= seq![]);
        assert(split(second, sep) =~= seq![second]);
        assert(seq![section] + sections(second) =~= seq![section]);
    }
}

/// Where the patterns are accepted, what a diff reports is what its sections say, in
/// their order, each section for itself.
pub proof fn diff_reports_its_sections(diff: Seq<char>, earlier: Seq<char>, section: Seq<char>)
    requires
        parsed(diff) is Ok,
        sections(diff) == sections(earlier).push(section),
    ensures
        parsed(earlier) matches Ok(before) && parsed(diff) == Ok::<Seq<FileChange>, ErrorView>(
            match section_change(section, header_path(section), hunk_starts(section)) {
                Some(change) => before.push(change),
                None => before,
            },
        ),
        sections(earlier).len() == 0 ==> parsed(earlier) == Ok::<Seq<FileChange>, ErrorView>(
            seq![],
        ),
{
    assert(sections(diff).drop_last() =~= sections(earlier));
}

/// What is read of a file is its path, as spelled, and its changed lines, file by file;
/// an error is handed on.
pub proof fn files_are_viewed_in_order(r: Result<Vec<ChangedFile>, DominoError>)
    ensures
        match r {
            Ok(files) => parsed_view(r) matches Ok(seen) && seen.len() == files@.len() && forall|
                i: int,
            |
                0 <= i < seen.len() ==> (#[trigger] seen[i]).path == files@[i].file_path.text()
                    && seen[i].lines == files@[i].changed_lines@,
            Err(e) => parsed_view(r) == Err::<Seq<FileChange>, ErrorView>(e@),
        },
{
}

/// What an action holds is what its arguments, its stage and its files are.
pub proof fn action_content_is_that_of_its_fields(action: GitAction)
    ensures
        match action {
            GitAction::Run { stage, args } => action@ matches Action::Run { stage: s, args: a } && a
                == texts(args@) && match stage {
                GitStage::MergeBase => s is MergeBase,
                GitStage::RevParse => s is RevParse,
                GitStage::Diff { base } => s == (Stage::Diff { base: base@ }),
            },
            GitAction::Done { files } => action@ matches Action::Done { files: f } && f
                == parsed_view(files),
        },
{
}

/// The pattern for a hunk asks for what a hunk header is made of: `@@ -` and anything,
/// then behind ` +` a number, which is its group, perhaps a comma and another number,
/// and ` @@`. A number is any run of digits.
pub proof fn hunk_pattern_asks_for_a_header()
    ensures
        ({
            let anything = ".*"@;
            let number = r"\d+"@;
            hunk_pattern() == "@@ -"@ + anything + r" \+"@ + "("@ + number + ")"@ + "(?:,"@ + number
                + ")?"@ + " @@"@
        }),
{
    reveal_strlit(r"@@ -.* \+(\d+)(?:,\d+)? @@");
    reveal_strlit("@@ -");
    reveal_strlit(".*");
    reveal_strlit(r"\d+");
    reveal_strlit(r" \+");
    reveal_strlit("(");
    reveal_strlit(")");
    reveal_strlit("(?:,");
    reveal_strlit(")?");
    reveal_strlit(" @@");
    assert(hunk_pattern() =~= "@@ -"@ + ".*"@ + r" \+"@ + "("@ + r"\d+"@ + ")"@ + "(?:,"@ + r"\d+"@
        + ")?"@ + " @@"@);
}

/// The pattern for a header asks for two paths: `a/` and `b/`, each behind a quote or
/// white space, and what lies between them, which is its group.
pub proof fn header_pattern_asks_for_two_paths()
    ensures
        ({
            let edge = r#"["\s]"#@;
            header_pattern() == "(?:"@ + edge + "a/)"@ + "(.*)"@ + "(?:"@ + edge + "b/)"@
        }),
{
    reveal_strlit(r#"(?:["\s]a/)(.*)(?:["\s]b/)"#);
    reveal_strlit(r#"["\s]"#);
    reveal_strlit("(?:");
    reveal_strlit("a/)");
    reveal_strlit("(.*)");
    reveal_strlit("b/)");
    let edge = r#"["\s]"#@;
    assert(header_pattern() =~= "(?:"@ + edge + "a/)"@ + "(.*)"@ + "(?:"@ + edge + "b/)"@);
}

/// A pattern that is rejected is the error, the one for headers first; else every diff
/// is read.
pub proof fn rejected_patterns_are_the_error(diff: Seq<char>)
    ensures
        regex_rejection(header_pattern()) matches Some(e) ==> parsed(diff) == Err::<
            Seq<FileChange>,
            ErrorView,
        >(ErrorView::Parse("Invalid file regex: "@ + e)),
        regex_rejection(header_pattern()) is None && regex_rejection(hunk_pattern()) is Some
            ==> parsed(diff) == Err::<Seq<FileChange>, ErrorView>(
            ErrorView::Parse("Invalid line regex: "@ + regex_rejection(hunk_pattern())->Some_0),
        ),
        parsed(diff) is Ok <==> regex_rejection(header_pattern()) is None && regex_rejection(
            hunk_pattern(),
        ) is None,
{
}

} // verus!
