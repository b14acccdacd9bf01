//! How module specifiers resolve: the options for the resolver, and the plain
//! rule for relative specifiers that takes over where the resolver fails.

use crate::path::{components, is_absolute, join, joined, tail_text, FilePath, PathView};
use crate::text::{
    begins_with, chars_of, concat, ends_with, finishes_with, has_text, starts_with, string_between,
    texts,
};
use crate::types::{optional_text, Project};
use vstd::prelude::*;

verus! {

/// `s` without its last `n` characters.
pub open spec fn without_end(s: Seq<char>, n: nat) -> Seq<char> {
    s.take(s.len() - n)
}

/// The TypeScript files that an import of a `.js` or `.jsx` file may mean.
pub open spec fn remapped(context: Seq<char>, specifier: Seq<char>) -> Seq<Seq<char>> {
    if ends_with(specifier, ".js"@) {
        let stem = joined(context, without_end(specifier, 3));
        seq![stem + ".ts"@, stem + ".tsx"@]
    } else if ends_with(specifier, ".jsx"@) {
        seq![joined(context, without_end(specifier, 4)) + ".tsx"@]
    } else {
        seq![]
    }
}

/// The source files that a path without an extension may mean: with an
/// extension added, or as a directory with an index file.
pub open spec fn extended(base: Seq<char>) -> Seq<Seq<char>> {
    seq![
        base + ".ts"@,
        base + ".tsx"@,
        base + ".js"@,
        base + ".jsx"@,
        joined(base, "index.ts"@),
        joined(base, "index.tsx"@),
        joined(base, "index.js"@),
        joined(base, "index.jsx"@),
    ]
}

/// The files that a relative specifier in the directory `context` may mean, in
/// the order in which they are tried. Other specifiers mean none.
pub open spec fn candidates(context: Seq<char>, specifier: Seq<char>) -> Seq<Seq<char>> {
    if starts_with(specifier, "."@) {
        remapped(context, specifier) + extended(joined(context, specifier))
    } else {
        seq![]
    }
}

/// Where to look for each of the candidates.
pub open spec fn probes(cwd: Seq<char>, candidates: Seq<Seq<char>>) -> Seq<Seq<char>> {
    candidates.map_values(|c: Seq<char>| joined(cwd, c))
}

/// Whether a candidate exists and lies below `cwd`.
pub open spec fn is_hit(
    cwd: Seq<char>,
    candidate: Seq<char>,
    existing: Seq<Seq<char>>,
) -> bool {
    existing.contains(joined(cwd, candidate)) && components(cwd).is_prefix_of(components(candidate))
}

/// A candidate seen from `cwd`: the rest of its text.
pub open spec fn seen_from(cwd: Seq<char>, candidate: Seq<char>) -> PathView {
    let n = components(cwd).len();
    PathView { text: tail_text(candidate, n), parts: components(candidate).skip(n as int) }
}

/// The first hit among the candidates, seen from `cwd`.
pub open spec fn first_hit(
    cwd: Seq<char>,
    candidates: Seq<Seq<char>>,
    existing: Seq<Seq<char>>,
) -> Option<PathView>
    decreases candidates.len(),
{
    if candidates.len() == 0 {
        None
    } else if is_hit(cwd, candidates[0], existing) {
        Some(seen_from(cwd, candidates[0]))
    } else {
        first_hit(cwd, candidates.drop_first(), existing)
    }
}

/// `base` followed by each of the suffixes in turn.
fn push_suffixed(r: &mut Vec<String>, base: &str, suffixes: &Vec<&str>)
    ensures
        texts(final(r)@) == texts(old(r)@) + suffixes@.map_values(|s: &str| base@ + s@),
{
    let ghost start = texts(r@);
    let ghost all = suffixes@.map_values(|s: &str| base@ + s@);
    let mut i: usize = 0;
    proof {
        assert(start + all.take(0) =~= start);
    }
    while i < suffixes.len()
        invariant
            i <= suffixes@.len(),
            all == suffixes@.map_values(|s: &str| base@ + s@),
            texts(r@) == start + all.take(i as int),
        decreases suffixes@.len() - i,
    {
        let ghost before = r@;
        r.push(concat(base, suffixes[i]));
        proof {
            assert(texts(r@) =~= texts(before).push(base@ + suffixes@[i as int]@));
            assert(start + all.take(i + 1) =~= (start + all.take(i as int)).push(all[i as int]));
        }
        i += 1;
    }
    proof {
        assert(all.take(i as int) =~= all);
    }
}

fn push_joined(r: &mut Vec<String>, base: &str, names: &Vec<&str>)
    ensures
        texts(final(r)@) == texts(old(r)@) + names@.map_values(|s: &str| joined(base@, s@)),
{
    let ghost start = texts(r@);
    let ghost all = names@.map_values(|s: &str| joined(base@, s@));
    let mut i: usize = 0;
    proof {
        assert(start + all.take(0) =~= start);
    }
    while i < names.len()
        invariant
            i <= names@.len(),
            all == names@.map_values(|s: &str| joined(base@, s@)),
            texts(r@) == start + all.take(i as int),
        decreases names@.len() - i,
    {
        let ghost before = r@;
        r.push(join(base, names[i]));
        proof {
            assert(texts(r@) =~= texts(before).push(joined(base@, names@[i as int]@)));
            assert(start + all.take(i + 1) =~= (start + all.take(i as int)).push(all[i as int]));
        }
        i += 1;
    }
    proof {
        assert(all.take(i as int) =~= all);
    }
}

/// The files that a specifier in the directory `context` may mean.
pub fn relative_candidates(context: &str, specifier: &str) -> (r: Vec<String>)
    ensures
        texts(r@) == candidates(context@, specifier@),
{
    let mut r: Vec<String> = Vec::new();
    let v = chars_of(specifier);
    proof {
        assert(texts(r@) =~= seq![]);
    }
    if !begins_with(&v, &chars_of(".")) {
        return r;
    }
    let js = chars_of(".js");
    let jsx = chars_of(".jsx");
    proof {
        reveal_strlit(".js");
        reveal_strlit(".jsx");
    }
    if finishes_with(&v, &js) {
        let stem = join(context, string_between(&v, 0, v.len() - 3).as_str());
        proof {
            assert(v@.subrange(0, v@.len() - 3) =~= without_end(specifier@, 3));
        }
        push_suffixed(&mut r, stem.as_str(), &vec![".ts", ".tsx"]);
    } else if finishes_with(&v, &jsx) {
        let stem = join(context, string_between(&v, 0, v.len() - 4).as_str());
        proof {
            assert(v@.subrange(0, v@.len() - 4) =~= without_end(specifier@, 4));
        }
        push_suffixed(&mut r, stem.as_str(), &vec![".tsx"]);
    }
    proof {
        assert(texts(r@) =~= remapped(context@, specifier@));
    }
    let base = join(context, specifier);
    push_suffixed(&mut r, base.as_str(), &vec![".ts", ".tsx", ".js", ".jsx"]);
    push_joined(&mut r, base.as_str(), &vec!["index.ts", "index.tsx", "index.js", "index.jsx"]);
    proof {
        assert(texts(r@) =~= candidates(context@, specifier@));
    }
    r
}

/// The paths whose existence decides what a relative specifier means.
pub fn relative_probes(cwd: &FilePath, context: &FilePath, specifier: &str) -> (r: Vec<String>)
    ensures
        texts(r@) == probes(cwd.text(), candidates(context.text(), specifier@)),
{
    let all = relative_candidates(context.as_str(), specifier);
    let ghost wanted = probes(cwd.text(), texts(all@));
    let mut r: Vec<String> = Vec::new();
    let mut i: usize = 0;
    proof {
        assert(texts(r@) =~= wanted.take(0));
    }
    while i < all.len()
        invariant
            i <= all@.len(),
            wanted == probes(cwd.text(), texts(all@)),
            texts(r@) == wanted.take(i as int),
        decreases all@.len() - i,
    {
        let ghost before = r@;
        r.push(join(cwd.as_str(), all[i].as_str()));
        proof {
            assert(texts(r@) =~= texts(before).push(joined(cwd.text(), all@[i as int]@)));
            assert(wanted.take(i + 1) =~= wanted.take(i as int).push(wanted[i as int]));
        }
        i += 1;
    }
    proof {
        assert(wanted.take(i as int) =~= wanted);
    }
    r
}

/// The file that a specifier in the directory `context` means, seen from `cwd`:
/// the first candidate that exists below it. `existing` are those of the probed
/// paths that exist.
pub fn simple_resolve_relative(
    cwd: &FilePath,
    context: &FilePath,
    specifier: &str,
    existing: &Vec<String>,
) -> (r: Option<FilePath>)
    ensures
        match r {
            Some(file) => first_hit(
                cwd.text(),
                candidates(context.text(), specifier@),
                texts(existing@),
            ) == Some(file.full()),
            None => first_hit(
                cwd.text(),
                candidates(context.text(), specifier@),
                texts(existing@),
            ) is None,
        },
{
    let all = relative_candidates(context.as_str(), specifier);
    let base = FilePath::new(cwd.as_str());
    let ghost views = texts(all@);
    let mut i: usize = 0;
    proof {
        assert(views.skip(0) =~= views);
    }
    while i < all.len()
        invariant
            i <= all@.len(),
            views == texts(all@),
            views == candidates(context.text(), specifier@),
            base@ == components(cwd.text()),
            first_hit(cwd.text(), views, texts(existing@)) == first_hit(
                cwd.text(),
                views.skip(i as int),
                texts(existing@),
            ),
        decreases all@.len() - i,
    {
        let candidate = all[i].as_str();
        proof {
            assert(views.skip(i as int)[0] == candidate@);
            assert(views.skip(i as int).drop_first() =~= views.skip(i + 1));
        }
        if has_text(existing, join(cwd.as_str(), candidate).as_str()) {
            if let Some(rest) = FilePath::new(candidate).strip_prefix(&base) {
                proof {
                    assert(rest@ =~= components(candidate@).skip(base@.len() as int));
                    assert(rest.full() == seen_from(cwd.text(), candidate@));
                    assert(base@.is_prefix_of(components(candidate@)));
                }
                return Some(rest);
            }
        }
        i += 1;
    }
    None
}

/// A specifier that does not start with a dot is left to the resolver.
pub proof fn bare_specifiers_do_not_resolve(
    cwd: Seq<char>,
    context: Seq<char>,
    specifier: Seq<char>,
    existing: Seq<Seq<char>>,
)
    requires
        !starts_with(specifier, "."@),
    ensures
        first_hit(cwd, candidates(context, specifier), existing) is None,
{
}

/// A specifier resolves exactly where a candidate exists below `cwd`; then it is
/// the first such candidate, and joined to `cwd` the result names it again.
pub proof fn resolution_is_the_first_hit(
    cwd: Seq<char>,
    files: Seq<Seq<char>>,
    existing: Seq<Seq<char>>,
)
    ensures
        match first_hit(cwd, files, existing) {
            Some(file) => exists|i: int|
                0 <= i < files.len() && components(#[trigger] files[i]) == components(cwd)
                    + file.parts && file == seen_from(cwd, files[i])
                    && existing.contains(joined(cwd, files[i])) && forall|j: int|
                    0 <= j < i ==> !is_hit(cwd, #[trigger] files[j], existing),
            None => forall|i: int|
                0 <= i < files.len() ==> !is_hit(cwd, #[trigger] files[i], existing),
        },
    decreases files.len(),
{
    if files.len() > 0 {
        let rest = files.drop_first();
        if is_hit(cwd, files[0], existing) {
            let file = seen_from(cwd, files[0]);
            assert(components(files[0]) =~= components(cwd) + file.parts);
        } else {
            resolution_is_the_first_hit(cwd, rest, existing);
            match first_hit(cwd, rest, existing) {
                Some(file) => {
                    let i = choose|i: int|
                        0 <= i < rest.len() && components(#[trigger] rest[i]) == components(cwd)
                            + file.parts && file == seen_from(cwd, rest[i]) && existing.contains(
                            joined(cwd, rest[i]),
                        ) && forall|j: int|
                            0 <= j < i ==> !is_hit(cwd, #[trigger] rest[j], existing);
                    assert(files[i + 1] == rest[i]);
                    assert forall|j: int| 0 <= j < i + 1 implies !is_hit(
                        cwd,
                        #[trigger] files[j],
                        existing,
                    ) by {
                        if j > 0 {
                            assert(files[j] == rest[j - 1]);
                        }
                    }
                },
                None => {
                    assert forall|i: int| 0 <= i < files.len() implies !is_hit(
                        cwd,
                        #[trigger] files[i],
                        existing,
                    ) by {
                        if i > 0 {
                            assert(files[i] == rest[i - 1]);
                        }
                    }
                },
            }
        }
    }
}

/// An import of `x.js` means `x.ts` wherever that exists below `cwd`, and else
/// `x.tsx` wherever that does.
pub proof fn js_imports_mean_ts_sources(
    cwd: Seq<char>,
    context: Seq<char>,
    specifier: Seq<char>,
    existing: Seq<Seq<char>>,
)
    requires
        starts_with(specifier, "."@),
        ends_with(specifier, ".js"@),
    ensures
        ({
            let stem = joined(context, without_end(specifier, 3));
            let found = first_hit(cwd, candidates(context, specifier), existing);
            &&& is_hit(cwd, stem + ".ts"@, existing) ==> found == Some(
                seen_from(cwd, stem + ".ts"@),
            )
            &&& !is_hit(cwd, stem + ".ts"@, existing) && is_hit(cwd, stem + ".tsx"@, existing)
                ==> found == Some(seen_from(cwd, stem + ".tsx"@))
        }),
{
    reveal_with_fuel(first_hit, 3);
    let all = candidates(context, specifier);
    assert(all[0] == joined(context, without_end(specifier, 3)) + ".ts"@);
    assert(all.drop_first()[0] == joined(context, without_end(specifier, 3)) + ".tsx"@);
}

/// An import of `x.jsx` means `x.tsx` wherever that exists below `cwd`.
pub proof fn jsx_imports_mean_tsx_sources(
    cwd: Seq<char>,
    context: Seq<char>,
    specifier: Seq<char>,
    existing: Seq<Seq<char>>,
)
    requires
        starts_with(specifier, "."@),
        ends_with(specifier, ".jsx"@),
        is_hit(cwd, joined(context, without_end(specifier, 4)) + ".tsx"@, existing),
    ensures
        first_hit(cwd, candidates(context, specifier), existing) == Some(
            seen_from(cwd, joined(context, without_end(specifier, 4)) + ".tsx"@),
        ),
{
    reveal_strlit(".js");
    reveal_strlit(".jsx");
    let n = specifier.len();
    assert(!ends_with(specifier, ".js"@)) by {
        if ends_with(specifier, ".js"@) {
            assert(specifier.subrange(n - 3, n as int)[2] == 's');
            assert(specifier.subrange(n - 4, n as int)[3] == 'x');
        }
    }
    let all = candidates(context, specifier);
    assert(all[0] == joined(context, without_end(specifier, 4)) + ".tsx"@);
}

/// The tsconfig file that the resolver reads.
#[derive(Debug, Clone)]
pub struct TsconfigOptions {
    /// Its path
    pub config_file: String,
    /// Whether its project references are followed
    pub follow_references: bool,
}

/// The configuration of the resolver, as far as it differs from its defaults.
#[derive(Debug, Clone)]
pub struct ResolveOptions {
    /// The extensions to try, in order
    pub extensions: Vec<String>,
    /// The extensions to try in place of the one that a specifier has
    pub extension_alias: Vec<(String, Vec<String>)>,
    /// The paths that package names stand for
    pub alias: Vec<(String, Vec<String>)>,
    /// The conditions of `exports` fields that hold
    pub condition_names: Vec<String>,
    /// The fields of a package manifest that name its entry point
    pub main_fields: Vec<String>,
    /// The file names that stand for their directory
    pub main_files: Vec<String>,
    /// The tsconfig file to read, if there is one
    pub tsconfig: Option<TsconfigOptions>,
}

/// The contents of a list of names with texts for each.
pub open spec fn entries(v: Seq<(String, Vec<String>)>) -> Seq<(Seq<char>, Seq<Seq<char>>)> {
    v.map_values(|e: (String, Vec<String>)| (e.0@, texts(e.1@)))
}

/// Whether the last component of a path is `src`.
pub open spec fn ends_in_src(path: Seq<char>) -> bool {
    components(path).len() > 0 && components(path).last() == "src"@
}

/// Where the sources of a project lie: in the `src` directory of its root where
/// there is one, else in the root. A root that is such a directory is kept.
pub open spec fn source_dir(
    cwd: Seq<char>,
    root: Seq<char>,
    directories: Seq<Seq<char>>,
) -> Seq<char> {
    let base = joined(cwd, root);
    if !ends_in_src(base) && directories.contains(joined(base, "src"@)) {
        joined(base, "src"@)
    } else {
        base
    }
}

/// The alias of each project: its name stands for its sources.
pub open spec fn project_aliases(
    cwd: Seq<char>,
    projects: Seq<Project>,
    directories: Seq<Seq<char>>,
) -> Seq<(Seq<char>, Seq<Seq<char>>)> {
    projects.map_values(
        |p: Project| (p.name@, seq![source_dir(cwd, p.source_root.text(), directories)]),
    )
}

/// Whether these are the options for a workspace.
pub open spec fn options_for(
    r: ResolveOptions,
    cwd: Seq<char>,
    projects: Seq<Project>,
    directories: Seq<Seq<char>>,
    has_tsconfig: bool,
) -> bool {
    &&& texts(r.extensions@) == seq![".ts"@, ".tsx"@, ".js"@, ".jsx"@, ".d.ts"@]
    &&& entries(r.extension_alias@) == seq![
        (".js"@, seq![".ts"@, ".tsx"@, ".js"@]),
        (".jsx"@, seq![".tsx"@, ".jsx"@]),
    ]
    &&& entries(r.alias@) == project_aliases(cwd, projects, directories)
    &&& texts(r.condition_names@) == seq!["import"@, "require"@, "types"@, "default"@]
    &&& texts(r.main_fields@) == seq!["main"@, "module"@, "types"@]
    &&& texts(r.main_files@) == seq!["index"@]
    &&& match r.tsconfig {
        Some(tsconfig) => has_tsconfig && tsconfig.follow_references && tsconfig.config_file@
            == joined(cwd, "tsconfig.base.json"@),
        None => !has_tsconfig,
    }
}

/// The strings of a list of literals.
fn strings(v: &Vec<&str>) -> (r: Vec<String>)
    ensures
        texts(r@) == v@.map_values(|s: &str| s@),
{
    let ghost all = v@.map_values(|s: &str| s@);
    let mut r: Vec<String> = Vec::new();
    let mut i: usize = 0;
    proof {
        assert(texts(r@) =~= all.take(0));
    }
    while i < v.len()
        invariant
            i <= v@.len(),
            all == v@.map_values(|s: &str| s@),
            texts(r@) == all.take(i as int),
        decreases v@.len() - i,
    {
        let ghost before = r@;
        r.push(v[i].to_owned());
        proof {
            assert(texts(r@) =~= texts(before).push(v@[i as int]@));
            assert(all.take(i + 1) =~= all.take(i as int).push(all[i as int]));
        }
        i += 1;
    }
    proof {
        assert(all.take(i as int) =~= all);
    }
    r
}

/// The directory whose existence decides where the sources of a project lie.
pub fn source_probe(cwd: &FilePath, project: &Project) -> (r: String)
    ensures
        r@ == joined(joined(cwd.text(), project.source_root.text()), "src"@),
{
    join(join(cwd.as_str(), project.source_root.as_str()).as_str(), "src")
}

/// The file whose existence decides whether the options name a tsconfig.
pub fn tsconfig_probe(cwd: &FilePath) -> (r: String)
    ensures
        r@ == joined(cwd.text(), "tsconfig.base.json"@),
{
    join(cwd.as_str(), "tsconfig.base.json")
}

/// Where the sources of a project lie.
fn find_source_dir(cwd: &FilePath, project: &Project, directories: &Vec<String>) -> (r: String)
    ensures
        r@ == source_dir(cwd.text(), project.source_root.text(), texts(directories@)),
{
    let base = join(cwd.as_str(), project.source_root.as_str());
    let probe = source_probe(cwd, project);
    if !FilePath::new(base.as_str()).ends_with_name("src") && has_text(
        directories,
        probe.as_str(),
    ) {
        probe
    } else {
        base
    }
}

/// The options for the resolver. Imports of a project by its name resolve to its
/// sources, not to what its manifest says was built. `directories` are those of
/// the probed source directories that exist.
pub fn create_resolve_options(
    cwd: &FilePath,
    projects: &Vec<Project>,
    directories: &Vec<String>,
    has_tsconfig: bool,
) -> (r: ResolveOptions)
    ensures
        options_for(r, cwd.text(), projects@, texts(directories@), has_tsconfig),
{
    let ghost wanted = project_aliases(cwd.text(), projects@, texts(directories@));
    let mut alias: Vec<(String, Vec<String>)> = Vec::new();
    let mut i: usize = 0;
    proof {
        assert(entries(alias@) =~= wanted.take(0));
    }
    while i < projects.len()
        invariant
            i <= projects@.len(),
            wanted == project_aliases(cwd.text(), projects@, texts(directories@)),
            entries(alias@) == wanted.take(i as int),
        decreases projects@.len() - i,
    {
        let ghost before = alias@;
        let mut targets: Vec<String> = Vec::new();
        targets.push(find_source_dir(cwd, &projects[i], directories));
        proof {
            assert(texts(targets@) =~= seq![targets@[0]@]);
        }
        alias.push((projects[i].name.clone(), targets));
        proof {
            assert(entries(alias@) =~= entries(before).push(wanted[i as int]));
            assert(wanted.take(i + 1) =~= wanted.take(i as int).push(wanted[i as int]));
        }
        i += 1;
    }
    proof {
        assert(wanted.take(i as int) =~= wanted);
    }
    let mut extension_alias: Vec<(String, Vec<String>)> = Vec::new();
    extension_alias.push((".js".to_owned(), strings(&vec![".ts", ".tsx", ".js"])));
    extension_alias.push((".jsx".to_owned(), strings(&vec![".tsx", ".jsx"])));
    let r = ResolveOptions {
        extensions: strings(&vec![".ts", ".tsx", ".js", ".jsx", ".d.ts"]),
        extension_alias,
        alias,
        condition_names: strings(&vec!["import", "require", "types", "default"]),
        main_fields: strings(&vec!["main", "module", "types"]),
        main_files: strings(&vec!["index"]),
        tsconfig: if has_tsconfig {
            Some(TsconfigOptions { config_file: tsconfig_probe(cwd), follow_references: true })
        } else {
            None
        },
    };
    proof {
        assert(texts(r.extensions@) =~= seq![".ts"@, ".tsx"@, ".js"@, ".jsx"@, ".d.ts"@]);
        assert(texts(r.extension_alias@[0].1@) =~= seq![".ts"@, ".tsx"@, ".js"@]);
        assert(texts(r.extension_alias@[1].1@) =~= seq![".tsx"@, ".jsx"@]);
        assert(entries(r.extension_alias@) =~= seq![
            (".js"@, seq![".ts"@, ".tsx"@, ".js"@]),
            (".jsx"@, seq![".tsx"@, ".jsx"@]),
        ]);
        assert(texts(r.condition_names@) =~= seq!["import"@, "require"@, "types"@, "default"@]);
        assert(texts(r.main_fields@) =~= seq!["main"@, "module"@, "types"@]);
        assert(texts(r.main_files@) =~= seq!["index"@]);
    }
    r
}

/// The first target of the first alias for `name`.
pub open spec fn first_target(
    alias: Seq<(Seq<char>, Seq<Seq<char>>)>,
    name: Seq<char>,
) -> Option<Seq<char>>
    decreases alias.len(),
{
    if alias.len() == 0 {
        None
    } else if alias[0].0 == name && alias[0].1.len() > 0 {
        Some(alias[0].1[0])
    } else {
        first_target(alias.drop_first(), name)
    }
}

/// What a package name stands for.
pub fn alias_target(options: &ResolveOptions, name: &str) -> (r: Option<String>)
    ensures
        optional_text(r) == first_target(entries(options.alias@), name@),
{
    let wanted = name.to_owned();
    let ghost all = entries(options.alias@);
    let mut i: usize = 0;
    proof {
        assert(all.skip(0) =~= all);
    }
    while i < options.alias.len()
        invariant
            i <= options.alias@.len(),
            wanted@ == name@,
            all == entries(options.alias@),
            first_target(all, name@) == first_target(all.skip(i as int), name@),
        decreases options.alias@.len() - i,
    {
        let entry = &options.alias[i];
        proof {
            assert(all.skip(i as int)[0] == (entry.0@, texts(entry.1@)));
            assert(all.skip(i as int).drop_first() =~= all.skip(i + 1));
        }
        if entry.0 == wanted && entry.1.len() > 0 {
            return Some(entry.1[0].clone());
        }
        i += 1;
    }
    None
}

/// A project whose name no earlier one has stands for its own sources.
pub proof fn projects_stand_for_their_sources(
    options: ResolveOptions,
    cwd: Seq<char>,
    projects: Seq<Project>,
    directories: Seq<Seq<char>>,
    has_tsconfig: bool,
    i: int,
)
    requires
        options_for(options, cwd, projects, directories, has_tsconfig),
        0 <= i < projects.len(),
        forall|j: int| 0 <= j < i ==> (#[trigger] projects[j]).name@ != projects[i].name@,
    ensures
        first_target(entries(options.alias@), projects[i].name@) == Some(
            source_dir(cwd, projects[i].source_root.text(), directories),
        ),
{
    let all = project_aliases(cwd, projects, directories);
    let name = projects[i].name@;
    lemma_first_target(all, name, i);
}

proof fn lemma_first_target(alias: Seq<(Seq<char>, Seq<Seq<char>>)>, name: Seq<char>, i: int)
    requires
        0 <= i < alias.len(),
        alias[i].0 == name,
        alias[i].1.len() > 0,
        forall|j: int| 0 <= j < i ==> (#[trigger] alias[j]).0 != name,
    ensures
        first_target(alias, name) == Some(alias[i].1[0]),
    decreases i,
{
    if i > 0 {
        let rest = alias.drop_first();
        assert(alias[0].0 != name);
        assert forall|j: int| 0 <= j < i - 1 implies (#[trigger] rest[j]).0 != name by {
            assert(rest[j] == alias[j + 1]);
        }
        assert(rest[i - 1] == alias[i]);
        lemma_first_target(rest, name, i - 1);
    }
}

/// The sources of a project lie in its root or in a `src` directory there that
/// exists; a root that is a `src` directory is kept as it is, so `src` is never
/// doubled.
pub proof fn src_is_not_doubled(cwd: Seq<char>, root: Seq<char>, directories: Seq<Seq<char>>)
    ensures
        ({
            let base = joined(cwd, root);
            let found = source_dir(cwd, root, directories);
            &&& ends_in_src(base) ==> found == base
            &&& found != base ==> !ends_in_src(base) && found == joined(base, "src"@)
                && directories.contains(found)
        }),
{
}

/// An absolute root is taken as it is, wherever the workspace lies.
pub proof fn absolute_roots_are_kept(cwd: Seq<char>, root: Seq<char>, directories: Seq<Seq<char>>)
    requires
        is_absolute(root),
        ends_in_src(root) || !directories.contains(joined(root, "src"@)),
    ensures
        source_dir(cwd, root, directories) == root,
{
}

/// A `src` directory that exists in the root of a project holds its sources, unless
/// the root itself is named `src`. Where there is none, the root does.
pub proof fn existing_src_holds_the_sources(
    cwd: Seq<char>,
    root: Seq<char>,
    directories: Seq<Seq<char>>,
)
    ensures
        ({
            let base = joined(cwd, root);
            let parts = components(base);
            let named_src = parts.len() > 0 && parts[parts.len() - 1] == "src"@;
            &&& !named_src && directories.contains(joined(base, "src"@)) ==> source_dir(
                cwd,
                root,
                directories,
            ) == joined(base, "src"@)
            &&& named_src || !directories.contains(joined(base, "src"@)) ==> source_dir(
                cwd,
                root,
                directories,
            ) == base
        }),
{
}

/// A project whose name no earlier one has stands for the `src` directory of its root
/// where that exists and the root is not named so itself, else for its root. A name
/// that no project has stands for nothing.
pub proof fn project_names_stand_for_directories(
    options: ResolveOptions,
    cwd: Seq<char>,
    projects: Seq<Project>,
    directories: Seq<Seq<char>>,
    has_tsconfig: bool,
    name: Seq<char>,
)
    requires
        options_for(options, cwd, projects, directories, has_tsconfig),
    ensures
        forall|i: int|
            0 <= i < projects.len() && (#[trigger] projects[i]).name@ == name && (forall|j: int|
                0 <= j < i ==> (#[trigger] projects[j]).name@ != name) ==> ({
                let base = joined(cwd, projects[i].source_root.text());
                let parts = components(base);
                let found = if (parts.len() == 0 || parts[parts.len() - 1] != "src"@)
                    && directories.contains(joined(base, "src"@)) {
                    joined(base, "src"@)
                } else {
                    base
                };
                first_target(entries(options.alias@), name) == Some(found)
            }),
        (forall|i: int| 0 <= i < projects.len() ==> (#[trigger] projects[i]).name@ != name)
            ==> first_target(entries(options.alias@), name) is None,
{
    let all = project_aliases(cwd, projects, directories);
    assert forall|i: int|
        0 <= i < projects.len() && (#[trigger] projects[i]).name@ == name && (forall|j: int|
            0 <= j < i ==> (#[trigger] projects[j]).name@ != name) implies first_target(
        all,
        name,
    ) == Some(source_dir(cwd, projects[i].source_root.text(), directories)) by {
        projects_stand_for_their_sources(options, cwd, projects, directories, has_tsconfig, i);
    }
    if forall|i: int| 0 <= i < projects.len() ==> (#[trigger] projects[i]).name@ != name {
        assert forall|i: int| 0 <= i < all.len() implies (#[trigger] all[i]).0 != name by {
            assert(projects[i].name@ != name);
        }
        lemma_no_target(all, name);
    }
}

proof fn lemma_no_target(alias: Seq<(Seq<char>, Seq<Seq<char>>)>, name: Seq<char>)
    requires
        forall|i: int| 0 <= i < alias.len() ==> (#[trigger] alias[i]).0 != name,
    ensures
        first_target(alias, name) is None,
    decreases alias.len(),
{
    if alias.len() > 0 {
        let rest = alias.drop_first();
        assert(alias[0].0 != name);
        assert forall|i: int| 0 <= i < rest.len() implies (#[trigger] rest[i]).0 != name by {
            assert(rest[i] == alias[i + 1]);
        }
        lemma_no_target(rest, name);
    }
}

/// The resolver is given TypeScript files first, reads source files for `.js` and
/// `.jsx`, one alias for each project in order, and the base tsconfig with its
/// references where there is one.
pub proof fn options_prefer_sources(
    r: ResolveOptions,
    cwd: Seq<char>,
    projects: Seq<Project>,
    directories: Seq<Seq<char>>,
    has_tsconfig: bool,
)
    requires
        options_for(r, cwd, projects, directories, has_tsconfig),
    ensures
        texts(r.extensions@) == seq![".ts"@, ".tsx"@, ".js"@, ".jsx"@, ".d.ts"@],
        entries(r.extension_alias@) == seq![
            (".js"@, seq![".ts"@, ".tsx"@, ".js"@]),
            (".jsx"@, seq![".tsx"@, ".jsx"@]),
        ],
        texts(r.condition_names@) == seq!["import"@, "require"@, "types"@, "default"@],
        texts(r.main_fields@) == seq!["main"@, "module"@, "types"@],
        texts(r.main_files@) == seq!["index"@],
        r.tsconfig is Some <==> has_tsconfig,
        r.tsconfig matches Some(tsconfig) ==> tsconfig.follow_references && tsconfig.config_file@
            == joined(cwd, "tsconfig.base.json"@),
        r.alias@.len() == projects.len(),
        forall|i: int|
            0 <= i < projects.len() ==> (#[trigger] r.alias@[i]).0@ == projects[i].name@
                && r.alias@[i].1@.len() == 1,
{
    assert(entries(r.alias@).len() == r.alias@.len());
    assert forall|i: int| 0 <= i < projects.len() implies (#[trigger] r.alias@[i]).0@
        == projects[i].name@ && r.alias@[i].1@.len() == 1 by {
        let entry = entries(r.alias@)[i];
        assert(entry == (r.alias@[i].0@, texts(r.alias@[i].1@)));
        assert(entry.1.len() == r.alias@[i].1@.len());
    }
}

/// A relative specifier may mean a TypeScript file in place of a `.js` or `.jsx` file,
/// and then a file with an extension added, or the index file of a directory, in this
/// order.
pub proof fn relative_specifier_may_mean(context: Seq<char>, stem: Seq<char>, specifier: Seq<char>)
    ensures
        ({
            let base = joined(context, specifier);
            let plain = seq![
                base + ".ts"@,
                base + ".tsx"@,
                base + ".js"@,
                base + ".jsx"@,
                joined(base, "index.ts"@),
                joined(base, "index.tsx"@),
                joined(base, "index.js"@),
                joined(base, "index.jsx"@),
            ];
            &&& (specifier.len() == 0 || specifier[0] != '.') ==> candidates(
                context,
                specifier,
            ).len() == 0
            &&& specifier.len() > 0 && specifier[0] == '.' && specifier == stem + ".js"@
                ==> candidates(context, specifier) == seq![
                joined(context, stem) + ".ts"@,
                joined(context, stem) + ".tsx"@,
            ] + plain
            &&& specifier.len() > 0 && specifier[0] == '.' && specifier == stem + ".jsx"@
                ==> candidates(context, specifier) == seq![joined(context, stem) + ".tsx"@] + plain
            &&& specifier.len() > 0 && specifier[0] == '.' && !ends_with(specifier, ".js"@)
                && !ends_with(specifier, ".jsx"@) ==> candidates(context, specifier) == plain
        }),
{
    reveal_strlit(".");
    reveal_strlit(".js");
    reveal_strlit(".jsx");
    let n = specifier.len() as int;
    let dot = "."@;
    assert(starts_with(specifier, dot) <==> n > 0 && specifier[0] == '.') by {
        if n > 0 {
            let first = specifier.subrange(0, 1);
            assert(first[0] == specifier[0]);
            assert(dot[0] == '.');
            if specifier[0] == '.' {
                assert(first =~= dot);
            }
        }
    }
    let base = joined(context, specifier);
    if specifier == stem + ".js"@ {
        assert(specifier.subrange(n - 3, n) =~= ".js"@);
        assert(without_end(specifier, 3) =~= stem);
    }
    if specifier == stem + ".jsx"@ {
        assert(specifier.subrange(n - 4, n) =~= ".jsx"@);
        assert(without_end(specifier, 4) =~= stem);
        assert(!ends_with(specifier, ".js"@)) by {
            if ends_with(specifier, ".js"@) {
                assert(specifier.subrange(n - 3, n)[2] == specifier[n - 1]);
                assert(specifier[n - 1] == 'x');
            }
        }
    }
    assert(Seq::<Seq<char>>::empty() + extended(base) =~= extended(base));
}

/// A specifier resolves to the first of the files it may mean that exists and lies
/// below `cwd`; it is named by what comes behind `cwd`, as spelled. Where there is no
/// such file it does not resolve.
pub proof fn resolution_finds_what_exists(
    cwd: Seq<char>,
    files: Seq<Seq<char>>,
    existing: Seq<Seq<char>>,
)
    ensures
        forall|i: int, rest: Seq<Seq<char>>|
            #![trigger files[i], components(cwd) + rest]
            0 <= i < files.len() && existing.contains(joined(cwd, files[i])) && components(files[i])
                == components(cwd) + rest && (forall|j: int|
                0 <= j < i ==> !existing.contains(joined(cwd, #[trigger] files[j]))
                    || !components(cwd).is_prefix_of(components(files[j]))) ==> first_hit(
                cwd,
                files,
                existing,
            ) == Some(
                PathView { text: tail_text(files[i], components(cwd).len()), parts: rest },
            ),
        (forall|i: int|
            0 <= i < files.len() ==> !existing.contains(joined(cwd, #[trigger] files[i]))
                || !components(cwd).is_prefix_of(components(files[i]))) ==> first_hit(
            cwd,
            files,
            existing,
        ) is None,
{
    resolution_is_the_first_hit(cwd, files, existing);
    let base = components(cwd);
    assert forall|i: int, rest: Seq<Seq<char>>|
        #![trigger files[i], components(cwd) + rest]
        0 <= i < files.len() && existing.contains(joined(cwd, files[i])) && components(files[i])
            == components(cwd) + rest && (forall|j: int|
            0 <= j < i ==> !existing.contains(joined(cwd, #[trigger] files[j]))
                || !base.is_prefix_of(components(files[j]))) implies first_hit(cwd, files, existing)
        == Some(PathView { text: tail_text(files[i], base.len()), parts: rest }) by {
        let parts = components(files[i]);
        assert(parts.take(base.len() as int) =~= base);
        assert(parts.skip(base.len() as int) =~= rest);
        assert(is_hit(cwd, files[i], existing));
        lemma_first_hit(cwd, files, existing, i);
    }
}

proof fn lemma_first_hit(cwd: Seq<char>, files: Seq<Seq<char>>, existing: Seq<Seq<char>>, i: int)
    requires
        0 <= i < files.len(),
        is_hit(cwd, files[i], existing),
        forall|j: int| 0 <= j < i ==> !is_hit(cwd, #[trigger] files[j], existing),
    ensures
        first_hit(cwd, files, existing) == Some(seen_from(cwd, files[i])),
    decreases i,
{
    if i > 0 {
        let rest = files.drop_first();
        assert(!is_hit(cwd, files[0], existing));
        assert forall|j: int| 0 <= j < i - 1 implies !is_hit(cwd, #[trigger] rest[j], existing) by {
            assert(rest[j] == files[j + 1]);
        }
        assert(rest[i - 1] == files[i]);
        lemma_first_hit(cwd, rest, existing, i - 1);
    }
}

/// Each of the files that a specifier may mean is looked for below `cwd`, in order.
pub proof fn candidates_are_looked_for_in_order(cwd: Seq<char>, files: Seq<Seq<char>>)
    ensures
        probes(cwd, files).len() == files.len(),
        forall|i: int|
            0 <= i < files.len() ==> #[trigger] probes(cwd, files)[i] == joined(cwd, files[i]),
{
}

/// A name stands for the first target of the first alias for it that has one.
pub proof fn name_stands_for_its_first_target(
    alias: Seq<(Seq<char>, Seq<Seq<char>>)>,
    name: Seq<char>,
)
    ensures
        forall|i: int|
            0 <= i < alias.len() && (#[trigger] alias[i]).0 == name && alias[i].1.len() > 0 && (
            forall|j: int|
                0 <= j < i ==> (#[trigger] alias[j]).0 != name || alias[j].1.len() == 0)
                ==> first_target(alias, name) == Some(alias[i].1[0]),
        (forall|i: int|
            0 <= i < alias.len() ==> (#[trigger] alias[i]).0 != name || alias[i].1.len() == 0)
            ==> first_target(alias, name) is None,
    decreases alias.len(),
{
    if alias.len() > 0 && (alias[0].0 != name || alias[0].1.len() == 0) {
        let rest = alias.drop_first();
        name_stands_for_its_first_target(rest, name);
        assert forall|i: int| 0 <= i < rest.len() implies #[trigger] rest[i] == alias[i + 1] by {}
        assert forall|i: int|
            0 <= i < alias.len() && (#[trigger] alias[i]).0 == name && alias[i].1.len() > 0 && (
            forall|j: int|
                0 <= j < i ==> (#[trigger] alias[j]).0 != name || alias[j].1.len()
                    == 0) implies first_target(alias, name) == Some(alias[i].1[0]) by {
            assert(i > 0);
            assert(rest[i - 1] == alias[i]);
            assert forall|j: int| 0 <= j < i - 1 implies (#[trigger] rest[j]).0 != name
                || rest[j].1.len() == 0 by {
                assert(rest[j] == alias[j + 1]);
            }
        }
        if forall|i: int|
            0 <= i < alias.len() ==> (#[trigger] alias[i]).0 != name || alias[i].1.len() == 0 {
            assert forall|i: int| 0 <= i < rest.len() implies (#[trigger] rest[i]).0 != name
                || rest[i].1.len() == 0 by {
                assert(rest[i] == alias[i + 1]);
            }
        }
    }
}

/// The contents of a list of entries are those of each, in order.
pub proof fn entries_are_viewed_in_order(v: Seq<(String, Vec<String>)>)
    ensures
        entries(v).len() == v.len(),
        forall|i: int|
            0 <= i < v.len() ==> (#[trigger] entries(v)[i]).0 == v[i].0@ && entries(v)[i].1 == texts(
                v[i].1@,
            ),
{
}

} // verus!
