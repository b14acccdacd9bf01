//! What is known of a workspace: the answers of the semantic analysis, as
//! tables that the traversal of changed symbols looks things up in.

use crate::path::FilePath;
use crate::text::texts;
use crate::types::{optional_text, AssetReference, Export, Import, Reference};
use vstd::prelude::*;

verus! {

/// A place in a file.
#[derive(Debug, Clone, Copy)]
pub struct Position {
    /// Line number (1-indexed)
    pub line: usize,
    /// Column number (0-indexed)
    pub column: usize,
}

/// What is known of a file.
#[derive(Debug)]
pub struct FileFacts {
    /// The file
    pub path: FilePath,
    /// Whether it is source code, as opposed to an asset
    pub is_source: bool,
    /// Whether the semantic analysis covers it
    pub is_analyzed: bool,
    /// The project that it belongs to
    pub owner: Option<String>,
    /// Its imports
    pub imports: Vec<Import>,
    /// Its exports
    pub exports: Vec<Export>,
}

/// The top-level symbols found at a place, or why they could not be found.
#[derive(Debug)]
pub struct NodeFacts {
    /// The file
    pub file: FilePath,
    /// The place in it
    pub position: Position,
    /// The symbols there
    pub symbols: Result<Vec<String>, String>,
}

/// What is known of a top-level symbol. A query that failed holds the reason.
#[derive(Debug)]
pub struct SymbolFacts {
    /// The file that declares it
    pub file: FilePath,
    /// Its name there
    pub name: String,
    /// Whether the file exports it
    pub is_exported: bool,
    /// Where the same file refers to it
    pub local_references: Result<Vec<Position>, String>,
    /// Where other files refer to it
    pub cross_file_references: Result<Vec<Reference>, String>,
    /// The exported symbols of the same file that use it
    pub exported_users: Result<Vec<String>, String>,
}

/// The references to an asset, or why they could not be found.
#[derive(Debug)]
pub struct AssetFacts {
    /// The asset
    pub path: FilePath,
    /// The source files that refer to it
    pub references: Result<Vec<AssetReference>, String>,
}

/// The facts about a workspace. The first row about a subject counts. A file
/// without a row is an asset outside every project; a place, a symbol or an
/// asset without a row has nothing found at it.
#[derive(Debug)]
pub struct WorkspaceIndex {
    pub files: Vec<FileFacts>,
    pub nodes: Vec<NodeFacts>,
    pub symbols: Vec<SymbolFacts>,
    pub assets: Vec<AssetFacts>,
}

/// The outcome of a query for names.
pub open spec fn names_view(r: Result<Vec<String>, String>) -> Result<Seq<Seq<char>>, Seq<char>> {
    match r {
        Ok(v) => Ok(texts(v@)),
        Err(e) => Err(e@),
    }
}

/// The first row about the file `path`.
pub open spec fn file_row(rows: Seq<FileFacts>, path: Seq<Seq<char>>) -> Option<FileFacts>
    decreases rows.len(),
{
    if rows.len() == 0 {
        None
    } else if rows[0].path@ == path {
        Some(rows[0])
    } else {
        file_row(rows.drop_first(), path)
    }
}

/// The first row about a place.
pub open spec fn node_row(
    rows: Seq<NodeFacts>,
    file: Seq<Seq<char>>,
    line: usize,
    column: usize,
) -> Option<NodeFacts>
    decreases rows.len(),
{
    if rows.len() == 0 {
        None
    } else if rows[0].file@ == file && rows[0].position.line == line && rows[0].position.column
        == column {
        Some(rows[0])
    } else {
        node_row(rows.drop_first(), file, line, column)
    }
}

/// The first row about a symbol.
pub open spec fn symbol_row(
    rows: Seq<SymbolFacts>,
    file: Seq<Seq<char>>,
    name: Seq<char>,
) -> Option<SymbolFacts>
    decreases rows.len(),
{
    if rows.len() == 0 {
        None
    } else if rows[0].file@ == file && rows[0].name@ == name {
        Some(rows[0])
    } else {
        symbol_row(rows.drop_first(), file, name)
    }
}

/// The first row about an asset.
pub open spec fn asset_row(rows: Seq<AssetFacts>, path: Seq<Seq<char>>) -> Option<AssetFacts>
    decreases rows.len(),
{
    if rows.len() == 0 {
        None
    } else if rows[0].path@ == path {
        Some(rows[0])
    } else {
        asset_row(rows.drop_first(), path)
    }
}

impl WorkspaceIndex {
    /// Whether `path` is a source file.
    pub open spec fn is_source(&self, path: Seq<Seq<char>>) -> bool {
        match file_row(self.files@, path) {
            Some(row) => row.is_source,
            None => false,
        }
    }

    /// Whether the analysis covers `path`.
    pub open spec fn is_analyzed(&self, path: Seq<Seq<char>>) -> bool {
        match file_row(self.files@, path) {
            Some(row) => row.is_analyzed,
            None => false,
        }
    }

    /// The project that owns `path`.
    pub open spec fn owner(&self, path: Seq<Seq<char>>) -> Option<Seq<char>> {
        match file_row(self.files@, path) {
            Some(row) => optional_text(row.owner),
            None => None,
        }
    }

    /// The exports of `path`.
    pub open spec fn exports(&self, path: Seq<Seq<char>>) -> Seq<Export> {
        match file_row(self.files@, path) {
            Some(row) => row.exports@,
            None => seq![],
        }
    }

    /// The imports of `path`.
    pub open spec fn imports(&self, path: Seq<Seq<char>>) -> Seq<Import> {
        match file_row(self.files@, path) {
            Some(row) => row.imports@,
            None => seq![],
        }
    }

    /// The symbols at a place.
    pub open spec fn symbols_at(
        &self,
        file: Seq<Seq<char>>,
        line: usize,
        column: usize,
    ) -> Result<Seq<Seq<char>>, Seq<char>> {
        match node_row(self.nodes@, file, line, column) {
            Some(row) => names_view(row.symbols),
            None => Ok(seq![]),
        }
    }

    /// The exported symbols of `file` that use `name`.
    pub open spec fn exported_users(&self, file: Seq<Seq<char>>, name: Seq<char>) -> Result<
        Seq<Seq<char>>,
        Seq<char>,
    > {
        match symbol_row(self.symbols@, file, name) {
            Some(row) => names_view(row.exported_users),
            None => Ok(seq![]),
        }
    }

    /// The row about the file `path`.
    pub fn find_file(&self, path: &FilePath) -> (r: Option<&FileFacts>)
        ensures
            match r {
                Some(row) => file_row(self.files@, path@) == Some(*row),
                None => file_row(self.files@, path@) is None,
            },
    {
        let mut i: usize = 0;
        proof {
            assert(self.files@.skip(0) =~= self.files@);
        }
        while i < self.files.len()
            invariant
                i <= self.files@.len(),
                file_row(self.files@, path@) == file_row(self.files@.skip(i as int), path@),
            decreases self.files@.len() - i,
        {
            proof {
                assert(self.files@.skip(i as int).drop_first() =~= self.files@.skip(i + 1));
            }
            if self.files[i].path.same_path(path) {
                return Some(&self.files[i]);
            }
            i += 1;
        }
        None
    }

    /// The row about a place.
    pub fn find_node(&self, file: &FilePath, line: usize, column: usize) -> (r: Option<&NodeFacts>)
        ensures
            match r {
                Some(row) => node_row(self.nodes@, file@, line, column) == Some(*row),
                None => node_row(self.nodes@, file@, line, column) is None,
            },
    {
        let mut i: usize = 0;
        proof {
            assert(self.nodes@.skip(0) =~= self.nodes@);
        }
        while i < self.nodes.len()
            invariant
                i <= self.nodes@.len(),
                node_row(self.nodes@, file@, line, column) == node_row(
                    self.nodes@.skip(i as int),
                    file@,
                    line,
                    column,
                ),
            decreases self.nodes@.len() - i,
        {
            proof {
                assert(self.nodes@.skip(i as int).drop_first() =~= self.nodes@.skip(i + 1));
            }
            let row = &self.nodes[i];
            if row.position.line == line && row.position.column == column && row.file.same_path(
                file,
            ) {
                return Some(row);
            }
            i += 1;
        }
        None
    }

    /// The row about a symbol.
    pub fn find_symbol(&self, file: &FilePath, name: &String) -> (r: Option<&SymbolFacts>)
        ensures
            match r {
                Some(row) => symbol_row(self.symbols@, file@, name@) == Some(*row),
                None => symbol_row(self.symbols@, file@, name@) is None,
            },
    {
        let mut i: usize = 0;
        proof {
            assert(self.symbols@.skip(0) =~= self.symbols@);
        }
        while i < self.symbols.len()
            invariant
                i <= self.symbols@.len(),
                symbol_row(self.symbols@, file@, name@) == symbol_row(
                    self.symbols@.skip(i as int),
                    file@,
                    name@,
                ),
            decreases self.symbols@.len() - i,
        {
            proof {
                assert(self.symbols@.skip(i as int).drop_first() =~= self.symbols@.skip(i + 1));
            }
            let row = &self.symbols[i];
            if row.name == *name && row.file.same_path(file) {
                return Some(row);
            }
            i += 1;
        }
        None
    }

    /// The row about an asset.
    pub fn find_asset(&self, path: &FilePath) -> (r: Option<&AssetFacts>)
        ensures
            match r {
                Some(row) => asset_row(self.assets@, path@) == Some(*row),
                None => asset_row(self.assets@, path@) is None,
            },
    {
        let mut i: usize = 0;
        proof {
            assert(self.assets@.skip(0) =~= self.assets@);
        }
        while i < self.assets.len()
            invariant
                i <= self.assets@.len(),
                asset_row(self.assets@, path@) == asset_row(self.assets@.skip(i as int), path@),
            decreases self.assets@.len() - i,
        {
            proof {
                assert(self.assets@.skip(i as int).drop_first() =~= self.assets@.skip(i + 1));
            }
            if self.assets[i].path.same_path(path) {
                return Some(&self.assets[i]);
            }
            i += 1;
        }
        None
    }

    /// The project that owns `path`.
    pub fn owner_of(&self, path: &FilePath) -> (r: Option<String>)
        ensures
            optional_text(r) == self.owner(path@),
    {
        match self.find_file(path) {
            Some(row) => match &row.owner {
                Some(name) => Some(name.clone()),
                None => None,
            },
            None => None,
        }
    }
}

/// The row found for a file is the first about that file, and one is found exactly
/// where there is one.
pub proof fn file_row_is_about_its_file(rows: Seq<FileFacts>, path: Seq<Seq<char>>)
    ensures
        file_row(rows, path) is None <==> forall|i: int|
            0 <= i < rows.len() ==> (#[trigger] rows[i]).path@ != path,
        file_row(rows, path) matches Some(row) ==> exists|i: int|
            0 <= i < rows.len() && #[trigger] rows[i] == row && rows[i].path@ == path && forall|
                j: int,
            |
                0 <= j < i ==> (#[trigger] rows[j]).path@ != path,
    decreases rows.len(),
{
    if rows.len() > 0 && rows[0].path@ != path {
        let rest = rows.drop_first();
        file_row_is_about_its_file(rest, path);
        assert forall|i: int| 0 <= i < rest.len() implies #[trigger] rest[i] == rows[i + 1] by {}
        if let Some(row) = file_row(rest, path) {
            let i = choose|i: int|
                0 <= i < rest.len() && #[trigger] rest[i] == row && rest[i].path@ == path && forall|
                    j: int,
                |
                    0 <= j < i ==> (#[trigger] rest[j]).path@ != path;
            assert(rows[i + 1] == row);
            assert forall|j: int| 0 <= j < i + 1 implies (#[trigger] rows[j]).path@ != path by {
                if j > 0 {
                    assert(rest[j - 1] == rows[j]);
                }
            }
        } else {
            assert forall|i: int| 0 <= i < rows.len() implies (#[trigger] rows[i]).path@ != path by {
                if i > 0 {
                    assert(rest[i - 1] == rows[i]);
                }
            }
        }
    }
}

/// What is known of a file is what its first row says.
pub proof fn first_row_tells_of_a_file(ws: WorkspaceIndex, path: Seq<Seq<char>>, i: int)
    requires
        0 <= i < ws.files@.len(),
        ws.files@[i].path@ == path,
        forall|j: int| 0 <= j < i ==> (#[trigger] ws.files@[j]).path@ != path,
    ensures
        file_row(ws.files@, path) == Some(ws.files@[i]),
        ws.is_source(path) == ws.files@[i].is_source,
        ws.is_analyzed(path) == ws.files@[i].is_analyzed,
        match ws.files@[i].owner {
            Some(name) => ws.owner(path) == Some(name@),
            None => ws.owner(path) is None,
        },
        ws.exports(path) == ws.files@[i].exports@,
        ws.imports(path) == ws.files@[i].imports@,
{
    let rows = ws.files@;
    file_row_is_about_its_file(rows, path);
    assert(rows[i].path@ == path);
    let row = file_row(rows, path)->Some_0;
    let k = choose|k: int|
        0 <= k < rows.len() && #[trigger] rows[k] == row && rows[k].path@ == path && forall|j: int|
            0 <= j < k ==> (#[trigger] rows[j]).path@ != path;
    assert(rows[k].path@ == path);
}

/// A file without a row is an asset outside every project.
pub proof fn file_without_a_row_is_unknown(ws: WorkspaceIndex, path: Seq<Seq<char>>)
    requires
        forall|i: int| 0 <= i < ws.files@.len() ==> (#[trigger] ws.files@[i]).path@ != path,
    ensures
        !ws.is_source(path),
        !ws.is_analyzed(path),
        ws.owner(path) is None,
        ws.exports(path).len() == 0,
        ws.imports(path).len() == 0,
{
    file_row_is_about_its_file(ws.files@, path);
}

/// Rows about other files change nothing of what is known of a file.
pub proof fn rows_about_other_files_say_nothing(
    rows: Seq<FileFacts>,
    others: Seq<FileFacts>,
    path: Seq<Seq<char>>,
)
    requires
        forall|i: int| 0 <= i < others.len() ==> (#[trigger] others[i]).path@ != path,
    ensures
        file_row(others + rows, path) == file_row(rows, path),
        file_row(rows + others, path) == file_row(rows, path),
    decreases others.len() + rows.len(),
{
    if others.len() > 0 {
        let all = others + rows;
        let rest = others.drop_first();
        assert(all[0] == others[0]);
        assert(all.drop_first() =~= rest + rows);
        assert forall|i: int| 0 <= i < rest.len() implies (#[trigger] rest[i]).path@ != path by {
            assert(rest[i] == others[i + 1]);
        }
        rows_about_other_files_say_nothing(rows, rest, path);
    } else {
        assert(others + rows =~= rows);
    }
    file_row_is_about_its_file(others, path);
    let after = rows + others;
    if rows.len() > 0 {
        assert(after[0] == rows[0]);
        assert(after.drop_first() =~= rows.drop_first() + others);
        if rows[0].path@ != path {
            rows_about_other_files_say_nothing(rows.drop_first(), others, path);
        }
    } else {
        assert(after =~= others);
    }
}

/// The row found for a place is the first about that place, and one is found exactly
/// where there is one.
pub proof fn node_row_is_about_its_place(
    rows: Seq<NodeFacts>,
    file: Seq<Seq<char>>,
    line: usize,
    column: usize,
)
    ensures
        node_row(rows, file, line, column) is None <==> forall|i: int|
            0 <= i < rows.len() ==> (#[trigger] rows[i]).file@ != file || rows[i].position.line
                != line || rows[i].position.column != column,
        node_row(rows, file, line, column) matches Some(row) ==> exists|i: int|
            0 <= i < rows.len() && #[trigger] rows[i] == row && rows[i].file@ == file
                && rows[i].position.line == line && rows[i].position.column == column && forall|
                j: int,
            |
                0 <= j < i ==> (#[trigger] rows[j]).file@ != file || rows[j].position.line != line
                    || rows[j].position.column != column,
    decreases rows.len(),
{
    if rows.len() > 0 && (rows[0].file@ != file || rows[0].position.line != line
        || rows[0].position.column != column) {
        let rest = rows.drop_first();
        node_row_is_about_its_place(rest, file, line, column);
        assert forall|i: int| 0 <= i < rest.len() implies #[trigger] rest[i] == rows[i + 1] by {}
        if let Some(row) = node_row(rest, file, line, column) {
            let i = choose|i: int|
                0 <= i < rest.len() && #[trigger] rest[i] == row && rest[i].file@ == file
                    && rest[i].position.line == line && rest[i].position.column == column && forall|
                    j: int,
                |
                    0 <= j < i ==> (#[trigger] rest[j]).file@ != file || rest[j].position.line
                        != line || rest[j].position.column != column;
            assert(rows[i + 1] == row);
            assert forall|j: int| 0 <= j < i + 1 implies (#[trigger] rows[j]).file@ != file
                || rows[j].position.line != line || rows[j].position.column != column by {
                if j > 0 {
                    assert(rest[j - 1] == rows[j]);
                }
            }
        } else {
            assert forall|i: int| 0 <= i < rows.len() implies (#[trigger] rows[i]).file@ != file
                || rows[i].position.line != line || rows[i].position.column != column by {
                if i > 0 {
                    assert(rest[i - 1] == rows[i]);
                }
            }
        }
    }
}

/// The symbols at a place are those that its first row lists, or the reason for which
/// they could not be found; a place without a row has none.
pub proof fn first_row_tells_of_a_place(
    ws: WorkspaceIndex,
    file: Seq<Seq<char>>,
    line: usize,
    column: usize,
)
    ensures
        forall|i: int|
            0 <= i < ws.nodes@.len() && (#[trigger] ws.nodes@[i]).file@ == file
                && ws.nodes@[i].position.line == line && ws.nodes@[i].position.column == column && (
            forall|j: int|
                0 <= j < i ==> (#[trigger] ws.nodes@[j]).file@ != file || ws.nodes@[j].position.line
                    != line || ws.nodes@[j].position.column != column) ==> match ws.nodes@[i].symbols {
                Ok(names) => ws.symbols_at(file, line, column) == Ok::<Seq<Seq<char>>, Seq<char>>(
                    names@.map_values(|name: String| name@),
                ),
                Err(e) => ws.symbols_at(file, line, column) == Err::<Seq<Seq<char>>, Seq<char>>(e@),
            },
        (forall|i: int|
            0 <= i < ws.nodes@.len() ==> (#[trigger] ws.nodes@[i]).file@ != file
                || ws.nodes@[i].position.line != line || ws.nodes@[i].position.column != column)
            ==> ws.symbols_at(file, line, column) == Ok::<Seq<Seq<char>>, Seq<char>>(seq![]),
{
    let rows = ws.nodes@;
    node_row_is_about_its_place(rows, file, line, column);
    if let Some(row) = node_row(rows, file, line, column) {
        let k = choose|k: int|
            0 <= k < rows.len() && #[trigger] rows[k] == row && rows[k].file@ == file
                && rows[k].position.line == line && rows[k].position.column == column && forall|j: int|
                0 <= j < k ==> (#[trigger] rows[j]).file@ != file || rows[j].position.line != line
                    || rows[j].position.column != column;
        assert(rows[k].file@ == file);
        if let Ok(names) = row.symbols {
            assert(texts(names@) =~= names@.map_values(|name: String| name@));
        }
    }
}

/// The row found for a symbol is the first about that symbol, and one is found
/// exactly where there is one.
pub proof fn symbol_row_is_about_its_symbol(
    rows: Seq<SymbolFacts>,
    file: Seq<Seq<char>>,
    name: Seq<char>,
)
    ensures
        symbol_row(rows, file, name) is None <==> forall|i: int|
            0 <= i < rows.len() ==> (#[trigger] rows[i]).file@ != file || rows[i].name@ != name,
        symbol_row(rows, file, name) matches Some(row) ==> exists|i: int|
            0 <= i < rows.len() && #[trigger] rows[i] == row && rows[i].file@ == file
                && rows[i].name@ == name && forall|j: int|
                0 <= j < i ==> (#[trigger] rows[j]).file@ != file || rows[j].name@ != name,
    decreases rows.len(),
{
    if rows.len() > 0 && (rows[0].file@ != file || rows[0].name@ != name) {
        let rest = rows.drop_first();
        symbol_row_is_about_its_symbol(rest, file, name);
        assert forall|i: int| 0 <= i < rest.len() implies #[trigger] rest[i] == rows[i + 1] by {}
        if let Some(row) = symbol_row(rest, file, name) {
            let i = choose|i: int|
                0 <= i < rest.len() && #[trigger] rest[i] == row && rest[i].file@ == file
                    && rest[i].name@ == name && forall|j: int|
                    0 <= j < i ==> (#[trigger] rest[j]).file@ != file || rest[j].name@ != name;
            assert(rows[i + 1] == row);
            assert forall|j: int| 0 <= j < i + 1 implies (#[trigger] rows[j]).file@ != file
                || rows[j].name@ != name by {
                if j > 0 {
                    assert(rest[j - 1] == rows[j]);
                }
            }
        } else {
            assert forall|i: int| 0 <= i < rows.len() implies (#[trigger] rows[i]).file@ != file
                || rows[i].name@ != name by {
                if i > 0 {
                    assert(rest[i - 1] == rows[i]);
                }
            }
        }
    }
}

/// The exported symbols that use a symbol are those that its first row lists, or the
/// reason for which they could not be found; a symbol without a row has none.
pub proof fn first_row_tells_of_a_symbol(
    ws: WorkspaceIndex,
    file: Seq<Seq<char>>,
    name: Seq<char>,
)
    ensures
        forall|i: int|
            0 <= i < ws.symbols@.len() && (#[trigger] ws.symbols@[i]).file@ == file
                && ws.symbols@[i].name@ == name && (forall|j: int|
                0 <= j < i ==> (#[trigger] ws.symbols@[j]).file@ != file || ws.symbols@[j].name@
                    != name) ==> symbol_row(ws.symbols@, file, name) == Some(ws.symbols@[i])
                && match ws.symbols@[i].exported_users {
                Ok(names) => ws.exported_users(file, name) == Ok::<Seq<Seq<char>>, Seq<char>>(
                    names@.map_values(|user: String| user@),
                ),
                Err(e) => ws.exported_users(file, name) == Err::<Seq<Seq<char>>, Seq<char>>(e@),
            },
        (forall|i: int|
            0 <= i < ws.symbols@.len() ==> (#[trigger] ws.symbols@[i]).file@ != file
                || ws.symbols@[i].name@ != name) ==> ws.exported_users(file, name) == Ok::<
            Seq<Seq<char>>,
            Seq<char>,
        >(seq![]),
{
    let rows = ws.symbols@;
    symbol_row_is_about_its_symbol(rows, file, name);
    if let Some(row) = symbol_row(rows, file, name) {
        let k = choose|k: int|
            0 <= k < rows.len() && #[trigger] rows[k] == row && rows[k].file@ == file
                && rows[k].name@ == name && forall|j: int|
                0 <= j < k ==> (#[trigger] rows[j]).file@ != file || rows[j].name@ != name;
        assert(rows[k].file@ == file);
        if let Ok(names) = row.exported_users {
            assert(texts(names@) =~= names@.map_values(|user: String| user@));
        }
    }
}

/// The row found for an asset is the first about that asset, and one is found exactly
/// where there is one.
pub proof fn asset_row_is_about_its_asset(rows: Seq<AssetFacts>, path: Seq<Seq<char>>)
    ensures
        asset_row(rows, path) is None <==> forall|i: int|
            0 <= i < rows.len() ==> (#[trigger] rows[i]).path@ != path,
        asset_row(rows, path) matches Some(row) ==> exists|i: int|
            0 <= i < rows.len() && #[trigger] rows[i] == row && rows[i].path@ == path && forall|
                j: int,
            |
                0 <= j < i ==> (#[trigger] rows[j]).path@ != path,
    decreases rows.len(),
{
    if rows.len() > 0 && rows[0].path@ != path {
        let rest = rows.drop_first();
        asset_row_is_about_its_asset(rest, path);
        assert forall|i: int| 0 <= i < rest.len() implies #[trigger] rest[i] == rows[i + 1] by {}
        if let Some(row) = asset_row(rest, path) {
            let i = choose|i: int|
                0 <= i < rest.len() && #[trigger] rest[i] == row && rest[i].path@ == path && forall|
                    j: int,
                |
                    0 <= j < i ==> (#[trigger] rest[j]).path@ != path;
            assert(rows[i + 1] == row);
            assert forall|j: int| 0 <= j < i + 1 implies (#[trigger] rows[j]).path@ != path by {
                if j > 0 {
                    assert(rest[j - 1] == rows[j]);
                }
            }
        } else {
            assert forall|i: int| 0 <= i < rows.len() implies (#[trigger] rows[i]).path@ != path by {
                if i > 0 {
                    assert(rest[i - 1] == rows[i]);
                }
            }
        }
    }
}

} // verus!
