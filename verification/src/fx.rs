//! The hash collections of `rustc_hash` that the traversal fills: what each
//! holds is a name, and the methods in use say what they do to it.

use crate::text::texts;
use crate::types::AffectCause;
use rustc_hash::{FxBuildHasher, FxHashMap, FxHashSet};
use vstd::prelude::*;

verus! {

/// The hasher of `rustc_hash`: it decides where entries lie, never which there
/// are.
#[verifier::external_type_specification]
#[verifier::external_body]
pub struct ExFxBuildHasher(FxBuildHasher);

/// The names in a set.
pub uninterp spec fn packages_in(s: FxHashSet<String>) -> Set<Seq<char>>;

/// The symbols in a set: the components of a file and a name.
pub uninterp spec fn visited_in(s: FxHashSet<(Vec<String>, String)>) -> Set<(
    Seq<Seq<char>>,
    Seq<char>,
)>;

/// The lists of causes in a map, by project.
pub uninterp spec fn causes_in(m: FxHashMap<String, Vec<AffectCause>>) -> Map<
    Seq<char>,
    Seq<AffectCause>,
>;

/// `FxHashSet::default` makes an empty set of names.
#[verifier::external_body]
pub(crate) fn new_packages() -> (r: FxHashSet<String>)
    ensures
        packages_in(r) == Set::<Seq<char>>::empty(),
{
    FxHashSet::default()
}

/// `FxHashSet::insert` adds the name and leaves the others as they are.
#[verifier::external_body]
pub(crate) fn insert_package(s: &mut FxHashSet<String>, name: String)
    ensures
        packages_in(*final(s)) == packages_in(*old(s)).insert(name@),
{
    s.insert(name);
}

/// `FxHashSet::iter` hands out every name of the set once, in an order that is
/// left open.
#[verifier::external_body]
pub(crate) fn list_packages(s: &FxHashSet<String>) -> (r: Vec<String>)
    ensures
        texts(r@).no_duplicates(),
        forall|n: Seq<char>| #[trigger] texts(r@).contains(n) <==> packages_in(*s).contains(n),
{
    s.iter().cloned().collect()
}

/// `FxHashSet::default` makes an empty set of symbols.
#[verifier::external_body]
pub(crate) fn new_visited() -> (r: FxHashSet<(Vec<String>, String)>)
    ensures
        visited_in(r) == Set::<(Seq<Seq<char>>, Seq<char>)>::empty(),
{
    FxHashSet::default()
}

/// `FxHashSet::insert` adds the symbol and reports whether it was new.
#[verifier::external_body]
pub(crate) fn insert_visited(
    s: &mut FxHashSet<(Vec<String>, String)>,
    file: Vec<String>,
    name: String,
) -> (fresh: bool)
    ensures
        visited_in(*final(s)) == visited_in(*old(s)).insert((texts(file@), name@)),
        fresh == !visited_in(*old(s)).contains((texts(file@), name@)),
{
    s.insert((file, name))
}

/// `FxHashMap::default` makes an empty map.
#[verifier::external_body]
pub(crate) fn new_causes() -> (r: FxHashMap<String, Vec<AffectCause>>)
    ensures
        (causes_in(r) == Map::<Seq<char>, Seq<AffectCause>>::empty()),
{
    FxHashMap::default()
}

/// `FxHashMap::remove` takes the entry of the project out of the map and
/// returns its list, if there was one.
#[verifier::external_body]
pub(crate) fn take_causes(m: &mut FxHashMap<String, Vec<AffectCause>>, name: &String) -> (r: Option<
    Vec<AffectCause>,
>)
    ensures
        causes_in(*final(m)) == causes_in(*old(m)).remove(name@),
        match r {
            Some(v) => causes_in(*old(m)).contains_key(name@) && causes_in(*old(m))[name@] == v@,
            None => !causes_in(*old(m)).contains_key(name@),
        },
{
    m.remove(name)
}

/// `FxHashMap::insert` sets the list of the project.
#[verifier::external_body]
pub(crate) fn put_causes(
    m: &mut FxHashMap<String, Vec<AffectCause>>,
    name: String,
    causes: Vec<AffectCause>,
)
    ensures
        causes_in(*final(m)) == causes_in(*old(m)).insert(name@, causes@),
{
    m.insert(name, causes);
}

} // verus!
