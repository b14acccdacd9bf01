//! The projects found affected so far, and the reasons.

use crate::fx::{
    causes_in, insert_package, list_packages, new_causes, new_packages, packages_in, put_causes,
    take_causes,
};
use crate::order::{
    ascending_names, condensed, lex_less, lex_order_is_irreflexive, sort_causes, sort_names,
    text_key,
};
use crate::text::texts;
use crate::trace::{optional_cause, Mark};
use crate::types::{cause_views, AffectCause, AffectedProjectInfo, AffectedReport, Cause};
use rustc_hash::{FxHashMap, FxHashSet};
use vstd::prelude::*;

verus! {

/// The projects that a list of marks counts as affected.
pub open spec fn packages_of(marks: Seq<Mark>) -> Set<Seq<char>> {
    Set::new(|p: Seq<char>| exists|i: int| 0 <= i < marks.len() && #[trigger] marks[i].package == p)
}

/// The reasons that a list of marks gives for a project, in order.
pub open spec fn causes_for(marks: Seq<Mark>, package: Seq<char>) -> Seq<Cause>
    decreases marks.len(),
{
    if marks.len() == 0 {
        seq![]
    } else {
        let earlier = causes_for(marks.drop_last(), package);
        match marks.last().cause {
            Some(cause) if marks.last().package == package => earlier.push(cause),
            _ => earlier,
        }
    }
}

/// The list of a project in a map of cause lists: empty where it has none.
pub open spec fn list_in(m: Map<Seq<char>, Seq<AffectCause>>, package: Seq<char>) -> Seq<Cause> {
    if m.contains_key(package) {
        cause_views(m[package])
    } else {
        seq![]
    }
}

/// The names in a report.
pub open spec fn report_names(infos: Seq<AffectedProjectInfo>) -> Seq<Seq<char>> {
    infos.map_values(|info: AffectedProjectInfo| info.name@)
}

/// The projects found affected; the reasons only where a report is wanted.
pub struct AffectedState {
    packages: FxHashSet<String>,
    causes: Option<FxHashMap<String, Vec<AffectCause>>>,
}

impl AffectedState {
    /// Only an affected project has reasons.
    pub closed spec fn well_formed(&self) -> bool {
        match self.causes {
            Some(m) => forall|n: Seq<char>| #[trigger]
                causes_in(m).contains_key(n) ==> packages_in(self.packages).contains(n),
            None => true,
        }
    }

    /// The affected projects.
    pub closed spec fn packages(&self) -> Set<Seq<char>> {
        packages_in(self.packages)
    }

    /// Whether reasons are kept.
    pub closed spec fn reporting(&self) -> bool {
        self.causes is Some
    }

    /// The reasons kept for a project, in the order in which they came.
    pub closed spec fn causes(&self, package: Seq<char>) -> Seq<Cause> {
        match self.causes {
            Some(m) => list_in(causes_in(m), package),
            None => seq![],
        }
    }

    /// The state after `marks`: the marked projects are added, and where reasons
    /// are kept, those of the marks come behind the earlier ones.
    pub open spec fn grown(&self, before: AffectedState, marks: Seq<Mark>) -> bool {
        &&& self.well_formed()
        &&& self.reporting() == before.reporting()
        &&& self.packages() == before.packages().union(packages_of(marks))
        &&& self.reporting() ==> forall|n: Seq<char>| #[trigger]
            self.causes(n) == before.causes(n) + causes_for(marks, n)
    }

    /// Nothing found yet.
    pub fn new(reporting: bool) -> (r: AffectedState)
        ensures
            r.well_formed(),
            r.reporting() == reporting,
            r.packages() == Set::<Seq<char>>::empty(),
            forall|n: Seq<char>| #[trigger] r.causes(n) == Seq::<Cause>::empty(),
    {
        let causes = if reporting {
            Some(new_causes())
        } else {
            None
        };
        AffectedState { packages: new_packages(), causes }
    }

    /// Counts `package` as affected, for the reason `cause`.
    pub fn mark(&mut self, package: String, cause: Option<AffectCause>)
        requires
            old(self).well_formed(),
        ensures
            final(self).grown(
                *old(self),
                seq![Mark { package: package@, cause: optional_cause(cause) }],
            ),
    {
        let ghost start = *self;
        let ghost mark = Mark { package: package@, cause: optional_cause(cause) };
        let ghost marks = seq![mark];
        proof {
            assert(marks[0].package == package@);
            assert(marks.drop_last() =~= seq![]);
            assert(causes_for(marks.drop_last(), package@) =~= seq![]);
        }
        insert_package(&mut self.packages, package.clone());
        proof {
            assert(self.packages() =~= start.packages().union(packages_of(marks)));
        }
        if let Some(cause) = cause {
            if let Some(mut m) = self.causes.take() {
                let ghost before = causes_in(m);
                let mut list = match take_causes(&mut m, &package) {
                    Some(list) => list,
                    None => Vec::new(),
                };
                let ghost shorter = list@;
                list.push(cause);
                put_causes(&mut m, package, list);
                proof {
                    let after = causes_in(m);
                    assert(cause_views(list@) =~= cause_views(shorter).push(cause@));
                    assert forall|n: Seq<char>| #[trigger]
                        list_in(after, n) == list_in(before, n) + causes_for(marks, n) by {
                        assert(causes_for(marks.drop_last(), n) =~= seq![]);
                        if n == package@ {
                            assert(causes_for(marks, n) =~= seq![cause@]);
                            assert(list_in(before, n) =~= cause_views(shorter));
                            assert(cause_views(shorter).push(cause@) =~= cause_views(shorter)
                                + seq![cause@]);
                        } else {
                            assert(list_in(before, n) + Seq::<Cause>::empty() =~= list_in(
                                before,
                                n,
                            ));
                        }
                    }
                }
                self.causes = Some(m);
                proof {
                    assert forall|n: Seq<char>| #[trigger]
                        self.causes(n) == start.causes(n) + causes_for(marks, n) by {
                        assert(list_in(causes_in(m), n) == list_in(before, n) + causes_for(
                            marks,
                            n,
                        ));
                    }
                }
            }
        } else {
            proof {
                assert forall|n: Seq<char>| #[trigger]
                    self.causes(n) == start.causes(n) + causes_for(marks, n) by {
                    assert(causes_for(marks.drop_last(), n) =~= seq![]);
                    assert(start.causes(n) + Seq::<Cause>::empty() =~= start.causes(n));
                }
            }
        }
    }

    /// The affected projects, each once.
    pub fn list(&self) -> (r: Vec<String>)
        ensures
            texts(r@).no_duplicates(),
            forall|n: Seq<char>| #[trigger]
                texts(r@).contains(n) <==> self.packages().contains(n),
    {
        list_packages(&self.packages)
    }

    /// The report, where reasons were kept: every affected project in ascending
    /// order, each with its reasons in ascending order. A project without a known
    /// reason has none.
    pub fn into_report(self) -> (r: Option<AffectedReport>)
        ensures
            r is Some == self.reporting(),
            r matches Some(report) ==> ascending_names(report_names(report.projects@)),
            r matches Some(report) ==> forall|n: Seq<char>| #[trigger]
                report_names(report.projects@).contains(n) <==> self.packages().contains(n),
            r matches Some(report) ==> forall|i: int|
                0 <= i < report.projects@.len() ==> condensed(
                    cause_views((#[trigger] report.projects@[i]).causes@),
                    self.causes(report.projects@[i].name@),
                ),
    {
        let names = sort_names(self.list());
        let ghost all = texts(names@);
        let mut m = match self.causes {
            None => {
                return None;
            },
            Some(m) => m,
        };
        let ghost map = causes_in(m);
        let mut infos: Vec<AffectedProjectInfo> = Vec::new();
        let mut i: usize = 0;
        proof {
            assert(report_names(infos@) =~= all.take(0));
        }
        while i < names.len()
            invariant
                i <= names@.len(),
                all == texts(names@),
                ascending_names(all),
                self.causes is Some,
                map == causes_in(self.causes->Some_0),
                report_names(infos@) == all.take(i as int),
                infos@.len() == i,
                forall|k: int| i <= k < all.len() ==> list_in(causes_in(m), #[trigger] all[k])
                    == list_in(map, all[k]),
                forall|k: int|
                    0 <= k < i ==> condensed(
                        cause_views((#[trigger] infos@[k]).causes@),
                        list_in(map, infos@[k].name@),
                    ),
            decreases names@.len() - i,
        {
            let name = names[i].clone();
            let ghost before = causes_in(m);
            let ghost old_infos = infos@;
            let list = match take_causes(&mut m, &name) {
                Some(list) => list,
                None => Vec::new(),
            };
            proof {
                assert(all[i as int] == name@);
                assert(cause_views(list@) =~= list_in(map, name@));
                assert forall|k: int| i + 1 <= k < all.len() implies list_in(
                    causes_in(m),
                    #[trigger] all[k],
                ) == list_in(map, all[k]) by {
                    assert(lex_less(
                        text_key(all[i as int]),
                        text_key(all[k]),
                    ));
                    lex_order_is_irreflexive(text_key(name@));
                    assert(all[k] != name@);
                    assert(list_in(before, all[k]) == list_in(map, all[k]));
                }
            }
            let causes = sort_causes(list);
            infos.push(AffectedProjectInfo { name, causes });
            proof {
                assert(report_names(infos@) =~= report_names(old_infos).push(name@));
                assert(all.take(i + 1) =~= all.take(i as int).push(name@));
                assert forall|k: int| 0 <= k < i + 1 implies condensed(
                    cause_views((#[trigger] infos@[k]).causes@),
                    list_in(map, infos@[k].name@),
                ) by {
                    if k < i {
                        assert(infos@[k] == old_infos[k]);
                    }
                }
            }
            i += 1;
        }
        proof {
            assert(all.take(i as int) =~= all);
        }
        Some(AffectedReport { projects: infos })
    }
}

/// The names in a report are those of its projects, in order.
pub proof fn report_names_are_those_of_its_projects(infos: Seq<AffectedProjectInfo>)
    ensures
        report_names(infos).len() == infos.len(),
        forall|i: int| 0 <= i < infos.len() ==> #[trigger] report_names(infos)[i] == infos[i].name@,
{
}

} // verus!
