//! Aggregation of per-package attribution records: every package of the
//! resolved graph is turned into a record holding its metadata, its resolved
//! license and exception identifiers, and the copyright notices found in its
//! source directory. A package whose notice directory cannot be read or
//! whose license string resolves under neither grammar is skipped, so that
//! no unusable record reaches the output; the root package's record is
//! routed to a distinguished slot instead of the dependency list.

use vstd::prelude::*;

use crate::expression::{resolve_expression, resolved_terms};
use crate::notices::{dir_notices, scan_notices, DirEntryData, DirEntryModel};
use crate::text::sort_dedup_spec;

verus! {

/// The kind of one of the root package's direct dependency edges.
#[derive(Clone, Copy, Debug, PartialEq, Eq, Structural)]
pub enum DependencyKind {
    /// An ordinary build or run dependency.
    Normal,
    /// A dependency used only for development.
    Development,
    /// A dependency used only at build time.
    Build,
    /// An edge kind the build tool did not classify.
    Unknown,
}

/// One direct dependency edge of the root package.
#[derive(Clone, Debug)]
pub struct RootDependency {
    /// The name of the package the edge points at.
    pub name: String,
    /// The kind of the edge.
    pub kind: DependencyKind,
}

/// The mathematical image of a root dependency edge.
#[verifier::ext_equal]
pub ghost struct RootDependencyModel {
    pub name: Seq<char>,
    pub kind: DependencyKind,
}

impl View for RootDependency {
    type V = RootDependencyModel;

    open spec fn view(&self) -> RootDependencyModel {
        RootDependencyModel { name: self.name@, kind: self.kind }
    }
}

impl DeepView for RootDependency {
    type V = RootDependencyModel;

    open spec fn deep_view(&self) -> RootDependencyModel {
        self.view()
    }
}

/// What the build-graph query reports of one resolved package, reduced to
/// plain values: its declared metadata, whether it is the root of the
/// graph, and the listing of its manifest directory (`None` when that
/// directory could not be read).
pub struct PackageData {
    pub name: String,
    pub version: String,
    pub authors: Vec<String>,
    pub description: Option<String>,
    pub repository: Option<String>,
    pub homepage: Option<String>,
    pub license: Option<String>,
    pub is_root: bool,
    pub dir_entries: Option<Vec<DirEntryData>>,
}

/// The mathematical image of a package.
#[verifier::ext_equal]
pub ghost struct PackageModel {
    pub name: Seq<char>,
    pub version: Seq<char>,
    pub authors: Seq<Seq<char>>,
    pub description: Option<Seq<char>>,
    pub repository: Option<Seq<char>>,
    pub homepage: Option<Seq<char>>,
    pub license: Option<Seq<char>>,
    pub is_root: bool,
    pub dir_entries: Option<Seq<DirEntryModel>>,
}

impl View for PackageData {
    type V = PackageModel;

    open spec fn view(&self) -> PackageModel {
        PackageModel {
            name: self.name@,
            version: self.version@,
            authors: self.authors.deep_view(),
            description: self.description.deep_view(),
            repository: self.repository.deep_view(),
            homepage: self.homepage.deep_view(),
            license: self.license.deep_view(),
            is_root: self.is_root,
            dir_entries: match self.dir_entries {
                Some(es) => Some(es.deep_view()),
                None => None,
            },
        }
    }
}

impl DeepView for PackageData {
    type V = PackageModel;

    open spec fn deep_view(&self) -> PackageModel {
        self.view()
    }
}

/// One attribution record: a package's declared metadata together with its
/// resolved license and exception identifiers and its copyright notices.
/// The identifier lists and the notice list are sorted and free of
/// duplicates.
#[derive(Clone, Debug, PartialEq, Eq)]
pub struct DependencyData {
    pub name: String,
    pub version: String,
    pub description: Option<String>,
    pub license: Option<String>,
    pub notices: Vec<String>,
    pub authors: Vec<String>,
    pub repository: Option<String>,
    pub homepage: Option<String>,
    pub licenses: Vec<String>,
    pub exceptions: Vec<String>,
}

/// The mathematical image of an attribution record.
#[verifier::ext_equal]
pub ghost struct DependencyModel {
    pub name: Seq<char>,
    pub version: Seq<char>,
    pub description: Option<Seq<char>>,
    pub license: Option<Seq<char>>,
    pub notices: Seq<Seq<char>>,
    pub authors: Seq<Seq<char>>,
    pub repository: Option<Seq<char>>,
    pub homepage: Option<Seq<char>>,
    pub licenses: Seq<Seq<char>>,
    pub exceptions: Seq<Seq<char>>,
}

impl View for DependencyData {
    type V = DependencyModel;

    open spec fn view(&self) -> DependencyModel {
        DependencyModel {
            name: self.name@,
            version: self.version@,
            description: self.description.deep_view(),
            license: self.license.deep_view(),
            notices: self.notices.deep_view(),
            authors: self.authors.deep_view(),
            repository: self.repository.deep_view(),
            homepage: self.homepage.deep_view(),
            licenses: self.licenses.deep_view(),
            exceptions: self.exceptions.deep_view(),
        }
    }
}

impl DeepView for DependencyData {
    type V = DependencyModel;

    open spec fn deep_view(&self) -> DependencyModel {
        self.view()
    }
}

/// The record a package's declared metadata alone determines: identifier
/// and notice lists still empty, and the homepage suppressed when it
/// repeats the repository.
pub open spec fn base_record(p: PackageModel) -> DependencyModel {
    DependencyModel {
        name: p.name,
        version: p.version,
        description: p.description,
        license: p.license,
        notices: Seq::<Seq<char>>::empty(),
        authors: p.authors,
        repository: p.repository,
        homepage: if p.homepage == p.repository {
            None
        } else {
            p.homepage
        },
        licenses: Seq::<Seq<char>>::empty(),
        exceptions: Seq::<Seq<char>>::empty(),
    }
}

impl DependencyData {
    /// Builds the base record of a package: its declared metadata copied
    /// over, the homepage dropped when it equals the repository, and the
    /// notice and identifier lists empty.
    pub fn new(package: &PackageData) -> (r: Self)
        ensures
            r@ == base_record(package@),
    {
        let homepage: Option<String> = match (&package.homepage, &package.repository) {
            (Some(h), Some(rep)) => {
                if h.eq(rep) {
                    None
                } else {
                    Some(h.clone())
                }
            },
            (Some(h), None) => Some(h.clone()),
            (None, _) => None,
        };
        let r = DependencyData {
            name: package.name.clone(),
            version: package.version.clone(),
            description: clone_opt(&package.description),
            license: clone_opt(&package.license),
            notices: Vec::new(),
            authors: clone_strings(&package.authors),
            repository: clone_opt(&package.repository),
            homepage,
            licenses: Vec::new(),
            exceptions: Vec::new(),
        };
        proof {
            assert(r@ =~= base_record(package@));
        }
        r
    }

    /// Scans the package's directory listing and stores the notices found:
    /// sorted, deduplicated, best-effort per file.
    pub fn get_license_notices(&mut self, entries: &Vec<DirEntryData>)
        ensures
            final(self)@ == (DependencyModel {
                notices: sort_dedup_spec(dir_notices(entries.deep_view())),
                ..old(self)@
            }),
    {
        self.notices = scan_notices(entries);
        proof {
            assert(self@ =~= (DependencyModel {
                notices: sort_dedup_spec(dir_notices(entries.deep_view())),
                ..old(self)@
            }));
        }
    }

    /// Resolves the record's declared license string into its identifier
    /// lists. An absent license string leaves the record as it is and is no
    /// error; a string that parses under neither the standard grammar nor
    /// the slash rewrite leaves the record as it is and reports failure.
    pub fn get_parse_licenses(&mut self) -> (ok: bool)
        ensures
            ok == resolve_ok(old(self)@.license),
            old(self)@.license is None ==> final(self)@ == old(self)@,
            !ok ==> final(self)@ == old(self)@,
            ok && old(self)@.license is Some ==> final(self)@ == (DependencyModel {
                licenses: licenses_resolved(old(self)@.license),
                exceptions: exceptions_resolved(old(self)@.license),
                ..old(self)@
            }),
    {
        let license_string: Option<String> = clone_opt(&self.license);
        match license_string {
            None => true,
            Some(s) => {
                proof {
                    assert(old(self)@.license == Some(s@));
                }
                match resolve_expression(s.as_str()) {
                    Some(pair) => {
                        let ghost glic = pair.0.deep_view();
                        let ghost gexc = pair.1.deep_view();
                        self.licenses = pair.0;
                        self.exceptions = pair.1;
                        proof {
                            assert(self@.licenses == glic);
                            assert(self@.exceptions == gexc);
                            assert(resolved_terms(s@) is Some);
                            assert(glic == licenses_resolved(old(self)@.license));
                            assert(gexc == exceptions_resolved(old(self)@.license));
                            assert(self@ =~= (DependencyModel {
                                licenses: licenses_resolved(old(self)@.license),
                                exceptions: exceptions_resolved(old(self)@.license),
                                ..old(self)@
                            }));
                        }
                        true
                    },
                    None => false,
                }
            },
        }
    }
}

/// Whether a declared license string resolves: an absent string does, a
/// present one only when one of the two parses accepts it.
pub open spec fn resolve_ok(license: Option<Seq<char>>) -> bool {
    match license {
        Some(s) => resolved_terms(s) is Some,
        None => true,
    }
}

/// The sorted license identifiers a declared license string resolves to.
pub open spec fn licenses_resolved(license: Option<Seq<char>>) -> Seq<Seq<char>> {
    match license {
        Some(s) => match resolved_terms(s) {
            Some(t) => sort_dedup_spec(t.0),
            None => Seq::<Seq<char>>::empty(),
        },
        None => Seq::<Seq<char>>::empty(),
    }
}

/// The sorted exception identifiers a declared license string resolves to.
pub open spec fn exceptions_resolved(license: Option<Seq<char>>) -> Seq<Seq<char>> {
    match license {
        Some(s) => match resolved_terms(s) {
            Some(t) => sort_dedup_spec(t.1),
            None => Seq::<Seq<char>>::empty(),
        },
        None => Seq::<Seq<char>>::empty(),
    }
}

/// The root package depends on `name` through some non-normal edge.
pub open spec fn has_non_normal_edge(roots: Seq<RootDependencyModel>, name: Seq<char>) -> bool {
    exists|j: int|
        0 <= j < roots.len() && (#[trigger] roots[j]).name == name && roots[j].kind
            != DependencyKind::Normal
}

/// The root package depends on `name` through some normal edge.
pub open spec fn has_normal_edge(roots: Seq<RootDependencyModel>, name: Seq<char>) -> bool {
    exists|j: int|
        0 <= j < roots.len() && (#[trigger] roots[j]).name == name && roots[j].kind
            == DependencyKind::Normal
}

/// Whether some non-normal edge of the root names this package.
fn root_has_non_normal(roots: &Vec<RootDependency>, name: &String) -> (r: bool)
    ensures
        r == has_non_normal_edge(roots.deep_view(), name@),
{
    let mut i: usize = 0;
    while i < roots.len()
        invariant
            i <= roots.len(),
            forall|j: int|
                0 <= j < i ==> !((#[trigger] roots.deep_view()[j]).name == name@
                    && roots.deep_view()[j].kind != DependencyKind::Normal),
        decreases roots.len() - i,
    {
        let edge = &roots[i];
        if edge.name.eq(name) && !(edge.kind == DependencyKind::Normal) {
            proof {
                assert((roots.deep_view()[i as int]).name == name@ && roots.deep_view()[
                    i as int
                ].kind != DependencyKind::Normal);
            }
            return true;
        }
        i = i + 1;
    }
    false
}

/// Whether some normal edge of the root names this package.
fn root_has_normal(roots: &Vec<RootDependency>, name: &String) -> (r: bool)
    ensures
        r == has_normal_edge(roots.deep_view(), name@),
{
    let mut i: usize = 0;
    while i < roots.len()
        invariant
            i <= roots.len(),
            forall|j: int|
                0 <= j < i ==> !((#[trigger] roots.deep_view()[j]).name == name@
                    && roots.deep_view()[j].kind == DependencyKind::Normal),
        decreases roots.len() - i,
    {
        let edge = &roots[i];
        if edge.name.eq(name) && edge.kind == DependencyKind::Normal {
            proof {
                assert((roots.deep_view()[i as int]).name == name@ && roots.deep_view()[
                    i as int
                ].kind == DependencyKind::Normal);
            }
            return true;
        }
        i = i + 1;
    }
    false
}

/// The package is left out when the filter flag is set, some non-normal
/// edge of the root names it, and no normal edge of the root saves it: a
/// package the root needs both at run time and for development is still a
/// shipped dependency and is kept.
pub open spec fn filtered_out(
    p: PackageModel,
    roots: Seq<RootDependencyModel>,
    only_normal: bool,
) -> bool {
    only_normal && has_non_normal_edge(roots, p.name) && !has_normal_edge(roots, p.name)
}

/// The package yields a record: it passes the filter, its manifest
/// directory was readable, and its license string (if any) resolves.
pub open spec fn kept(p: PackageModel, roots: Seq<RootDependencyModel>, only_normal: bool) -> bool {
    !filtered_out(p, roots, only_normal) && p.dir_entries is Some && resolve_ok(p.license)
}

/// The full record of a kept package: its base record with the scanned
/// notices and the resolved identifier lists filled in.
pub open spec fn record_of(p: PackageModel) -> DependencyModel {
    DependencyModel {
        notices: match p.dir_entries {
            Some(es) => sort_dedup_spec(dir_notices(es)),
            None => Seq::<Seq<char>>::empty(),
        },
        licenses: licenses_resolved(p.license),
        exceptions: exceptions_resolved(p.license),
        ..base_record(p)
    }
}

/// The aggregation of a package sequence: every kept package contributes
/// its record, in package order; a kept root package is routed to the
/// distinguished second slot instead, the last one standing when several
/// packages claim to be root.
pub open spec fn aggregate(
    pkgs: Seq<PackageModel>,
    roots: Seq<RootDependencyModel>,
    only_normal: bool,
) -> (Seq<DependencyModel>, Option<DependencyModel>)
    decreases pkgs.len(),
{
    if pkgs.len() == 0 {
        (Seq::<DependencyModel>::empty(), None::<DependencyModel>)
    } else {
        let prev = aggregate(pkgs.drop_last(), roots, only_normal);
        let p = pkgs.last();
        if !kept(p, roots, only_normal) {
            prev
        } else if p.is_root {
            (prev.0, Some(record_of(p)))
        } else {
            (prev.0.push(record_of(p)), prev.1)
        }
    }
}

/// Builds the attribution records of the whole package graph. Every kept
/// package yields one record; the root's record, when the root is kept,
/// comes back in the second slot. A package is skipped — excluded from the
/// output — when the filter flag is set and only non-normal edges of the
/// root name it (a normal edge keeps it in), when its manifest directory
/// could not be read, or when its declared license string resolves under
/// neither parse.
pub fn get_data(
    packages: &Vec<PackageData>,
    root_dependencies: &Vec<RootDependency>,
    only_normal_dependencies: bool,
) -> (r: (Vec<DependencyData>, Option<DependencyData>))
    ensures
        r.0.deep_view() == aggregate(
            packages.deep_view(),
            root_dependencies.deep_view(),
            only_normal_dependencies,
        ).0,
        r.1.deep_view() == aggregate(
            packages.deep_view(),
            root_dependencies.deep_view(),
            only_normal_dependencies,
        ).1,
{
    let ghost roots = root_dependencies.deep_view();
    let mut dependencies: Vec<DependencyData> = Vec::new();
    let mut my_crate: Option<DependencyData> = None;
    let mut k: usize = 0;
    proof {
        assert(packages.deep_view().take(0) =~= Seq::<PackageModel>::empty());
        assert(dependencies.deep_view() =~= aggregate(
            packages.deep_view().take(0),
            roots,
            only_normal_dependencies,
        ).0);
    }
    while k < packages.len()
        invariant
            k <= packages.len(),
            roots == root_dependencies.deep_view(),
            dependencies.deep_view() == aggregate(
                packages.deep_view().take(k as int),
                roots,
                only_normal_dependencies,
            ).0,
            my_crate.deep_view() == aggregate(
                packages.deep_view().take(k as int),
                roots,
                only_normal_dependencies,
            ).1,
        decreases packages.len() - k,
    {
        let ghost pmodel = packages.deep_view()[k as int];
        let ghost dep_pre = dependencies.deep_view();
        let ghost my_pre = my_crate.deep_view();
        let package = &packages[k];
        let skip_it = only_normal_dependencies && root_has_non_normal(
            root_dependencies,
            &package.name,
        ) && !root_has_normal(root_dependencies, &package.name);
        if !skip_it {
            match &package.dir_entries {
                Some(entries) => {
                    let mut dependency = DependencyData::new(package);
                    dependency.get_license_notices(entries);
                    let ok = dependency.get_parse_licenses();
                    if ok {
                        proof {
                            assert(kept(pmodel, roots, only_normal_dependencies));
                            assert(dependency@ =~= record_of(pmodel));
                        }
                        if package.is_root {
                            my_crate = Some(dependency);
                        } else {
                            dependencies.push(dependency);
                            proof {
                                assert(dependencies.deep_view() =~= dep_pre.push(
                                    record_of(pmodel),
                                ));
                            }
                        }
                    }
                },
                None => {},
            }
        }
        proof {
            let taken = packages.deep_view().take(k + 1);
            assert(taken.drop_last() =~= packages.deep_view().take(k as int));
            assert(taken.last() == pmodel);
        }
        k = k + 1;
    }
    proof {
        assert(packages.deep_view().take(packages.deep_view().len() as int)
            =~= packages.deep_view());
    }
    (dependencies, my_crate)
}

/// Aggregation is deterministic: against the same package graph, the same
/// root edges and the same filter flag, any two outcomes that satisfy the
/// aggregator's contract are identical — record for record, in the same
/// order, with the same identifier sets.
pub proof fn lemma_aggregation_deterministic(
    pkgs: Seq<PackageModel>,
    roots: Seq<RootDependencyModel>,
    only_normal: bool,
    r1: (Seq<DependencyModel>, Option<DependencyModel>),
    r2: (Seq<DependencyModel>, Option<DependencyModel>),
)
    requires
        r1 == aggregate(pkgs, roots, only_normal),
        r2 == aggregate(pkgs, roots, only_normal),
    ensures
        r1 == r2,
{
}

/// Clones an optional string.
fn clone_opt(o: &Option<String>) -> (r: Option<String>)
    ensures
        r.deep_view() == o.deep_view(),
{
    match o {
        Some(s) => Some(s.clone()),
        None => None,
    }
}

/// Clones a vector of strings.
pub(crate) fn clone_strings(v: &Vec<String>) -> (r: Vec<String>)
    ensures
        r.deep_view() == v.deep_view(),
{
    let mut r: Vec<String> = Vec::new();
    let mut i: usize = 0;
    while i < v.len()
        invariant
            i <= v.len(),
            r.deep_view() == v.deep_view().subrange(0, i as int),
        decreases v.len() - i,
    {
        let ghost pre = r.deep_view();
        r.push(v[i].clone());
        proof {
            assert(r.deep_view() =~= pre.push(v@[i as int]@));
            assert(r.deep_view() =~= v.deep_view().subrange(0, i + 1));
        }
        i = i + 1;
    }
    proof {
        assert(v.deep_view().subrange(0, v.deep_view().len() as int) =~= v.deep_view());
    }
    r
}

} // verus!
