//! The package registry: manifests, discovered package specifications, and
//! the dependency-closure computation over them.
//!
//! The registry is modelled as a sequence of package specifications with
//! distinct names. Dependency edges lead from a package to each entry of its
//! manifest's `depends` table (and `build_depends` when build-time edges are
//! requested); a node in the Debian namespace is a leaf, and a node in a
//! managed namespace resolves through its package manager's specification.

use vstd::prelude::*;
use crate::error::{Error, ErrorKind};
use crate::names::{
    FullPackageName, NamespaceView, PackageName, PackageNamespace, valid_name, valid_package_name,
};
use crate::paths::HostPath;
use crate::text::{concat2, concat3, str_equal};

verus! {

/// The views of a sequence of fully-qualified package names.
pub open spec fn views_of(v: Seq<FullPackageName>) -> Seq<(NamespaceView, Seq<char>)> {
    v.map_values(|p: FullPackageName| p@)
}

/// View-level well-formedness of a fully-qualified package name.
pub open spec fn wf_full(p: (NamespaceView, Seq<char>)) -> bool {
    &&& valid_package_name(p.1)
    &&& match p.0 {
        NamespaceView::Root => true,
        NamespaceView::Debian => true,
        NamespaceView::Managed(m) => valid_name(m) && m != "cubicle"@ && m != "debian"@,
    }
}

/// The parts of a package manifest that the registry consumes.
#[derive(Debug)]
pub struct Manifest {
    /// Whether this package acts as a package manager for a namespace.
    pub package_manager: bool,
    /// Run-time dependencies.
    pub depends: Vec<FullPackageName>,
    /// Additional build-time-only dependencies.
    pub build_depends: Vec<FullPackageName>,
}

/// The mathematical model of a [`Manifest`].
#[verifier::ext_equal]
pub struct ManifestView {
    /// Model of the `package_manager` flag.
    pub package_manager: bool,
    /// Models of the run-time dependencies.
    pub depends: Seq<(NamespaceView, Seq<char>)>,
    /// Models of the build-time-only dependencies.
    pub build_depends: Seq<(NamespaceView, Seq<char>)>,
}

impl View for Manifest {
    type V = ManifestView;

    open spec fn view(&self) -> ManifestView {
        ManifestView {
            package_manager: self.package_manager,
            depends: views_of(self.depends@),
            build_depends: views_of(self.build_depends@),
        }
    }
}

impl Clone for Manifest {
    fn clone(&self) -> (r: Self)
        ensures
            r@ == self@,
    {
        let r = Manifest {
            package_manager: self.package_manager,
            depends: clone_names(&self.depends),
            build_depends: clone_names(&self.build_depends),
        };
        proof {
            assert(r@.depends =~= self@.depends);
            assert(r@.build_depends =~= self@.build_depends);
        }
        r
    }
}

/// An element-wise copy of a list of names.
pub fn clone_names(v: &Vec<FullPackageName>) -> (r: Vec<FullPackageName>)
    ensures
        views_of(r@) =~= views_of(v@),
{
    let mut out: Vec<FullPackageName> = Vec::new();
    let mut i: usize = 0;
    while i < v.len()
        invariant
            i <= v@.len(),
            out@.len() == i,
            forall|k: int| 0 <= k < i ==> out@[k]@ == v@[k]@,
        decreases v@.len() - i,
    {
        out.push(v[i].clone());
        i += 1;
    }
    proof {
        assert forall|k: int| 0 <= k < v@.len() implies views_of(out@)[k] == views_of(v@)[k] by {
            assert(views_of(out@)[k] == out@[k]@);
            assert(views_of(v@)[k] == v@[k]@);
        }
    }
    out
}

/// Information about a package's source files.
#[derive(Debug)]
pub struct PackageSpec {
    /// The package's name (the key it was discovered under).
    pub name: PackageName,
    /// The parsed `package.toml`.
    pub manifest: Manifest,
    /// The source directory on the host.
    pub dir: HostPath,
    /// Where the sources came from: `built-in`, or a grouping directory name.
    pub origin: String,
    /// The update script's relative invocation, when `update.sh` is present.
    pub update: Option<String>,
    /// The test script's relative invocation, when `test.sh` is present.
    pub test: Option<String>,
    /// When anything under the source directory was last modified.
    pub last_modified: u64,
}

/// The mathematical model of a [`PackageSpec`].
#[verifier::ext_equal]
pub struct PackageSpecView {
    /// Model of the package name.
    pub name: Seq<char>,
    /// Model of the manifest.
    pub manifest: ManifestView,
    /// Model of the source directory path.
    pub dir: Seq<char>,
    /// Model of the origin tag.
    pub origin: Seq<char>,
    /// Model of the optional update script.
    pub update: Option<Seq<char>>,
    /// Model of the optional test script.
    pub test: Option<Seq<char>>,
    /// Model of the source tree's last modification time.
    pub last_modified: u64,
}

impl View for PackageSpec {
    type V = PackageSpecView;

    open spec fn view(&self) -> PackageSpecView {
        PackageSpecView {
            name: self.name@,
            manifest: self.manifest@,
            dir: self.dir@,
            origin: self.origin@,
            update: match self.update {
                Some(ref s) => Some(s@),
                None => None,
            },
            test: match self.test {
                Some(ref s) => Some(s@),
                None => None,
            },
            last_modified: self.last_modified,
        }
    }
}

/// Information about all available package sources, keyed by package name.
///
/// The entries carry distinct names; lookups find the single entry with the
/// given name.
#[derive(Debug)]
pub struct PackageSpecs {
    /// The discovered specifications, in discovery order.
    pub entries: Vec<PackageSpec>,
}

impl View for PackageSpecs {
    type V = Seq<PackageSpecView>;

    open spec fn view(&self) -> Seq<PackageSpecView> {
        self.entries@.map_values(|s: PackageSpec| s@)
    }
}

/// Well-formedness of a registry model: distinct names, all names and
/// dependency entries valid.
pub open spec fn specs_wf(sv: Seq<PackageSpecView>) -> bool {
    &&& forall|i: int, j: int| 0 <= i < j < sv.len() ==> sv[i].name != sv[j].name
    &&& forall|i: int| 0 <= i < sv.len() ==> valid_package_name(#[trigger] sv[i].name)
    &&& forall|i: int, k: int|
        0 <= i < sv.len() && 0 <= k < sv[i].manifest.depends.len() ==> wf_full(
            #[trigger] sv[i].manifest.depends[k],
        )
    &&& forall|i: int, k: int|
        0 <= i < sv.len() && 0 <= k < sv[i].manifest.build_depends.len() ==> wf_full(
            #[trigger] sv[i].manifest.build_depends[k],
        )
}

/// The first specification with the given name, if any.
pub open spec fn find_spec(sv: Seq<PackageSpecView>, name: Seq<char>) -> Option<PackageSpecView>
    decreases sv.len(),
{
    if sv.len() == 0 {
        None
    } else if sv[0].name == name {
        Some(sv[0])
    } else {
        find_spec(sv.drop_first(), name)
    }
}

/// Skipping entries whose names differ does not change the lookup.
proof fn lemma_find_spec_skip(sv: Seq<PackageSpecView>, name: Seq<char>, i: int)
    requires
        0 <= i <= sv.len(),
        forall|k: int| 0 <= k < i ==> sv[k].name != name,
    ensures
        find_spec(sv, name) == find_spec(sv.skip(i), name),
    decreases i,
{
    if i > 0 {
        assert(sv.len() > 0 && sv[0].name != name);
        lemma_find_spec_skip(sv.drop_first(), name, i - 1);
        assert(sv.drop_first().skip(i - 1) =~= sv.skip(i));
    } else {
        assert(sv.skip(0) =~= sv);
    }
}

/// A found specification is one of the entries.
pub proof fn lemma_find_spec_member(sv: Seq<PackageSpecView>, name: Seq<char>)
    ensures
        find_spec(sv, name) matches Some(s) ==> sv.contains(s) && s.name == name,
    decreases sv.len(),
{
    if sv.len() > 0 && sv[0].name != name {
        lemma_find_spec_member(sv.drop_first(), name);
        if find_spec(sv, name) is Some {
            let s = find_spec(sv, name)->Some_0;
            assert(sv.drop_first().contains(s));
            let j = choose|j: int| 0 <= j < sv.drop_first().len() && sv.drop_first()[j] == s;
            assert(sv[j + 1] == s);
        }
    }
}

impl PackageSpecs {
    /// An empty registry.
    pub fn new() -> (r: PackageSpecs)
        ensures
            r@ =~= Seq::<PackageSpecView>::empty(),
    {
        PackageSpecs { entries: Vec::new() }
    }

    /// Looks up the specification for a package name.
    pub fn get(&self, name: &str) -> (r: Option<&PackageSpec>)
        ensures
            match r {
                Some(s) => find_spec(self@, name@) == Some(s@),
                None => find_spec(self@, name@) is None,
            },
    {
        let mut i: usize = 0;
        while i < self.entries.len()
            invariant
                i <= self.entries@.len(),
                forall|k: int| 0 <= k < i ==> #[trigger] self.entries@[k]@.name != name@,
            decreases self.entries@.len() - i,
        {
            if str_equal(self.entries[i].name.as_str(), name) {
                proof {
                    lemma_find_spec_skip(self@, name@, i as int);
                    assert(self@.skip(i as int)[0] == self@[i as int]);
                }
                return Some(&self.entries[i]);
            }
            i += 1;
        }
        proof {
            lemma_find_spec_skip(self@, name@, self@.len() as int);
            assert(self@.skip(self@.len() as int) =~= Seq::<PackageSpecView>::empty());
        }
        None
    }

    /// Whether the registry holds a specification under this name.
    pub fn contains_name(&self, name: &str) -> (r: bool)
        ensures
            r == (find_spec(self@, name@) is Some),
    {
        self.get(name).is_some()
    }
}

/// The dependency entries of one specification, with build-time edges when
/// `build` is set.
pub open spec fn deps_of_spec(s: PackageSpecView, build: bool) -> Seq<(NamespaceView, Seq<char>)> {
    if build {
        s.manifest.depends + s.manifest.build_depends
    } else {
        s.manifest.depends
    }
}

/// The specification a node resolves through: its own for a root package,
/// its manager's for a managed package, none for a Debian package.
pub open spec fn spec_of(sv: Seq<PackageSpecView>, p: (NamespaceView, Seq<char>)) -> Option<
    PackageSpecView,
> {
    match p.0 {
        NamespaceView::Root => find_spec(sv, p.1),
        NamespaceView::Managed(m) => find_spec(sv, m),
        NamespaceView::Debian => None,
    }
}

/// Whether a node can be visited: Debian nodes always; root nodes when their
/// specification exists; managed nodes when the manager exists and is marked
/// as a package manager.
pub open spec fn resolvable(sv: Seq<PackageSpecView>, p: (NamespaceView, Seq<char>)) -> bool {
    match p.0 {
        NamespaceView::Debian => true,
        NamespaceView::Root => find_spec(sv, p.1) is Some,
        NamespaceView::Managed(m) => match find_spec(sv, m) {
            Some(s) => s.manifest.package_manager,
            None => false,
        },
    }
}

/// The dependency edges out of a node. Debian nodes and unresolvable nodes
/// have none.
pub open spec fn direct_deps(sv: Seq<PackageSpecView>, build: bool, p: (NamespaceView, Seq<char>))
    -> Seq<(NamespaceView, Seq<char>)> {
    if p.0 is Debian || !resolvable(sv, p) || spec_of(sv, p) is None {
        Seq::empty()
    } else {
        deps_of_spec(spec_of(sv, p)->Some_0, build)
    }
}

/// One dependency edge.
pub open spec fn dep_edge(
    sv: Seq<PackageSpecView>,
    build: bool,
    p: (NamespaceView, Seq<char>),
    q: (NamespaceView, Seq<char>),
) -> bool {
    direct_deps(sv, build, p).contains(q)
}

/// Reachability from `roots` in at most `n` steps.
pub open spec fn reaches_n(
    sv: Seq<PackageSpecView>,
    build: bool,
    roots: Set<(NamespaceView, Seq<char>)>,
    q: (NamespaceView, Seq<char>),
    n: nat,
) -> bool
    decreases n,
{
    ||| roots.contains(q)
    ||| (n > 0 && exists|p: (NamespaceView, Seq<char>)|
        reaches_n(sv, build, roots, p, (n - 1) as nat) && #[trigger] dep_edge(sv, build, p, q))
}

/// Reachability from `roots` along dependency edges.
pub open spec fn reaches(
    sv: Seq<PackageSpecView>,
    build: bool,
    roots: Set<(NamespaceView, Seq<char>)>,
    q: (NamespaceView, Seq<char>),
) -> bool {
    exists|n: nat| reaches_n(sv, build, roots, q, n)
}

/// Every set that contains the roots and is closed under dependency edges
/// contains everything reachable.
proof fn lemma_reaches_in_closed_set(
    sv: Seq<PackageSpecView>,
    build: bool,
    roots: Set<(NamespaceView, Seq<char>)>,
    s: Set<(NamespaceView, Seq<char>)>,
    q: (NamespaceView, Seq<char>),
    n: nat,
)
    requires
        roots.subset_of(s),
        forall|p: (NamespaceView, Seq<char>), d: (NamespaceView, Seq<char>)|
            s.contains(p) && #[trigger] dep_edge(sv, build, p, d) ==> s.contains(d),
        reaches_n(sv, build, roots, q, n),
    ensures
        s.contains(q),
    decreases n,
{
    if !roots.contains(q) {
        let p = choose|p: (NamespaceView, Seq<char>)|
            reaches_n(sv, build, roots, p, (n - 1) as nat) && #[trigger] dep_edge(
                sv,
                build,
                p,
                q,
            );
        lemma_reaches_in_closed_set(sv, build, roots, s, p, (n - 1) as nat);
    }
}

/// All dependency entries of all specifications, flattened.
pub open spec fn flat_deps(sv: Seq<PackageSpecView>, build: bool) -> Seq<
    (NamespaceView, Seq<char>),
>
    decreases sv.len(),
{
    if sv.len() == 0 {
        Seq::empty()
    } else {
        deps_of_spec(sv[0], build) + flat_deps(sv.drop_first(), build)
    }
}

/// A dependency of a member specification occurs in the flattened list.
proof fn lemma_flat_deps_member(
    sv: Seq<PackageSpecView>,
    build: bool,
    s: PackageSpecView,
    d: (NamespaceView, Seq<char>),
)
    requires
        sv.contains(s),
        deps_of_spec(s, build).contains(d),
    ensures
        flat_deps(sv, build).contains(d),
    decreases sv.len(),
{
    let i = choose|i: int| 0 <= i < sv.len() && sv[i] == s;
    if i == 0 {
        let j = choose|j: int| 0 <= j < deps_of_spec(s, build).len() && deps_of_spec(s, build)[j]
            == d;
        assert(flat_deps(sv, build)[j] == d);
    } else {
        assert(sv.drop_first().contains(s)) by {
            assert(sv.drop_first()[i - 1] == s);
        }
        lemma_flat_deps_member(sv.drop_first(), build, s, d);
        let j = choose|j: int|
            0 <= j < flat_deps(sv.drop_first(), build).len() && flat_deps(sv.drop_first(), build)[j]
                == d;
        assert(flat_deps(sv, build)[deps_of_spec(sv[0], build).len() + j] == d);
    }
}

/// One step of reachability: a dependency of a reachable node is reachable.
pub proof fn lemma_reaches_step(
    sv: Seq<PackageSpecView>,
    build: bool,
    roots: Set<(NamespaceView, Seq<char>)>,
    p: (NamespaceView, Seq<char>),
    q: (NamespaceView, Seq<char>),
)
    requires
        reaches(sv, build, roots, p),
        dep_edge(sv, build, p, q),
    ensures
        reaches(sv, build, roots, q),
{
    let n = choose|n: nat| reaches_n(sv, build, roots, p, n);
    assert(reaches_n(sv, build, roots, q, n + 1)) by {
        assert(reaches_n(sv, build, roots, p, n) && dep_edge(sv, build, p, q));
    }
}

/// A dependency edge without build-time edges is one with them.
proof fn lemma_dep_edge_mono(
    sv: Seq<PackageSpecView>,
    p: (NamespaceView, Seq<char>),
    q: (NamespaceView, Seq<char>),
)
    requires
        dep_edge(sv, false, p, q),
    ensures
        dep_edge(sv, true, p, q),
{
    let d1 = direct_deps(sv, false, p);
    let d2 = direct_deps(sv, true, p);
    let k = choose|k: int| 0 <= k < d1.len() && d1[k] == q;
    assert(d2[k] == q);
}

/// Whatever is reachable without build-time edges is reachable with them.
pub proof fn lemma_reaches_mono_build(
    sv: Seq<PackageSpecView>,
    roots: Set<(NamespaceView, Seq<char>)>,
    q: (NamespaceView, Seq<char>),
)
    requires
        reaches(sv, false, roots, q),
    ensures
        reaches(sv, true, roots, q),
{
    let n = choose|n: nat| reaches_n(sv, false, roots, q, n);
    lemma_reaches_n_mono_build(sv, roots, q, n);
}

proof fn lemma_reaches_n_mono_build(
    sv: Seq<PackageSpecView>,
    roots: Set<(NamespaceView, Seq<char>)>,
    q: (NamespaceView, Seq<char>),
    n: nat,
)
    requires
        reaches_n(sv, false, roots, q, n),
    ensures
        reaches_n(sv, true, roots, q, n),
    decreases n,
{
    if !roots.contains(q) {
        let p = choose|p: (NamespaceView, Seq<char>)|
            reaches_n(sv, false, roots, p, (n - 1) as nat) && #[trigger] dep_edge(sv, false, p, q);
        lemma_reaches_n_mono_build(sv, roots, p, (n - 1) as nat);
        lemma_dep_edge_mono(sv, p, q);
        assert(reaches_n(sv, true, roots, p, (n - 1) as nat) && dep_edge(sv, true, p, q));
    }
}

/// Whatever is reachable from a subset of the roots is reachable from all of
/// them.
pub proof fn lemma_reaches_roots_subset(
    sv: Seq<PackageSpecView>,
    build: bool,
    roots1: Set<(NamespaceView, Seq<char>)>,
    roots2: Set<(NamespaceView, Seq<char>)>,
    q: (NamespaceView, Seq<char>),
)
    requires
        roots1.subset_of(roots2),
        reaches(sv, build, roots1, q),
    ensures
        reaches(sv, build, roots2, q),
{
    let n = choose|n: nat| reaches_n(sv, build, roots1, q, n);
    lemma_reaches_n_roots_subset(sv, build, roots1, roots2, q, n);
}

proof fn lemma_reaches_n_roots_subset(
    sv: Seq<PackageSpecView>,
    build: bool,
    roots1: Set<(NamespaceView, Seq<char>)>,
    roots2: Set<(NamespaceView, Seq<char>)>,
    q: (NamespaceView, Seq<char>),
    n: nat,
)
    requires
        roots1.subset_of(roots2),
        reaches_n(sv, build, roots1, q, n),
    ensures
        reaches_n(sv, build, roots2, q, n),
    decreases n,
{
    if !roots1.contains(q) {
        let p = choose|p: (NamespaceView, Seq<char>)|
            reaches_n(sv, build, roots1, p, (n - 1) as nat) && #[trigger] dep_edge(sv, build, p, q);
        lemma_reaches_n_roots_subset(sv, build, roots1, roots2, p, (n - 1) as nat);
        assert(reaches_n(sv, build, roots2, p, (n - 1) as nat) && dep_edge(sv, build, p, q));
    }
}

/// Reachability composes: whatever is reachable from nodes that are all
/// reachable from `roots` is reachable from `roots`.
pub proof fn lemma_reaches_compose(
    sv: Seq<PackageSpecView>,
    build: bool,
    roots: Set<(NamespaceView, Seq<char>)>,
    mids: Set<(NamespaceView, Seq<char>)>,
    q: (NamespaceView, Seq<char>),
)
    requires
        forall|s: (NamespaceView, Seq<char>)|
            mids.contains(s) ==> #[trigger] reaches(sv, build, roots, s),
        reaches(sv, build, mids, q),
    ensures
        reaches(sv, build, roots, q),
{
    let n = choose|n: nat| reaches_n(sv, build, mids, q, n);
    lemma_reaches_n_compose(sv, build, roots, mids, q, n);
}

proof fn lemma_reaches_n_compose(
    sv: Seq<PackageSpecView>,
    build: bool,
    roots: Set<(NamespaceView, Seq<char>)>,
    mids: Set<(NamespaceView, Seq<char>)>,
    q: (NamespaceView, Seq<char>),
    n: nat,
)
    requires
        forall|s: (NamespaceView, Seq<char>)|
            mids.contains(s) ==> #[trigger] reaches(sv, build, roots, s),
        reaches_n(sv, build, mids, q, n),
    ensures
        reaches(sv, build, roots, q),
    decreases n,
{
    if mids.contains(q) {
        assert(reaches(sv, build, roots, q));
    } else {
        let p = choose|p: (NamespaceView, Seq<char>)|
            reaches_n(sv, build, mids, p, (n - 1) as nat) && #[trigger] dep_edge(sv, build, p, q);
        lemma_reaches_n_compose(sv, build, roots, mids, p, (n - 1) as nat);
        lemma_reaches_step(sv, build, roots, p, q);
    }
}

/// The names of the entries waiting on a traversal stack.
pub open spec fn stack_views(st: Seq<(FullPackageName, Option<FullPackageName>)>) -> Seq<
    (NamespaceView, Seq<char>),
> {
    st.map_values(|t: (FullPackageName, Option<FullPackageName>)| t.0@)
}

/// Appends one entry per dependency, sharing one parent, onto the stack.
fn push_dep_list(
    stack: &mut Vec<(FullPackageName, Option<FullPackageName>)>,
    deps: &Vec<FullPackageName>,
    parent: &FullPackageName,
)
    ensures
        final(stack)@.len() == old(stack)@.len() + deps@.len(),
        forall|k: int| 0 <= k < old(stack)@.len() ==> final(stack)@[k] == old(stack)@[k],
        forall|j: int|
            0 <= j < deps@.len() ==> (#[trigger] final(stack)@[old(stack)@.len() + j]).0@
                == deps@[j]@,
        forall|j: int|
            0 <= j < deps@.len() ==> ((#[trigger] final(stack)@[old(stack)@.len() + j]).1
                matches Some(pp) && pp@ == parent@),
{
    let mut i: usize = 0;
    while i < deps.len()
        invariant
            i <= deps@.len(),
            stack@.len() == old(stack)@.len() + i,
            forall|k: int| 0 <= k < old(stack)@.len() ==> stack@[k] == old(stack)@[k],
            forall|j: int|
                0 <= j < i ==> (#[trigger] stack@[old(stack)@.len() + j]).0@ == deps@[j]@,
            forall|j: int|
                0 <= j < i ==> ((#[trigger] stack@[old(stack)@.len() + j]).1 matches Some(pp)
                    && pp@ == parent@),
        decreases deps@.len() - i,
    {
        stack.push((deps[i].clone(), Some(parent.clone())));
        i += 1;
    }
}

/// The message body reporting that a reachable node has no specification:
/// a root package is named by its display name, a managed package by its
/// manager's name.
pub open spec fn missing_base_of(n: (NamespaceView, Seq<char>)) -> Seq<char> {
    if n.0 is Managed {
        "could not find package definition for "@ + "package manager "@ + n.0->Managed_0
    } else {
        "could not find package definition for "@ + crate::names::full_display_of(n)
    }
}

/// Whether `msg` reports a reachable unresolvable node: it names the
/// missing package (or its missing manager), and, when the node was reached
/// as a dependency, the package that needs it.
pub open spec fn missing_package_message(
    sv: Seq<PackageSpecView>,
    build: bool,
    roots: Set<(NamespaceView, Seq<char>)>,
    msg: Seq<char>,
) -> bool {
    exists|n: (NamespaceView, Seq<char>)| #[trigger]
        reaches(sv, build, roots, n) && !resolvable(sv, n) && (msg == missing_base_of(n) || (
        exists|p: (NamespaceView, Seq<char>)| #[trigger]
            dep_edge(sv, build, p, n) && reaches(sv, build, roots, p) && msg == missing_base_of(
                n,
            ) + ", needed by "@ + crate::names::full_display_of(p)))
}

/// Computes the transitive dependency closure of a set of packages.
///
/// The result holds exactly the nodes reachable from `packages` along
/// `depends` edges (and `build_depends` edges when requested), each once,
/// including the starting packages and any Debian leaves. It is an error
/// when a reachable node does not resolve: a root package without a
/// specification, a managed package whose manager is unknown, or a manager
/// not marked as a package manager.
pub fn transitive_depends(
    packages: &Vec<FullPackageName>,
    specs: &PackageSpecs,
    build_depends: bool,
) -> (r: Result<Vec<FullPackageName>, Error>)
    requires
        forall|k: int| 0 <= k < packages@.len() ==> wf_full(#[trigger] packages@[k]@),
        specs_wf(specs@),
    ensures
        r matches Ok(out) ==> {
            &&& views_of(out@).no_duplicates()
            &&& forall|q: (NamespaceView, Seq<char>)| #[trigger]
                views_of(out@).contains(q) <==> reaches(
                    specs@,
                    build_depends,
                    views_of(packages@).to_set(),
                    q,
                )
            &&& forall|k: int| 0 <= k < out@.len() ==> wf_full(#[trigger] out@[k]@)
        },
        r is Ok <==> (forall|q: (NamespaceView, Seq<char>)| #[trigger]
            reaches(specs@, build_depends, views_of(packages@).to_set(), q) ==> resolvable(
                specs@,
                q,
            )),
        r matches Err(e) ==> e.kind == ErrorKind::MissingObject || e.kind
            == ErrorKind::DependencyGraph,
        r matches Err(e) ==> ((e.kind == ErrorKind::MissingObject && e.message@.len()
            >= "could not find package definition for "@.len() && e.message@.take(
            "could not find package definition for "@.len() as int,
        ) == "could not find package definition for "@) || (e.kind == ErrorKind::DependencyGraph
            && (exists|m: Seq<char>| e.message@ == "package "@ + m
            + " is not a package manager"@))),
        r matches Err(e) ==> (e.kind == ErrorKind::MissingObject ==> missing_package_message(
            specs@,
            build_depends,
            views_of(packages@).to_set(),
            e.message@,
        )),
{
    let ghost sv = specs@;
    let ghost b = build_depends;
    let ghost roots = views_of(packages@).to_set();
    let ghost uni = views_of(packages@) + flat_deps(sv, b);

    let mut visited: Vec<FullPackageName> = Vec::new();
    let mut stack: Vec<(FullPackageName, Option<FullPackageName>)> = Vec::new();

    let mut i: usize = 0;
    while i < packages.len()
        invariant
            i <= packages@.len(),
            stack@.len() == i,
            forall|k: int| 0 <= k < i ==> (#[trigger] stack@[k]).0@ == packages@[k]@,
            forall|k: int| 0 <= k < i ==> (#[trigger] stack@[k]).1 is None,
        decreases packages@.len() - i,
    {
        stack.push((packages[i].clone(), None));
        i += 1;
    }

    proof {
        assert forall|k: int| 0 <= k < stack@.len() implies {
            &&& uni.contains(stack_views(stack@)[k])
            &&& reaches(sv, b, roots, stack_views(stack@)[k])
            &&& wf_full(stack_views(stack@)[k])
        } by {
            assert(stack_views(stack@)[k] == packages@[k]@);
            assert(uni[k] == packages@[k]@);
            assert(views_of(packages@)[k] == packages@[k]@);
            assert(roots.contains(packages@[k]@));
            assert(reaches_n(sv, b, roots, packages@[k]@, 0));
        }
        assert forall|q: (NamespaceView, Seq<char>)| roots.contains(q) implies views_of(
            visited@,
        ).contains(q) || stack_views(stack@).contains(q) by {
            let k = choose|k: int|
                0 <= k < views_of(packages@).len() && views_of(packages@)[k] == q;
            assert(stack_views(stack@)[k] == q);
        }
    }

    while stack.len() > 0
        invariant
            specs_wf(sv),
            sv == specs@,
            b == build_depends,
            roots == views_of(packages@).to_set(),
            uni == views_of(packages@) + flat_deps(sv, b),
            views_of(visited@).no_duplicates(),
            views_of(visited@).len() <= uni.len(),
            forall|k: int|
                0 <= k < visited@.len() ==> uni.contains(#[trigger] views_of(visited@)[k]),
            forall|k: int|
                0 <= k < visited@.len() ==> reaches(sv, b, roots, #[trigger] views_of(visited@)[k]),
            forall|k: int|
                0 <= k < visited@.len() ==> resolvable(sv, #[trigger] views_of(visited@)[k]),
            forall|k: int| 0 <= k < visited@.len() ==> wf_full(#[trigger] views_of(visited@)[k]),
            forall|k: int|
                0 <= k < stack@.len() ==> uni.contains(#[trigger] stack_views(stack@)[k]),
            forall|k: int|
                0 <= k < stack@.len() ==> reaches(sv, b, roots, #[trigger] stack_views(stack@)[k]),
            forall|k: int| 0 <= k < stack@.len() ==> wf_full(#[trigger] stack_views(stack@)[k]),
            forall|k: int|
                0 <= k < stack@.len() ==> ((#[trigger] stack@[k]).1 matches Some(par)
                    ==> dep_edge(sv, b, par@, stack@[k].0@) && reaches(sv, b, roots, par@)),
            forall|q: (NamespaceView, Seq<char>)| #[trigger]
                roots.contains(q) ==> views_of(visited@).contains(q) || stack_views(
                    stack@,
                ).contains(q),
            forall|j: int, d: (NamespaceView, Seq<char>)|
                0 <= j < visited@.len() && #[trigger] direct_deps(
                    sv,
                    b,
                    views_of(visited@)[j],
                ).contains(d) ==> views_of(visited@).contains(d) || stack_views(stack@).contains(
                    d,
                ),
        decreases uni.len() - views_of(visited@).len(), stack@.len(),
    {
        let ghost old_visited = visited@;
        let ghost old_stack = stack@;
        let popped = stack.pop().unwrap();
        let p = popped.0;
        let parent = popped.1;
        let ghost pv = p@;
        proof {
            assert(stack_views(old_stack)[old_stack.len() - 1] == pv);
            assert(reaches(sv, b, roots, pv));
            assert(wf_full(pv));
        }
        if !contains_full(&visited, &p) {
            let found: Result<Option<&PackageSpec>, Error> = match &p.0 {
                PackageNamespace::Debian => Ok(None),
                PackageNamespace::Root => {
                    match specs.get(p.1.as_str()) {
                        Some(s) => {
                            proof {
                                lemma_find_spec_member(sv, p.1@);
                            }
                            Ok(Some(s))
                        },
                        None => {
                            let base = concat2(
                                "could not find package definition for ",
                                p.unquoted().as_str(),
                            );
                            let msg = match &parent {
                                Some(other) => concat3(
                                    base.as_str(),
                                    ", needed by ",
                                    other.unquoted().as_str(),
                                ),
                                None => base,
                            };
                            Err(Error::new(ErrorKind::MissingObject, msg))
                        },
                    }
                },
                PackageNamespace::Managed(m) => {
                    match specs.get(m.as_str()) {
                        Some(s) => {
                            if s.manifest.package_manager {
                                proof {
                                    lemma_find_spec_member(sv, m@);
                                }
                                Ok(Some(s))
                            } else {
                                let msg = concat3(
                                    "package ",
                                    m.as_str(),
                                    " is not a package manager",
                                );
                                Err(Error::new(ErrorKind::DependencyGraph, msg))
                            }
                        },
                        None => {
                            let base = concat3(
                                "could not find package definition for ",
                                "package manager ",
                                m.as_str(),
                            );
                            let msg = match &parent {
                                Some(other) => concat3(
                                    base.as_str(),
                                    ", needed by ",
                                    other.unquoted().as_str(),
                                ),
                                None => base,
                            };
                            Err(Error::new(ErrorKind::MissingObject, msg))
                        },
                    }
                },
            };
            match found {
                Err(e) => {
                    proof {
                        if e.kind == ErrorKind::MissingObject {
                            assert(e.message@.take(
                                "could not find package definition for "@.len() as int,
                            ) =~= "could not find package definition for "@);
                        }
                        if e.kind == ErrorKind::DependencyGraph {
                            assert(e.message@ =~= "package "@ + pv.0->Managed_0
                                + " is not a package manager"@);
                            assert(exists|m2: Seq<char>|
                                e.message@ == "package "@ + m2 + " is not a package manager"@);
                        }
                        assert(!resolvable(sv, pv));
                        assert(!(forall|q: (NamespaceView, Seq<char>)| #[trigger]
                        reaches(sv, b, roots, q) ==> resolvable(sv, q))) by {
                            assert(reaches(sv, b, roots, pv) && !resolvable(sv, pv));
                        }
                    }
                    return Err(e);
                },
                Ok(spec_opt) => {
                    proof {
                        assert(resolvable(sv, pv));
                    }
                    let parent_for = p.clone();
                    visited.push(p);
                    proof {
                        assert(views_of(visited@) =~= views_of(old_visited).push(pv));
                        lemma_visited_push_facts(old_visited, pv, uni, sv, b, roots);
                        assert(views_of(visited@).len() <= uni.len()) by {
                            lemma_distinct_in_uni(views_of(visited@), uni);
                        }
                    }
                    match spec_opt {
                        None => {
                            proof {
                                assert(pv.0 is Debian);
                                assert(direct_deps(sv, b, pv) =~= Seq::<
                                    (NamespaceView, Seq<char>),
                                >::empty());
                            }
                        },
                        Some(spec) => {
                            proof {
                                assert(sv.contains(spec@));
                                assert(spec_of(sv, pv) == Some(spec@));
                                assert(direct_deps(sv, b, pv) == deps_of_spec(spec@, b));
                            }
                            let ghost stack_before = stack@;
                            push_dep_list(&mut stack, &spec.manifest.depends, &parent_for);
                            let ghost stack_mid = stack@;
                            if build_depends {
                                push_dep_list(
                                    &mut stack,
                                    &spec.manifest.build_depends,
                                    &parent_for,
                                );
                            }
                            proof {
                                let deps = deps_of_spec(spec@, b);
                                let d1 = spec@.manifest.depends.len() as int;
                                assert(stack@.len() == stack_before.len() + deps.len());
                                assert(stack_mid.len() == stack_before.len() + d1);
                                assert forall|j: int| 0 <= j < deps.len() implies (
                                #[trigger] stack@[stack_before.len() + j]).0@ == deps[j] by {
                                    if b && j >= d1 {
                                        assert(stack@[stack_mid.len() + (j - d1)].0@
                                            == spec.manifest.build_depends@[j - d1]@);
                                        assert(deps[j] == spec@.manifest.build_depends[j - d1]);
                                    } else {
                                        assert(stack_mid[stack_before.len() + j].0@
                                            == spec.manifest.depends@[j]@);
                                        assert(stack@[stack_before.len() + j]
                                            == stack_mid[stack_before.len() + j]);
                                        assert(deps[j] == spec@.manifest.depends[j]);
                                    }
                                }
                                assert(uni.skip(uni.len() - flat_deps(sv, b).len()) =~= flat_deps(
                                    sv,
                                    b,
                                ));
                                lemma_pushed_deps_facts(
                                    sv,
                                    b,
                                    roots,
                                    uni,
                                    spec@,
                                    pv,
                                    stack_before,
                                    stack@,
                                );
                                assert forall|k: int| 0 <= k < stack@.len() implies ((
                                #[trigger] stack@[k]).1 matches Some(par) ==> dep_edge(
                                    sv,
                                    b,
                                    par@,
                                    stack@[k].0@,
                                ) && reaches(sv, b, roots, par@)) by {
                                    if k < stack_before.len() {
                                        assert(stack@[k] == stack_before[k]);
                                        assert(stack_before[k] == old_stack[k]);
                                    } else {
                                        let j = k - stack_before.len();
                                        if b && j >= d1 {
                                            assert((stack@[stack_mid.len() + (j - d1)].1
                                                matches Some(pp) && pp@ == parent_for@));
                                        } else {
                                            assert((stack_mid[stack_before.len() + j].1
                                                matches Some(pp) && pp@ == parent_for@));
                                            assert(stack@[stack_before.len() + j]
                                                == stack_mid[stack_before.len() + j]);
                                        }
                                        assert(stack@[k].1 matches Some(pp2) && pp2@ == pv);
                                        assert(stack@[k].0@ == deps[j]);
                                        assert(dep_edge(sv, b, pv, deps[j])) by {
                                            assert(direct_deps(sv, b, pv)[j] == deps[j]);
                                        }
                                    }
                                }
                            }
                        },
                    }
                },
            }
        }
        proof {
            let vs2 = views_of(visited@);
            let st2 = stack@;
            assert(vs2.contains(pv));
            assert forall|k: int| 0 <= k < old_stack.len() - 1 implies st2[k] == old_stack[k]
                by {}
            assert forall|k: int| 0 <= k < st2.len() implies ((#[trigger] st2[k]).1
                matches Some(par) ==> dep_edge(sv, b, par@, st2[k].0@) && reaches(
                sv,
                b,
                roots,
                par@,
            )) by {
                if k < old_stack.len() - 1 {
                    assert(st2[k] == old_stack[k]);
                }
            }
            assert forall|k: int| 0 <= k < st2.len() implies {
                &&& uni.contains(#[trigger] stack_views(st2)[k])
                &&& reaches(sv, b, roots, stack_views(st2)[k])
                &&& wf_full(stack_views(st2)[k])
            } by {
                if k < old_stack.len() - 1 {
                    assert(st2[k] == old_stack[k]);
                    assert(stack_views(st2)[k] == stack_views(old_stack)[k]);
                } else {
                    assert(uni.contains(stack_views(st2)[k]));
                }
            }
            assert forall|q: (NamespaceView, Seq<char>)| views_of(old_visited).contains(
                q,
            ) implies vs2.contains(q) by {
                let k = choose|k: int|
                    0 <= k < views_of(old_visited).len() && views_of(old_visited)[k] == q;
                assert(vs2[k] == q);
            }
            assert forall|q: (NamespaceView, Seq<char>)| #[trigger]
                roots.contains(q) implies vs2.contains(q) || stack_views(st2).contains(q) by {
                assert(views_of(old_visited).contains(q) || stack_views(old_stack).contains(q));
                if !views_of(old_visited).contains(q) {
                    let k = choose|k: int|
                        0 <= k < stack_views(old_stack).len() && stack_views(old_stack)[k] == q;
                    if k < old_stack.len() - 1 {
                        assert(stack_views(st2)[k] == q);
                    } else {
                        assert(q == pv);
                    }
                }
            }
            assert forall|j: int, d: (NamespaceView, Seq<char>)|
                0 <= j < vs2.len() && #[trigger] direct_deps(sv, b, vs2[j]).contains(
                    d,
                ) implies vs2.contains(d) || stack_views(st2).contains(d) by {
                if j < old_visited.len() {
                    assert(vs2[j] == views_of(old_visited)[j]);
                    assert(views_of(old_visited).contains(d) || stack_views(old_stack).contains(
                        d,
                    ));
                    if !views_of(old_visited).contains(d) {
                        let k = choose|k: int|
                            0 <= k < stack_views(old_stack).len() && stack_views(old_stack)[k] == d;
                        if k < old_stack.len() - 1 {
                            assert(stack_views(st2)[k] == d);
                        } else {
                            assert(d == pv);
                        }
                    }
                } else {
                    assert(vs2[j] == pv);
                }
            }
        }
    }
    proof {
        let vs = views_of(visited@);
        assert forall|q: (NamespaceView, Seq<char>)| #[trigger]
            reaches(sv, b, roots, q) implies vs.contains(q) by {
            let n = choose|n: nat| reaches_n(sv, b, roots, q, n);
            lemma_reaches_in_closed_set(sv, b, roots, vs.to_set(), q, n);
            assert(vs.to_set().contains(q));
        }
        assert forall|q: (NamespaceView, Seq<char>)| #[trigger]
            reaches(sv, b, roots, q) implies resolvable(sv, q) by {
            assert(vs.contains(q));
            let k = choose|k: int| 0 <= k < vs.len() && vs[k] == q;
        }
        assert forall|q: (NamespaceView, Seq<char>)| #[trigger]
            vs.contains(q) implies reaches(sv, b, roots, q) by {
            let k = choose|k: int| 0 <= k < vs.len() && vs[k] == q;
        }
        assert forall|k: int| 0 <= k < visited@.len() implies wf_full(
            #[trigger] visited@[k]@,
        ) by {
            assert(views_of(visited@)[k] == visited@[k]@);
        }
    }
    Ok(visited)
}

/// Pushing an unvisited node onto the visited list keeps it duplicate-free,
/// inside the universe, reachable, and well-formed.
proof fn lemma_visited_push_facts(
    old_visited: Seq<FullPackageName>,
    pv: (NamespaceView, Seq<char>),
    uni: Seq<(NamespaceView, Seq<char>)>,
    sv: Seq<PackageSpecView>,
    b: bool,
    roots: Set<(NamespaceView, Seq<char>)>,
)
    requires
        views_of(old_visited).no_duplicates(),
        !views_of(old_visited).contains(pv),
    ensures
        views_of(old_visited).push(pv).no_duplicates(),
        forall|q: (NamespaceView, Seq<char>)| #[trigger]
            views_of(old_visited).push(pv).contains(q) <==> (views_of(old_visited).contains(q) || q
                == pv),
{
    let vs = views_of(old_visited);
    let vs2 = vs.push(pv);
    assert forall|i: int, j: int| 0 <= i < j < vs2.len() implies vs2[i] != vs2[j] by {
        if j == vs.len() {
            assert(vs2[j] == pv);
            assert(vs2[i] == vs[i]);
            assert(vs.contains(vs[i]));
        }
    }
    assert forall|q: (NamespaceView, Seq<char>)| #[trigger]
        vs2.contains(q) implies (vs.contains(q) || q == pv) by {
        let k = choose|k: int| 0 <= k < vs2.len() && vs2[k] == q;
        if k < vs.len() {
            assert(vs[k] == q);
        }
    }
    assert forall|q: (NamespaceView, Seq<char>)| vs.contains(q) || q == pv implies #[trigger]
        vs2.contains(q) by {
        if vs.contains(q) {
            let k = choose|k: int| 0 <= k < vs.len() && vs[k] == q;
            assert(vs2[k] == q);
        } else {
            assert(vs2[vs.len() as int] == q);
        }
    }
}

/// A duplicate-free sequence whose members all occur in `uni` is no longer
/// than `uni`.
proof fn lemma_distinct_in_uni(
    vs: Seq<(NamespaceView, Seq<char>)>,
    uni: Seq<(NamespaceView, Seq<char>)>,
)
    requires
        vs.no_duplicates(),
        forall|k: int| 0 <= k < vs.len() ==> uni.contains(#[trigger] vs[k]),
    ensures
        vs.len() <= uni.len(),
{
    vs.unique_seq_to_set();
    assert(vs.to_set().subset_of(uni.to_set())) by {
        assert forall|q: (NamespaceView, Seq<char>)| vs.to_set().contains(q) implies uni.to_set()
            .contains(q) by {
            let k = choose|k: int| 0 <= k < vs.len() && vs[k] == q;
        }
    }
    vstd::seq_lib::seq_to_set_is_finite(uni);
    vstd::set_lib::lemma_len_subset(vs.to_set(), uni.to_set());
    uni.lemma_cardinality_of_set();
}

/// After pushing a visited node's dependency entries, each of them is on the
/// stack, and every new stack entry is a dependency of that node: inside the
/// universe, reachable, and well-formed.
proof fn lemma_pushed_deps_facts(
    sv: Seq<PackageSpecView>,
    b: bool,
    roots: Set<(NamespaceView, Seq<char>)>,
    uni: Seq<(NamespaceView, Seq<char>)>,
    spec: PackageSpecView,
    pv: (NamespaceView, Seq<char>),
    stack_before: Seq<(FullPackageName, Option<FullPackageName>)>,
    stack_after: Seq<(FullPackageName, Option<FullPackageName>)>,
)
    requires
        specs_wf(sv),
        sv.contains(spec),
        reaches(sv, b, roots, pv),
        direct_deps(sv, b, pv) == deps_of_spec(spec, b),
        uni.len() >= flat_deps(sv, b).len(),
        uni.skip(uni.len() - flat_deps(sv, b).len()) == flat_deps(sv, b),
        stack_after.len() == stack_before.len() + deps_of_spec(spec, b).len(),
        forall|k: int| 0 <= k < stack_before.len() ==> stack_after[k] == stack_before[k],
        forall|j: int|
            0 <= j < deps_of_spec(spec, b).len() ==> (#[trigger] stack_after[stack_before.len()
                + j]).0@ == deps_of_spec(spec, b)[j],
    ensures
        forall|d: (NamespaceView, Seq<char>)| #[trigger]
            direct_deps(sv, b, pv).contains(d) ==> stack_views(stack_after).contains(d),
        forall|k: int|
            stack_before.len() <= k < stack_after.len() ==> {
                &&& uni.contains(#[trigger] stack_views(stack_after)[k])
                &&& reaches(sv, b, roots, stack_views(stack_after)[k])
                &&& wf_full(stack_views(stack_after)[k])
            },
{
    let deps = deps_of_spec(spec, b);
    assert forall|d: (NamespaceView, Seq<char>)| #[trigger]
        direct_deps(sv, b, pv).contains(d) implies stack_views(stack_after).contains(d) by {
        assert(deps.contains(d));
        let j = choose|j: int| 0 <= j < deps.len() && deps[j] == d;
        assert(stack_after[stack_before.len() + j].0@ == deps[j]);
        assert(stack_views(stack_after)[stack_before.len() + j] == d);
    }
    assert forall|k: int| stack_before.len() <= k < stack_after.len() implies {
        &&& uni.contains(#[trigger] stack_views(stack_after)[k])
        &&& reaches(sv, b, roots, stack_views(stack_after)[k])
        &&& wf_full(stack_views(stack_after)[k])
    } by {
        let j = k - stack_before.len();
        let d = deps[j];
        assert(stack_after[stack_before.len() + j].0@ == deps[j]);
        assert(stack_views(stack_after)[k] == d);
        assert(deps.contains(d));
        lemma_flat_deps_member(sv, b, spec, d);
        let fd = flat_deps(sv, b);
        let m = choose|m: int| 0 <= m < fd.len() && fd[m] == d;
        assert(uni[uni.len() - fd.len() + m] == d);
        assert(uni.contains(d));
        lemma_reaches_step(sv, b, roots, pv, d);
        assert(wf_full(d)) by {
            let i = choose|i: int| 0 <= i < sv.len() && sv[i] == spec;
            if b {
                if j < spec.manifest.depends.len() {
                    assert(sv[i].manifest.depends[j] == d);
                } else {
                    assert(sv[i].manifest.build_depends[j - spec.manifest.depends.len()] == d);
                }
            } else {
                assert(sv[i].manifest.depends[j] == d);
            }
        }
    }
}

/// A lookup that finds nothing means no entry bears the name.
pub proof fn lemma_find_spec_none(sv: Seq<PackageSpecView>, name: Seq<char>)
    requires
        find_spec(sv, name) is None,
    ensures
        forall|i: int| 0 <= i < sv.len() ==> sv[i].name != name,
    decreases sv.len(),
{
    if sv.len() > 0 {
        lemma_find_spec_none(sv.drop_first(), name);
        assert(forall|i: int| 1 <= i < sv.len() ==> sv[i] == sv.drop_first()[i - 1]);
    }
}

/// One package source directory as discovery reports it: its name, parsed
/// manifest, location, origin tag, which scripts are present, and when the
/// sources last changed.
#[derive(Debug)]
pub struct DiscoveredPackage {
    /// The directory name, as a package name.
    pub name: PackageName,
    /// The parsed `package.toml`.
    pub manifest: Manifest,
    /// The source directory on the host.
    pub dir: HostPath,
    /// `built-in`, or the grouping directory's name.
    pub origin: String,
    /// Whether `update.sh` is present.
    pub has_update: bool,
    /// Whether `test.sh` is present.
    pub has_test: bool,
    /// When anything under the source directory was last modified.
    pub last_modified: u64,
}

/// The implicitly-depended-on root package.
pub open spec fn auto_root() -> (NamespaceView, Seq<char>) {
    (NamespaceView::Root, "auto"@)
}

/// The specification a discovered package turns into: its manifest with the
/// implicit `auto` dependency appended (unless already present).
pub open spec fn spec_from_discovered(d: DiscoveredPackage) -> PackageSpecView {
    PackageSpecView {
        name: d.name@,
        manifest: ManifestView {
            package_manager: d.manifest@.package_manager,
            depends: if d.manifest@.depends.contains(auto_root()) {
                d.manifest@.depends
            } else {
                d.manifest@.depends.push(auto_root())
            },
            build_depends: d.manifest@.build_depends,
        },
        dir: d.dir@,
        origin: d.origin@,
        update: if d.has_update {
            Some("./update.sh"@)
        } else {
            None
        },
        test: if d.has_test {
            Some("./test.sh"@)
        } else {
            None
        },
        last_modified: d.last_modified,
    }
}

/// Folding discovery over a registry: each discovered package is appended
/// unless its name is already taken (the first occurrence wins).
pub open spec fn scan_fold(sv: Seq<PackageSpecView>, ds: Seq<DiscoveredPackage>) -> Seq<
    PackageSpecView,
>
    decreases ds.len(),
{
    if ds.len() == 0 {
        sv
    } else {
        let sv2 = if find_spec(sv, ds[0].name@) is Some {
            sv
        } else {
            sv.push(spec_from_discovered(ds[0]))
        };
        scan_fold(sv2, ds.drop_first())
    }
}

proof fn lemma_scan_fold_step(sv: Seq<PackageSpecView>, ds: Seq<DiscoveredPackage>, d: DiscoveredPackage)
    ensures
        scan_fold(sv, ds.push(d)) == scan_fold(
            scan_fold(sv, ds),
            Seq::<DiscoveredPackage>::empty().push(d),
        ),
    decreases ds.len(),
{
    if ds.len() == 0 {
        assert(ds.push(d).drop_first() =~= Seq::<DiscoveredPackage>::empty().push(d).drop_first());
        assert(ds.push(d)[0] == d);
        assert(Seq::<DiscoveredPackage>::empty().push(d)[0] == d);
        assert(ds.push(d).drop_first().len() == 0);
    } else {
        assert(ds.push(d)[0] == ds[0]);
        assert(ds.push(d).drop_first() =~= ds.drop_first().push(d));
        let sv2 = if find_spec(sv, ds[0].name@) is Some {
            sv
        } else {
            sv.push(spec_from_discovered(ds[0]))
        };
        lemma_scan_fold_step(sv2, ds.drop_first(), d);
    }
}

/// Discovers packages into the registry: each entry whose name is new is
/// appended, with the implicit `auto` dependency added to its manifest.
pub fn add_packages(packages: &mut PackageSpecs, discovered: Vec<DiscoveredPackage>)
    ensures
        final(packages)@ == scan_fold(old(packages)@, discovered@),
{
    let ghost ds = discovered@;
    let mut rest = discovered;
    let total: usize = rest.len();
    let mut i: usize = 0;
    while rest.len() > 0
        invariant
            i + rest@.len() == total,
            total == ds.len(),
            ds.take(i as int) + rest@ == ds,
            packages@ == scan_fold(old(packages)@, ds.take(i as int)),
        decreases rest@.len(),
    {
        let ghost old_rest = rest@;
        let ghost cur = packages@;
        let d = rest.remove(0);
        let ghost dv = d;
        proof {
            assert(rest@ =~= old_rest.drop_first());
            assert((ds.take(i as int) + old_rest)[i as int] == old_rest[0]);
            assert(dv == ds[i as int]);
            assert(ds.take(i + 1) =~= ds.take(i as int).push(dv));
            assert(ds.take(i + 1) + rest@ =~= ds);
            lemma_scan_fold_step(old(packages)@, ds.take(i as int), dv);
            let single = Seq::<DiscoveredPackage>::empty().push(dv);
            assert(single[0] == dv);
            assert(single.drop_first().len() == 0);
            let sv2 = if find_spec(cur, dv.name@) is Some {
                cur
            } else {
                cur.push(spec_from_discovered(dv))
            };
            assert(scan_fold(sv2, single.drop_first()) == sv2);
            assert(scan_fold(cur, single) == sv2);
        }
        if !packages.contains_name(d.name.as_str()) {
            let mut manifest = d.manifest;
            proof {
                reveal_strlit("auto");
                crate::names::lemma_trim_of_valid("auto"@);
                assert(valid_package_name("auto"@));
            }
            let auto_name = match PackageName::from_str("auto") {
                Ok(a) => a,
                Err(_) => {
                    proof {
                        assert(false);
                    }
                    return ;
                },
            };
            let auto = FullPackageName(PackageNamespace::Root, auto_name);
            proof {
                assert(auto@ == auto_root());
            }
            crate::sets::insert_name(&mut manifest.depends, auto);
            let spec = PackageSpec {
                name: d.name,
                manifest,
                dir: d.dir,
                origin: d.origin,
                update: if d.has_update {
                    Some(String::from_str("./update.sh"))
                } else {
                    None
                },
                test: if d.has_test {
                    Some(String::from_str("./test.sh"))
                } else {
                    None
                },
                last_modified: d.last_modified,
            };
            proof {
                reveal_strlit("./update.sh");
                reveal_strlit("./test.sh");
                assert(spec@.manifest.depends =~= spec_from_discovered(dv).manifest.depends);
                assert(spec@.manifest =~= spec_from_discovered(dv).manifest);
                assert(spec@ =~= spec_from_discovered(dv));
            }
            packages.entries.push(spec);
            proof {
                assert(packages@ =~= cur.push(spec_from_discovered(dv)));
            }
        }
        i += 1;
    }
    proof {
        assert(ds.take(total as int) =~= ds);
    }
}

/// Well-formedness of discovery output: valid names, well-formed dependency
/// entries.
pub open spec fn discovered_wf(ds: Seq<DiscoveredPackage>) -> bool {
    &&& forall|i: int| 0 <= i < ds.len() ==> valid_package_name((#[trigger] ds[i]).name@)
    &&& forall|i: int, k: int|
        0 <= i < ds.len() && 0 <= k < ds[i].manifest@.depends.len() ==> wf_full(
            #[trigger] ds[i].manifest@.depends[k],
        )
    &&& forall|i: int, k: int|
        0 <= i < ds.len() && 0 <= k < ds[i].manifest@.build_depends.len() ==> wf_full(
            #[trigger] ds[i].manifest@.build_depends[k],
        )
}

/// Folding well-formed discovery over a well-formed registry keeps it
/// well-formed, and every new entry's manifest lists the implicit `auto`
/// dependency.
proof fn lemma_scan_fold_wf(sv: Seq<PackageSpecView>, ds: Seq<DiscoveredPackage>)
    requires
        specs_wf(sv),
        discovered_wf(ds),
        forall|i: int|
            0 <= i < sv.len() ==> (#[trigger] sv[i]).manifest.depends.contains(auto_root()),
    ensures
        specs_wf(scan_fold(sv, ds)),
        forall|i: int|
            0 <= i < scan_fold(sv, ds).len() ==> (#[trigger] scan_fold(
                sv,
                ds,
            )[i]).manifest.depends.contains(auto_root()),
    decreases ds.len(),
{
    reveal_strlit("auto");
    if ds.len() > 0 {
        let d = ds[0];
        let sv2 = if find_spec(sv, d.name@) is Some {
            sv
        } else {
            sv.push(spec_from_discovered(d))
        };
        assert(specs_wf(sv2) && forall|i: int|
            0 <= i < sv2.len() ==> (#[trigger] sv2[i]).manifest.depends.contains(auto_root())) by {
            if find_spec(sv, d.name@) is None {
                lemma_find_spec_none(sv, d.name@);
                let e = spec_from_discovered(d);
                assert(valid_package_name(e.name));
                assert(e.manifest.depends.contains(auto_root())) by {
                    if !d.manifest@.depends.contains(auto_root()) {
                        assert(e.manifest.depends.last() == auto_root());
                    }
                }
                assert(wf_full(auto_root()));
                assert forall|k: int| 0 <= k < e.manifest.depends.len() implies wf_full(
                    #[trigger] e.manifest.depends[k],
                ) by {
                    if !d.manifest@.depends.contains(auto_root()) && k
                        == e.manifest.depends.len() - 1 {
                    } else {
                        assert(e.manifest.depends[k] == d.manifest@.depends[k]);
                    }
                }
                assert forall|i: int, j: int| 0 <= i < j < sv2.len() implies sv2[i].name
                    != sv2[j].name by {
                    if j == sv.len() {
                        assert(sv2[j].name == d.name@);
                    }
                }
            }
        }
        assert(discovered_wf(ds.drop_first())) by {
            assert(forall|i: int|
                0 <= i < ds.drop_first().len() ==> ds.drop_first()[i] == ds[i + 1]);
        }
        lemma_scan_fold_wf(sv2, ds.drop_first());
    }
}

/// What remains of a list of name views after dropping every occurrence of
/// one view, order kept.
pub open spec fn seq_remove_all(
    s: Seq<(NamespaceView, Seq<char>)>,
    x: (NamespaceView, Seq<char>),
) -> Seq<(NamespaceView, Seq<char>)>
    decreases s.len(),
{
    if s.len() == 0 {
        Seq::empty()
    } else if s[0] == x {
        seq_remove_all(s.drop_first(), x)
    } else {
        seq![s[0]] + seq_remove_all(s.drop_first(), x)
    }
}

proof fn lemma_seq_remove_all_push(
    s: Seq<(NamespaceView, Seq<char>)>,
    x: (NamespaceView, Seq<char>),
    y: (NamespaceView, Seq<char>),
)
    ensures
        seq_remove_all(s.push(y), x) == seq_remove_all(s, x) + (if y == x {
            Seq::<(NamespaceView, Seq<char>)>::empty()
        } else {
            seq![y]
        }),
    decreases s.len(),
{
    if s.len() == 0 {
        assert(s.push(y)[0] == y);
        assert(s.push(y).drop_first() =~= Seq::<(NamespaceView, Seq<char>)>::empty());
        assert(seq_remove_all(Seq::<(NamespaceView, Seq<char>)>::empty(), x) =~= Seq::<
            (NamespaceView, Seq<char>),
        >::empty());
        assert(seq_remove_all(s.push(y), x) =~= seq_remove_all(s, x) + (if y == x {
            Seq::<(NamespaceView, Seq<char>)>::empty()
        } else {
            seq![y]
        }));
    } else {
        assert(s.push(y)[0] == s[0]);
        assert(s.push(y).drop_first() =~= s.drop_first().push(y));
        lemma_seq_remove_all_push(s.drop_first(), x, y);
        assert(seq_remove_all(s.push(y), x) =~= seq_remove_all(s, x) + (if y == x {
            Seq::<(NamespaceView, Seq<char>)>::empty()
        } else {
            seq![y]
        }));
    }
}

/// Dropping every occurrence leaves nothing to drop.
pub proof fn lemma_seq_remove_all_idempotent(
    s: Seq<(NamespaceView, Seq<char>)>,
    x: (NamespaceView, Seq<char>),
)
    ensures
        seq_remove_all(seq_remove_all(s, x), x) == seq_remove_all(s, x),
    decreases s.len(),
{
    if s.len() > 0 {
        lemma_seq_remove_all_idempotent(s.drop_first(), x);
        if s[0] != x {
            let t = seq![s[0]] + seq_remove_all(s.drop_first(), x);
            assert(t[0] == s[0]);
            assert(t.drop_first() =~= seq_remove_all(s.drop_first(), x));
            assert(seq_remove_all(t, x) =~= seq![s[0]] + seq_remove_all(
                seq_remove_all(s.drop_first(), x),
                x,
            ));
        }
    }
}

/// Removes every entry with this view from a list of names.
pub fn remove_name(v: &mut Vec<FullPackageName>, x: &FullPackageName)
    ensures
        views_of(final(v)@) == seq_remove_all(views_of(old(v)@), x@),
        forall|q: (NamespaceView, Seq<char>)| #[trigger]
            views_of(final(v)@).contains(q) <==> (views_of(old(v)@).contains(q) && q != x@),
        forall|k: int| 0 <= k < final(v)@.len() ==> views_of(old(v)@).contains(
            #[trigger] views_of(final(v)@)[k],
        ),
{
    let mut out: Vec<FullPackageName> = Vec::new();
    let mut i: usize = 0;
    proof {
        assert(views_of(old(v)@).take(0) =~= Seq::<(NamespaceView, Seq<char>)>::empty());
        assert(seq_remove_all(Seq::<(NamespaceView, Seq<char>)>::empty(), x@) =~= Seq::<
            (NamespaceView, Seq<char>),
        >::empty());
        assert(views_of(out@) =~= Seq::<(NamespaceView, Seq<char>)>::empty());
    }
    while i < v.len()
        invariant
            i <= v@.len(),
            v@ == old(v)@,
            views_of(out@) == seq_remove_all(views_of(old(v)@).take(i as int), x@),
            forall|k: int|
                0 <= k < out@.len() ==> views_of(old(v)@).contains(
                    #[trigger] views_of(out@)[k],
                ) && views_of(out@)[k] != x@,
            forall|k: int|
                0 <= k < i && v@[k]@ != x@ ==> views_of(out@).contains(#[trigger] v@[k]@),
        decreases v@.len() - i,
    {
        proof {
            assert(views_of(v@).take(i + 1) =~= views_of(v@).take(i as int).push(
                views_of(v@)[i as int],
            ));
            lemma_seq_remove_all_push(views_of(v@).take(i as int), x@, views_of(v@)[i as int]);
            assert(views_of(v@)[i as int] == v@[i as int]@);
        }
        let keep = !v[i].eq(x);
        if keep {
            let ghost old_out = out@;
            out.push(v[i].clone());
            proof {
                assert(views_of(out@) =~= views_of(old_out).push(v@[i as int]@));
                assert(views_of(out@) =~= seq_remove_all(views_of(old(v)@).take(i + 1), x@));
                assert(views_of(v@).contains(v@[i as int]@)) by {
                    assert(views_of(v@)[i as int] == v@[i as int]@);
                }
                assert forall|k: int| 0 <= k < old_out.len() implies views_of(out@)[k]
                    == views_of(old_out)[k] by {}
                assert forall|q: (NamespaceView, Seq<char>)|
                    views_of(old_out).contains(q) implies #[trigger] views_of(out@).contains(
                    q,
                ) by {
                    let k = choose|k: int|
                        0 <= k < views_of(old_out).len() && views_of(old_out)[k] == q;
                    assert(views_of(out@)[k] == q);
                }
                assert(views_of(out@)[old_out.len() as int] == v@[i as int]@);
            }
        } else {
            proof {
                assert(views_of(out@) =~= seq_remove_all(views_of(old(v)@).take(i + 1), x@));
            }
        }
        i += 1;
    }
    proof {
        assert(views_of(old(v)@).take(old(v)@.len() as int) =~= views_of(old(v)@));
        assert forall|q: (NamespaceView, Seq<char>)|
            views_of(old(v)@).contains(q) && q != x@ implies #[trigger] views_of(out@).contains(
                q,
            ) by {
            let k = choose|k: int|
                0 <= k < views_of(old(v)@).len() && views_of(old(v)@)[k] == q;
            assert(old(v)@[k]@ == q);
        }
    }
    *v = out;
}

/// The registry-entry name a closure member resolves through, if any.
pub open spec fn key_of(q: (NamespaceView, Seq<char>)) -> Option<Seq<char>> {
    match q.0 {
        NamespaceView::Root => Some(q.1),
        NamespaceView::Managed(m) => Some(m),
        NamespaceView::Debian => None,
    }
}

/// Whether the build closure of the `auto` package touches the entry with
/// this name.
pub open spec fn auto_closure_hits(base: Seq<PackageSpecView>, name: Seq<char>) -> bool {
    exists|q: (NamespaceView, Seq<char>)|
        #[trigger] reaches(base, true, Set::empty().insert(auto_root()), q) && key_of(q) == Some(
            name,
        )
}

/// One entry of the scanned registry: the folded entry, with the implicit
/// `auto` dependency removed again when the entry is in `auto`'s own build
/// closure.
pub open spec fn scanned_entry_of(base: Seq<PackageSpecView>, i: int) -> PackageSpecView {
    PackageSpecView {
        manifest: ManifestView {
            depends: if auto_closure_hits(base, base[i].name) {
                seq_remove_all(base[i].manifest.depends, auto_root())
            } else {
                base[i].manifest.depends
            },
            ..base[i].manifest
        },
        ..base[i]
    }
}

/// The registry scanning produces, as a function of the discovery output.
pub open spec fn scanned_specs_of(ds: Seq<DiscoveredPackage>) -> Seq<PackageSpecView> {
    Seq::new(
        scan_fold(Seq::<PackageSpecView>::empty(), ds).len(),
        |i: int| scanned_entry_of(scan_fold(Seq::<PackageSpecView>::empty(), ds), i),
    )
}

/// Builds the registry from discovered package sources.
///
/// Packages are inserted first-come-first-served (a user package shadows a
/// built-in one of the same name), each with an implicit dependency on the
/// root package `auto`; that implicit edge is then removed again from every
/// package in `auto`'s own transitive build closure, so that no cycle forms.
/// The returned registry therefore lists `auto` as a dependency of an entry
/// exactly when the entry is outside that closure.
pub fn scan_packages_from(discovered: Vec<DiscoveredPackage>) -> (r: Result<PackageSpecs, Error>)
    requires
        discovered_wf(discovered@),
    ensures
        r matches Ok(specs) ==> {
            let base = scan_fold(Seq::<PackageSpecView>::empty(), discovered@);
            &&& specs_wf(specs@)
            &&& specs@.len() == base.len()
            &&& forall|i: int|
                0 <= i < base.len() ==> {
                    let e = #[trigger] specs@[i];
                    let be = base[i];
                    &&& e.name == be.name
                    &&& e.manifest.package_manager == be.manifest.package_manager
                    &&& e.manifest.build_depends == be.manifest.build_depends
                    &&& e.dir == be.dir
                    &&& e.origin == be.origin
                    &&& e.update == be.update
                    &&& e.test == be.test
                    &&& e.last_modified == be.last_modified
                }
            &&& forall|i: int, q: (NamespaceView, Seq<char>)|
                0 <= i < base.len() && q != auto_root() ==> (#[trigger] specs@[i].manifest.depends.contains(
                    q,
                ) <==> base[i].manifest.depends.contains(q))
            &&& forall|i: int|
                0 <= i < base.len() ==> ((#[trigger] specs@[i]).manifest.depends.contains(
                    auto_root(),
                ) <==> !auto_closure_hits(base, specs@[i].name))
            &&& specs@ == scanned_specs_of(discovered@)
        },
        r is Ok <==> (forall|q: (NamespaceView, Seq<char>)| #[trigger]
            reaches(
                scan_fold(Seq::<PackageSpecView>::empty(), discovered@),
                true,
                Set::empty().insert(auto_root()),
                q,
            ) ==> resolvable(scan_fold(Seq::<PackageSpecView>::empty(), discovered@), q)),
{
    let ghost ds = discovered@;
    let mut specs = PackageSpecs::new();
    add_packages(&mut specs, discovered);
    let ghost base = specs@;
    proof {
        assert(base == scan_fold(Seq::<PackageSpecView>::empty(), ds));
        lemma_scan_fold_wf(Seq::<PackageSpecView>::empty(), ds);
    }

    proof {
        reveal_strlit("auto");
        crate::names::lemma_trim_of_valid("auto"@);
    }
    let auto_name = match PackageName::from_str("auto") {
        Ok(a) => a,
        Err(e) => {
            proof {
                assert(false);
            }
            return Err(e);
        },
    };
    let auto = FullPackageName(PackageNamespace::Root, auto_name);
    let mut start: Vec<FullPackageName> = Vec::new();
    start.push(auto);
    proof {
        assert(views_of(start@) =~= Seq::<(NamespaceView, Seq<char>)>::empty().push(auto_root()));
        assert(views_of(start@).to_set() =~= Set::empty().insert(auto_root())) by {
            assert forall|q: (NamespaceView, Seq<char>)|
                views_of(start@).to_set().contains(q) implies Set::empty().insert(
                auto_root(),
            ).contains(q) by {
                assert(views_of(start@)[0] == auto_root());
            }
            assert(views_of(start@).contains(auto_root())) by {
                assert(views_of(start@)[0] == auto_root());
            }
        }
        assert(wf_full(auto_root()));
    }
    let auto_deps = match transitive_depends(&start, &specs, true) {
        Ok(deps) => deps,
        Err(e) => {
            return Err(e);
        },
    };

    let ghost closure = views_of(auto_deps@);
    let ghost aset = Set::empty().insert(auto_root());
    let mut i: usize = 0;
    while i < auto_deps.len()
        invariant
            specs_wf(base),
            specs@.len() == base.len(),
            forall|q: (NamespaceView, Seq<char>)| #[trigger]
                closure.contains(q) <==> reaches(base, true, aset, q),
            forall|q: (NamespaceView, Seq<char>)| #[trigger]
                reaches(base, true, aset, q) ==> resolvable(base, q),
            forall|j: int, k: int|
                0 <= j < specs@.len() && 0 <= k < specs@[j].manifest.depends.len() ==> wf_full(
                    #[trigger] specs@[j].manifest.depends[k],
                ),
            closure == views_of(auto_deps@),
            aset == Set::<(NamespaceView, Seq<char>)>::empty().insert(auto_root()),
            i <= auto_deps@.len(),
            forall|j: int|
                0 <= j < base.len() ==> {
                    let e = #[trigger] specs@[j];
                    let be = base[j];
                    &&& e.name == be.name
                    &&& e.manifest.package_manager == be.manifest.package_manager
                    &&& e.manifest.build_depends == be.manifest.build_depends
                    &&& e.dir == be.dir
                    &&& e.origin == be.origin
                    &&& e.update == be.update
                    &&& e.test == be.test
                    &&& e.last_modified == be.last_modified
                },
            forall|j: int, q: (NamespaceView, Seq<char>)|
                0 <= j < base.len() && q != auto_root() ==> (#[trigger] specs@[j].manifest.depends.contains(
                    q,
                ) <==> base[j].manifest.depends.contains(q)),
            forall|j: int|
                0 <= j < base.len() ==> ((#[trigger] specs@[j]).manifest.depends.contains(
                    auto_root(),
                ) <==> !hit_by_prefix(closure.take(i as int), specs@[j].name)),
            forall|j: int|
                0 <= j < base.len() ==> (#[trigger] specs@[j]).manifest.depends == (
                if hit_by_prefix(closure.take(i as int), base[j].name) {
                    seq_remove_all(base[j].manifest.depends, auto_root())
                } else {
                    base[j].manifest.depends
                }),
        decreases auto_deps@.len() - i,
    {
        let ghost old_specs = specs@;
        let member = &auto_deps[i];
        let key: Option<&PackageName> = match &member.0 {
            PackageNamespace::Debian => None,
            PackageNamespace::Root => Some(&member.1),
            PackageNamespace::Managed(m) => Some(m),
        };
        match key {
            None => {
                proof {
                    assert(key_of(closure[i as int]) is None);
                    lemma_hit_prefix_step(closure, i as int);
                    assert forall|j: int|
                        0 <= j < base.len() implies (#[trigger] specs@[j]).manifest.depends == (
                    if hit_by_prefix(closure.take(i + 1), base[j].name) {
                        seq_remove_all(base[j].manifest.depends, auto_root())
                    } else {
                        base[j].manifest.depends
                    }) by {}
                }
            },
            Some(keyname) => {
                let ghost kn = keyname@;
                let idx_opt = specs.index_of_name(keyname.as_str());
                match idx_opt {
                    Some(idx) => {
                        let ghost old_entries = specs.entries@;
                        let mut entry = specs.entries.remove(idx);
                        let auto_full = FullPackageName(PackageNamespace::Root, auto_name_clone());
                        proof {
                            assert(auto_full@ == auto_root());
                        }
                        remove_name(&mut entry.manifest.depends, &auto_full);
                        let ghost ev = entry@;
                        specs.entries.insert(idx, entry);
                        proof {
                            lemma_hit_prefix_step(closure, i as int);
                            assert(key_of(closure[i as int]) == Some(kn));
                            assert(specs@.len() == old_specs.len());
                            assert forall|j: int|
                                0 <= j < base.len() && j != idx implies #[trigger] specs@[j]
                                == old_specs[j] by {
                                if j < idx {
                                    assert(specs.entries@[j] == old_entries[j]);
                                } else {
                                    assert(specs.entries@[j] == old_entries.remove(idx as int)[j
                                        - 1]);
                                    assert(old_entries.remove(idx as int)[j - 1]
                                        == old_entries[j]);
                                }
                            }
                            assert(specs@[idx as int] == ev);
                            assert(ev.name == old_specs[idx as int].name);
                            assert(ev.manifest.package_manager == old_specs[
                                idx as int].manifest.package_manager);
                            assert(ev.manifest.build_depends == old_specs[
                                idx as int].manifest.build_depends);
                            assert(old_specs[idx as int].name == kn);
                            assert(!ev.manifest.depends.contains(auto_root()));
                            assert forall|q: (NamespaceView, Seq<char>)|
                                q != auto_root() implies (#[trigger] ev.manifest.depends.contains(
                                q,
                            ) <==> old_specs[idx as int].manifest.depends.contains(q)) by {}
                            assert forall|j: int|
                                0 <= j < base.len() && j != idx implies (#[trigger] specs@[j]).name
                                != kn by {
                                assert(specs@[j].name == base[j].name);
                                assert(base[idx as int].name == kn);
                            }
                            assert forall|k: int|
                                0 <= k < ev.manifest.depends.len() implies wf_full(
                                #[trigger] ev.manifest.depends[k],
                            ) by {
                                assert(views_of(old_entries[idx as int].manifest.depends@).contains(
                                    ev.manifest.depends[k],
                                ));
                                let k2 = choose|k2: int|
                                    0 <= k2 < old_specs[idx as int].manifest.depends.len()
                                        && old_specs[idx as int].manifest.depends[k2]
                                        == ev.manifest.depends[k];
                            }
                            assert(ev.manifest.depends == seq_remove_all(
                                old_specs[idx as int].manifest.depends,
                                auto_root(),
                            ));
                            assert forall|j: int|
                                0 <= j < base.len() implies (#[trigger] specs@[j]).manifest.depends
                                == (if hit_by_prefix(closure.take(i + 1), base[j].name) {
                                seq_remove_all(base[j].manifest.depends, auto_root())
                            } else {
                                base[j].manifest.depends
                            }) by {
                                if j == idx {
                                    assert(base[j].name == kn);
                                    assert(hit_by_prefix(closure.take(i + 1), kn));
                                    if hit_by_prefix(closure.take(i as int), kn) {
                                        lemma_seq_remove_all_idempotent(
                                            base[j].manifest.depends,
                                            auto_root(),
                                        );
                                    }
                                } else {
                                    assert(specs@[j] == old_specs[j]);
                                    assert(base[j].name != kn);
                                }
                            }
                        }
                    },
                    None => {
                        proof {
                            assert(closure.contains(closure[i as int])) by {
                                assert(0 <= i < closure.len());
                            }
                            assert(reaches(base, true, aset, closure[i as int]));
                            assert(resolvable(base, closure[i as int]));
                            assert(find_spec(base, kn) is Some);
                            lemma_find_spec_member(base, kn);
                            let s0 = find_spec(base, kn)->Some_0;
                            let j = choose|j: int| 0 <= j < base.len() && base[j] == s0;
                            assert(specs@[j].name == kn);
                            lemma_find_spec_none(specs@, kn);
                            assert(false);
                        }
                    },
                }
            },
        }
        i += 1;
    }
    proof {
        assert(closure.take(closure.len() as int) =~= closure);
        assert(specs_wf(specs@)) by {
            assert forall|i2: int, j2: int| 0 <= i2 < j2 < specs@.len() implies (
            #[trigger] specs@[i2]).name != (#[trigger] specs@[j2]).name by {
                assert(specs@[i2].name == base[i2].name);
                assert(specs@[j2].name == base[j2].name);
            }
            assert forall|i2: int| 0 <= i2 < specs@.len() implies valid_package_name(
                #[trigger] specs@[i2].name,
            ) by {
                assert(specs@[i2].name == base[i2].name);
            }
            assert forall|i2: int, k: int|
                0 <= i2 < specs@.len() && 0 <= k < specs@[i2].manifest.build_depends.len() implies
                wf_full(#[trigger] specs@[i2].manifest.build_depends[k]) by {
                assert(specs@[i2].manifest.build_depends == base[i2].manifest.build_depends);
            }
        }
        assert forall|j: int| 0 <= j < base.len() implies (hit_by_prefix(closure, specs@[j].name)
            <==> auto_closure_hits(base, specs@[j].name)) by {
            if hit_by_prefix(closure, specs@[j].name) {
                let k = choose|k: int|
                    0 <= k < closure.len() && key_of(#[trigger] closure[k]) == Some(
                        specs@[j].name,
                    );
                assert(closure.contains(closure[k]));
            }
            if auto_closure_hits(base, specs@[j].name) {
                let q = choose|q: (NamespaceView, Seq<char>)|
                    #[trigger] reaches(base, true, aset, q) && key_of(q) == Some(specs@[j].name);
                assert(closure.contains(q));
                let k = choose|k: int| 0 <= k < closure.len() && closure[k] == q;
                assert(key_of(closure[k]) == Some(specs@[j].name));
            }
        }
        assert(specs@ == scanned_specs_of(ds)) by {
            assert forall|j: int| 0 <= j < base.len() implies specs@[j] == scanned_entry_of(
                base,
                j,
            ) by {
                assert(specs@[j].name == base[j].name);
                assert(hit_by_prefix(closure, base[j].name) <==> auto_closure_hits(
                    base,
                    base[j].name,
                ));
                assert(specs@[j].manifest =~= scanned_entry_of(base, j).manifest);
                assert(specs@[j] =~= scanned_entry_of(base, j));
            }
            assert(specs@ =~= scanned_specs_of(ds));
        }
    }
    Ok(specs)
}

/// Whether a prefix of the closure listing names an entry with this name.
pub open spec fn hit_by_prefix(members: Seq<(NamespaceView, Seq<char>)>, name: Seq<char>) -> bool {
    exists|k: int| 0 <= k < members.len() && key_of(#[trigger] members[k]) == Some(name)
}

proof fn lemma_hit_prefix_step(members: Seq<(NamespaceView, Seq<char>)>, i: int)
    requires
        0 <= i < members.len(),
    ensures
        forall|name: Seq<char>|
            #[trigger] hit_by_prefix(members.take(i + 1), name) <==> (hit_by_prefix(
                members.take(i),
                name,
            ) || key_of(members[i]) == Some(name)),
{
    assert forall|name: Seq<char>|
        #[trigger] hit_by_prefix(members.take(i + 1), name) implies (hit_by_prefix(
        members.take(i),
        name,
    ) || key_of(members[i]) == Some(name)) by {
        let k = choose|k: int|
            0 <= k < members.take(i + 1).len() && key_of(#[trigger] members.take(i + 1)[k])
                == Some(name);
        if k < i {
            assert(key_of(members.take(i)[k]) == Some(name));
        } else {
            assert(members.take(i + 1)[k] == members[i]);
        }
    }
    assert forall|name: Seq<char>|
        (hit_by_prefix(members.take(i), name) || key_of(members[i]) == Some(
            name,
        )) implies #[trigger] hit_by_prefix(members.take(i + 1), name) by {
        if hit_by_prefix(members.take(i), name) {
            let k = choose|k: int|
                0 <= k < members.take(i).len() && key_of(#[trigger] members.take(i)[k]) == Some(
                    name,
                );
            assert(key_of(members.take(i + 1)[k]) == Some(name));
        } else {
            assert(key_of(members.take(i + 1)[i]) == Some(name));
        }
    }
}

fn auto_name_clone() -> (r: PackageName)
    ensures
        r@ == "auto"@,
        r.wf(),
{
    proof {
        reveal_strlit("auto");
        crate::names::lemma_trim_of_valid("auto"@);
    }
    match PackageName::from_str("auto") {
        Ok(a) => a,
        Err(_) => {
            proof {
                assert(false);
            }
            unreached()
        },
    }
}

impl PackageSpecs {
    /// The position of the entry with this name, if any.
    pub fn index_of_name(&self, name: &str) -> (r: Option<usize>)
        ensures
            match r {
                Some(i) => i < self@.len() && self@[i as int].name == name@,
                None => find_spec(self@, name@) is None,
            },
    {
        let mut i: usize = 0;
        while i < self.entries.len()
            invariant
                i <= self.entries@.len(),
                forall|k: int| 0 <= k < i ==> #[trigger] self.entries@[k]@.name != name@,
            decreases self.entries@.len() - i,
        {
            if str_equal(self.entries[i].name.as_str(), name) {
                return Some(i);
            }
            i += 1;
        }
        proof {
            lemma_find_spec_skip(self@, name@, self@.len() as int);
            assert(self@.skip(self@.len() as int) =~= Seq::<PackageSpecView>::empty());
        }
        None
    }
}

/// Whether a list of names holds one with this view.
pub fn contains_full(v: &Vec<FullPackageName>, p: &FullPackageName) -> (r: bool)
    ensures
        r == views_of(v@).contains(p@),
{
    let mut i: usize = 0;
    while i < v.len()
        invariant
            i <= v@.len(),
            forall|k: int| 0 <= k < i ==> v@[k]@ != p@,
        decreases v@.len() - i,
    {
        if v[i].eq(p) {
            proof {
                assert(views_of(v@)[i as int] == p@);
            }
            return true;
        }
        i += 1;
    }
    proof {
        if views_of(v@).contains(p@) {
            let k = choose|k: int| 0 <= k < views_of(v@).len() && views_of(v@)[k] == p@;
            assert(v@[k]@ == p@);
        }
    }
    false
}

/// The views of a sequence of package names.
pub open spec fn name_views_of(v: Seq<PackageName>) -> Seq<Seq<char>> {
    v.map_values(|n: PackageName| n@)
}

/// Whether a list of package names holds one with these characters.
pub fn contains_pkg_name(v: &Vec<PackageName>, n: &str) -> (r: bool)
    ensures
        r == name_views_of(v@).contains(n@),
{
    let mut i: usize = 0;
    while i < v.len()
        invariant
            i <= v@.len(),
            forall|k: int| 0 <= k < i ==> v@[k]@ != n@,
        decreases v@.len() - i,
    {
        if str_equal(v[i].as_str(), n) {
            proof {
                assert(name_views_of(v@)[i as int] == n@);
            }
            return true;
        }
        i += 1;
    }
    proof {
        let mv = name_views_of(v@);
        if mv.contains(n@) {
            let k = choose|k: int| 0 <= k < mv.len() && (#[trigger] mv[k]) == n@;
            assert(v@[k]@ == n@);
        }
    }
    false
}

/// Adds a package name to a list-as-set unless an equal one is present.
pub fn insert_pkg_name(v: &mut Vec<PackageName>, n: PackageName)
    ensures
        name_views_of(final(v)@) =~= if name_views_of(old(v)@).contains(n@) {
            name_views_of(old(v)@)
        } else {
            name_views_of(old(v)@).push(n@)
        },
{
    if !contains_pkg_name(v, n.as_str()) {
        v.push(n);
        proof {
            assert(name_views_of(v@) =~= name_views_of(old(v)@).push(n@));
        }
    }
}

/// The Debian packages that the runtime closure of `packages` needs: every
/// Debian-namespace node reachable without build-time edges.
pub fn strict_debian_packages(packages: &Vec<FullPackageName>, specs: &PackageSpecs) -> (r: Result<
    Vec<PackageName>,
    Error,
>)
    requires
        forall|k: int| 0 <= k < packages@.len() ==> wf_full(#[trigger] packages@[k]@),
        specs_wf(specs@),
    ensures
        r matches Ok(out) ==> {
            &&& forall|n: Seq<char>| #[trigger]
                name_views_of(out@).contains(n) <==> reaches(
                    specs@,
                    false,
                    views_of(packages@).to_set(),
                    (NamespaceView::Debian, n),
                )
            &&& forall|k: int| 0 <= k < out@.len() ==> valid_package_name(#[trigger] out@[k]@)
        },
        r is Ok <==> (forall|q: (NamespaceView, Seq<char>)| #[trigger]
            reaches(specs@, false, views_of(packages@).to_set(), q) ==> resolvable(specs@, q)),
        r matches Err(e) ==> e.kind == ErrorKind::MissingObject || e.kind
            == ErrorKind::DependencyGraph,
{
    let closure = match transitive_depends(packages, specs, false) {
        Ok(c) => c,
        Err(e) => {
            return Err(e);
        },
    };
    let mut out: Vec<PackageName> = Vec::new();
    let ghost cv = views_of(closure@);
    let mut i: usize = 0;
    while i < closure.len()
        invariant
            i <= closure@.len(),
            cv == views_of(closure@),
            forall|k: int| 0 <= k < closure@.len() ==> wf_full(#[trigger] closure@[k]@),
            forall|n: Seq<char>| #[trigger]
                name_views_of(out@).contains(n) <==> (exists|k: int|
                    0 <= k < i && (#[trigger] cv[k]) == (NamespaceView::Debian, n)),
            forall|k: int| 0 <= k < out@.len() ==> valid_package_name(#[trigger] out@[k]@),
        decreases closure@.len() - i,
    {
        let ghost old_out = out@;
        let is_debian = matches!(&closure[i].0, PackageNamespace::Debian);
        if is_debian {
            out.push(closure[i].1.clone());
            proof {
                assert(name_views_of(out@) =~= name_views_of(old_out).push(closure@[i as int].1@));
                assert(cv[i as int] == closure@[i as int]@);
                assert(closure@[i as int]@.0 is Debian);
                assert forall|n: Seq<char>| #[trigger]
                    name_views_of(out@).contains(n) implies (exists|k: int|
                    0 <= k < i + 1 && (#[trigger] cv[k]) == (NamespaceView::Debian, n)) by {
                    let k2 = choose|k2: int|
                        0 <= k2 < name_views_of(out@).len() && name_views_of(out@)[k2] == n;
                    if k2 < old_out.len() {
                        assert(name_views_of(old_out)[k2] == n);
                        assert(name_views_of(old_out).contains(n));
                        let k3 = choose|k3: int|
                            0 <= k3 < i && (#[trigger] cv[k3]) == (NamespaceView::Debian, n);
                        assert(cv[k3] == (NamespaceView::Debian, n));
                    } else {
                        assert(cv[i as int] == (NamespaceView::Debian, n));
                    }
                }
                assert forall|n: Seq<char>|
                    (exists|k: int|
                        0 <= k < i + 1 && (#[trigger] cv[k]) == (
                        NamespaceView::Debian,
                        n,
                    )) implies #[trigger] name_views_of(out@).contains(n) by {
                    let k3 = choose|k3: int|
                        0 <= k3 < i + 1 && (#[trigger] cv[k3]) == (NamespaceView::Debian, n);
                    if k3 < i {
                        assert(name_views_of(old_out).contains(n));
                        let k2 = choose|k2: int|
                            0 <= k2 < name_views_of(old_out).len() && name_views_of(old_out)[k2]
                                == n;
                        assert(name_views_of(out@)[k2] == n);
                    } else {
                        assert(name_views_of(out@)[old_out.len() as int] == n);
                    }
                }
            }
        } else {
            proof {
                assert(cv[i as int] == closure@[i as int]@);
                assert(!(cv[i as int].0 is Debian));
            }
        }
        i += 1;
    }
    proof {
        assert forall|n: Seq<char>| #[trigger]
            name_views_of(out@).contains(n) <==> reaches(
            specs@,
            false,
            views_of(packages@).to_set(),
            (NamespaceView::Debian, n),
        ) by {
            if name_views_of(out@).contains(n) {
                let k = choose|k: int|
                    0 <= k < cv.len() && (#[trigger] cv[k]) == (NamespaceView::Debian, n);
                assert(cv.contains(cv[k]));
            }
            if reaches(specs@, false, views_of(packages@).to_set(), (NamespaceView::Debian, n)) {
                assert(cv.contains((NamespaceView::Debian, n)));
                let k = choose|k: int|
                    0 <= k < cv.len() && cv[k] == (NamespaceView::Debian, n);
            }
        }
    }
    Ok(out)
}

/// Every Debian package named anywhere in the registry, in `depends` or
/// `build_depends` of any entry.
pub fn all_debian_packages(specs: &PackageSpecs) -> (r: Vec<PackageName>)
    ensures
        forall|n: Seq<char>| #[trigger]
            name_views_of(r@).contains(n) <==> (exists|i: int, k: int|
                0 <= i < specs@.len() && 0 <= k < deps_of_spec(specs@[i], true).len() && (
                #[trigger] deps_of_spec(specs@[i], true)[k]) == (NamespaceView::Debian, n)),
{
    let mut out: Vec<PackageName> = Vec::new();
    let mut i: usize = 0;
    while i < specs.entries.len()
        invariant
            i <= specs.entries@.len(),
            forall|n: Seq<char>| #[trigger]
                name_views_of(out@).contains(n) <==> (exists|i2: int, k: int|
                    0 <= i2 < i && 0 <= k < deps_of_spec(specs@[i2], true).len() && (
                    #[trigger] deps_of_spec(specs@[i2], true)[k]) == (NamespaceView::Debian, n)),
        decreases specs.entries@.len() - i,
    {
        let entry = &specs.entries[i];
        let ghost before = out@;
        add_debian_names(&mut out, &entry.manifest.depends);
        add_debian_names(&mut out, &entry.manifest.build_depends);
        proof {
            let ghost d1 = views_of(entry.manifest.depends@);
            let ghost d2 = views_of(entry.manifest.build_depends@);
            assert(deps_of_spec(specs@[i as int], true) =~= d1 + d2);
            assert forall|n: Seq<char>| #[trigger]
                name_views_of(out@).contains(n) <==> (name_views_of(before).contains(n) || (
                exists|k: int|
                    0 <= k < (d1 + d2).len() && (#[trigger] (d1 + d2)[k]) == (
                    NamespaceView::Debian,
                    n,
                ))) by {
                if name_views_of(out@).contains(n) && !name_views_of(before).contains(n) {
                    if exists|k: int|
                        0 <= k < d1.len() && (#[trigger] d1[k]) == (NamespaceView::Debian, n) {
                        let k = choose|k: int|
                            0 <= k < d1.len() && (#[trigger] d1[k]) == (NamespaceView::Debian, n);
                        assert((d1 + d2)[k] == (NamespaceView::Debian, n));
                    } else {
                        let k = choose|k: int|
                            0 <= k < d2.len() && (#[trigger] d2[k]) == (NamespaceView::Debian, n);
                        assert((d1 + d2)[d1.len() + k] == (NamespaceView::Debian, n));
                    }
                }
                if exists|k: int|
                    0 <= k < (d1 + d2).len() && (#[trigger] (d1 + d2)[k]) == (
                    NamespaceView::Debian,
                    n,
                ) {
                    let k = choose|k: int|
                        0 <= k < (d1 + d2).len() && (#[trigger] (d1 + d2)[k]) == (
                        NamespaceView::Debian,
                        n,
                    );
                    if k < d1.len() {
                        assert(d1[k] == (NamespaceView::Debian, n));
                    } else {
                        assert(d2[k - d1.len()] == (NamespaceView::Debian, n));
                    }
                }
            }
            assert forall|n: Seq<char>| #[trigger]
                name_views_of(out@).contains(n) <==> (exists|i2: int, k: int|
                    0 <= i2 < i + 1 && 0 <= k < deps_of_spec(specs@[i2], true).len() && (
                    #[trigger] deps_of_spec(specs@[i2], true)[k]) == (NamespaceView::Debian, n)) by {
                if name_views_of(out@).contains(n) {
                    if name_views_of(before).contains(n) {
                        let (i2, k) = choose|i2: int, k: int|
                            0 <= i2 < i && 0 <= k < deps_of_spec(specs@[i2], true).len() && (
                            #[trigger] deps_of_spec(specs@[i2], true)[k]) == (
                            NamespaceView::Debian,
                            n,
                            );
                        assert(0 <= i2 < i + 1 && deps_of_spec(specs@[i2], true)[k] == (
                            NamespaceView::Debian,
                            n,
                        ));
                    } else {
                        let k = choose|k: int|
                            0 <= k < (d1 + d2).len() && (#[trigger] (d1 + d2)[k]) == (
                            NamespaceView::Debian,
                            n,
                        );
                        assert(deps_of_spec(specs@[i as int], true)[k] == (
                            NamespaceView::Debian,
                            n,
                        ));
                    }
                }
                if exists|i2: int, k: int|
                    0 <= i2 < i + 1 && 0 <= k < deps_of_spec(specs@[i2], true).len() && (
                    #[trigger] deps_of_spec(specs@[i2], true)[k]) == (NamespaceView::Debian, n) {
                    let (i2, k) = choose|i2: int, k: int|
                        0 <= i2 < i + 1 && 0 <= k < deps_of_spec(specs@[i2], true).len() && (
                        #[trigger] deps_of_spec(specs@[i2], true)[k]) == (NamespaceView::Debian, n);
                    if i2 < i {
                    } else {
                        assert((d1 + d2)[k] == (NamespaceView::Debian, n));
                    }
                }
            }
        }
        i += 1;
    }
    out
}

/// Adds the names of the Debian-namespace entries of a dependency list.
pub fn add_debian_names(out: &mut Vec<PackageName>, deps: &Vec<FullPackageName>)
    ensures
        forall|n: Seq<char>| #[trigger]
            name_views_of(final(out)@).contains(n) <==> (name_views_of(old(out)@).contains(n) || (
            exists|k: int|
                0 <= k < views_of(deps@).len() && (#[trigger] views_of(deps@)[k]) == (
                NamespaceView::Debian,
                n,
            ))),
{
    let ghost dv = views_of(deps@);
    let mut i: usize = 0;
    while i < deps.len()
        invariant
            i <= deps@.len(),
            dv == views_of(deps@),
            forall|n: Seq<char>| #[trigger]
                name_views_of(out@).contains(n) <==> (name_views_of(old(out)@).contains(n) || (
                exists|k: int|
                    0 <= k < i && (#[trigger] dv[k]) == (NamespaceView::Debian, n))),
        decreases deps@.len() - i,
    {
        let ghost before = out@;
        let is_debian = matches!(&deps[i].0, PackageNamespace::Debian);
        if is_debian {
            insert_pkg_name(out, deps[i].1.clone());
            proof {
                assert(dv[i as int] == deps@[i as int]@);
                assert(dv[i as int] == (NamespaceView::Debian, deps@[i as int].1@));
                assert forall|n: Seq<char>| #[trigger]
                    name_views_of(out@).contains(n) <==> (name_views_of(before).contains(n) || n
                    == deps@[i as int].1@) by {
                    if name_views_of(before).contains(deps@[i as int].1@) {
                    } else {
                        assert(name_views_of(out@) =~= name_views_of(before).push(
                            deps@[i as int].1@,
                        ));
                        if name_views_of(out@).contains(n) {
                            let k2 = choose|k2: int|
                                0 <= k2 < name_views_of(out@).len() && name_views_of(out@)[k2]
                                    == n;
                            if k2 < before.len() {
                                assert(name_views_of(before)[k2] == n);
                            }
                        }
                        if name_views_of(before).contains(n) {
                            let k2 = choose|k2: int|
                                0 <= k2 < name_views_of(before).len() && name_views_of(before)[k2]
                                    == n;
                            assert(name_views_of(out@)[k2] == n);
                        }
                        if n == deps@[i as int].1@ {
                            assert(name_views_of(out@)[before.len() as int] == n);
                        }
                    }
                }
                assert forall|n: Seq<char>| #[trigger]
                    name_views_of(out@).contains(n) <==> (name_views_of(old(out)@).contains(n) || (
                    exists|k: int|
                        0 <= k < i + 1 && (#[trigger] dv[k]) == (NamespaceView::Debian, n))) by {
                    if n == deps@[i as int].1@ {
                        assert(dv[i as int] == (NamespaceView::Debian, n));
                    }
                    if exists|k: int|
                        0 <= k < i + 1 && (#[trigger] dv[k]) == (NamespaceView::Debian, n) {
                        let k = choose|k: int|
                            0 <= k < i + 1 && (#[trigger] dv[k]) == (NamespaceView::Debian, n);
                        if k < i {
                        } else {
                            assert(n == deps@[i as int].1@);
                        }
                    }
                }
            }
        } else {
            proof {
                assert(dv[i as int] == deps@[i as int]@);
                assert(!(dv[i as int].0 is Debian));
            }
        }
        i += 1;
    }
}

} // verus!
