//! The orchestrator: configuration, the program state, and the flows that
//! tie the registry, the package cache and the runner together.
//!
//! The orchestrator owns a model of the world it acts on: the discovered
//! package sources, the artifact cache, the environments the runner manages,
//! and a logical clock for modification times. What only the outside world
//! decides — whether a build script or test script succeeds when run — comes
//! in as data (outcome tables keyed by display name), and every flow states
//! what holds for either outcome.

use vstd::prelude::*;
use crate::EnvironmentExists;
use crate::cache::{
    artifact_mtime, artifact_size, cache_wf, find_cache, has_failed_marker, mtimes_bounded,
    PackageCache,
};
use crate::error::{Error, ErrorKind};
use crate::names::{
    EnvironmentName, FullPackageName, NamespaceView, PackageName, PackageNamespace,
    full_display_of, valid_name,
};
use crate::paths::HostPath;
use crate::registry::{
    DiscoveredPackage, PackageSpec, PackageSpecs, PackageSpecView, auto_closure_hits,
    contains_full, deps_of_spec, dep_edge, discovered_wf, find_spec, reaches, resolvable,
    scan_fold, scan_packages_from, specs_wf, spec_of, strict_debian_packages,
    all_debian_packages, transitive_depends, views_of, wf_full,
};
use crate::runner::{
    EnvRegistry, EnvView, Init, RunnerCommand, envs_wf, exists_of, find_env, listed,
};
use crate::sets::{insert_name, sort_names};
use crate::text::{concat2, concat3, str_equal};

verus! {

/// Which runner backend the configuration selects.
#[derive(Clone, Copy, Debug, PartialEq, Eq, Structural)]
pub enum RunnerKind {
    /// The unprivileged namespace sandbox (Linux only).
    Bubblewrap,
    /// The container engine.
    Docker,
    /// Per-sandbox host user accounts.
    User,
}

/// Named boolean flag for [`Cubicle::purge_environment`].
#[derive(Clone, Copy, Debug, PartialEq, Eq, Structural)]
pub struct Quiet(pub bool);

/// Allowed formats for environment listings.
#[derive(Clone, Copy, Debug, PartialEq, Eq, Structural)]
pub enum ListFormat {
    /// Human-formatted table.
    Default,
    /// Detailed JSON output for machine consumption.
    Json,
    /// Newline-delimited list of environment names only.
    Names,
}

/// Allowed formats for package listings.
#[derive(Clone, Copy, Debug, PartialEq, Eq, Structural)]
pub enum ListPackagesFormat {
    /// Human-formatted table.
    Default,
    /// Detailed JSON output for machine consumption.
    Json,
    /// Newline-delimited list of package names only.
    Names,
}

/// Describes when a package should be updated.
#[derive(Clone, Copy, Debug, PartialEq, Eq, Structural)]
pub enum ShouldPackageUpdate {
    /// The package should be re-built.
    Always,
    /// The package should be re-built if it is stale: never built, built too
    /// long ago, its sources changed since, or a dependency's artifact is
    /// newer than its own.
    IfStale,
    /// The package should be built only if it has never been successfully
    /// built before.
    IfRequired,
}

/// When the named packages, and when their dependencies, should be updated.
#[derive(Clone, Copy, Debug, PartialEq, Eq, Structural)]
pub struct UpdatePackagesConditions {
    /// When the transitive dependencies should be updated.
    pub dependencies: ShouldPackageUpdate,
    /// When the named packages themselves should be updated.
    pub named: ShouldPackageUpdate,
}

/// The configuration the orchestrator consumes.
#[derive(Debug)]
pub struct Config {
    /// Which backend runs environments.
    pub runner: RunnerKind,
    /// How long a built artifact stays fresh, in seconds, if limited.
    pub auto_update: Option<u64>,
    /// Whether the container backend uses bind mounts (rather than named
    /// volumes).
    pub docker_bind_mounts: bool,
    /// Whether the container backend resolves only the Debian packages the
    /// dependency closure needs (rather than all it knows of).
    pub docker_strict_debian_packages: bool,
    /// Name prefix for containers and volumes.
    pub docker_prefix: String,
    /// Whether the container base image installs only the minimal package
    /// set.
    pub docker_slim: bool,
}

/// Details of one package, as listings report them.
#[derive(Debug)]
pub struct PackageDetails {
    /// The display names of the build-time-only dependencies.
    pub build_depends: Vec<String>,
    /// When the package was last successfully built, if ever.
    pub built: Option<u64>,
    /// The display names of the run-time dependencies.
    pub depends: Vec<String>,
    /// When the package sources last changed, if known.
    pub edited: Option<u64>,
    /// The source directory on the host, if the package has sources.
    pub dir: Option<HostPath>,
    /// Whether the last completed build attempt failed.
    pub last_build_failed: bool,
    /// Whether the package is a package manager.
    pub package_manager: bool,
    /// Where the sources came from; `N/A` for packages known only through
    /// their cached artifacts.
    pub origin: String,
    /// Byte size of the cached artifact, as the store last reported it.
    pub size: Option<u64>,
}

/// The main program state: configuration, fixed paths, and the world model
/// the flows act on.
#[derive(Debug)]
pub struct Cubicle {
    /// The loaded configuration.
    pub config: Config,
    /// The user's login shell.
    pub shell: String,
    /// The program name, used in hint messages.
    pub script_name: String,
    /// Where the program's own files (scripts, built-in packages) live.
    pub script_path: HostPath,
    /// The host's name, if known.
    pub hostname: Option<String>,
    /// The user's home directory on the host.
    pub home: HostPath,
    /// The user's name.
    pub user: String,
    /// Where package artifacts are cached.
    pub package_cache: HostPath,
    /// The environments the runner manages.
    pub runner: EnvRegistry,
    /// The artifact cache.
    pub cache: PackageCache,
    /// The discovered package sources, user packages first.
    pub discovered: Vec<DiscoveredPackage>,
    /// The logical clock modification times are drawn from.
    pub now: u64,
    /// Per display name, whether its build script succeeds when run. Absent
    /// names succeed.
    pub build_outcomes: Vec<(String, bool)>,
    /// Per display name, whether its test script succeeds when run. Absent
    /// names succeed.
    pub test_outcomes: Vec<(String, bool)>,
    /// Per environment name, whether the init script succeeds when an
    /// environment is created or reset. Absent names succeed.
    pub env_init_outcomes: Vec<(String, bool)>,
    /// The warnings the flows emitted, oldest first.
    pub warnings: Vec<String>,
}

/// The outcome recorded for a key: the first matching entry, or success.
pub open spec fn outcome_of(t: Seq<(String, bool)>, key: Seq<char>) -> bool
    decreases t.len(),
{
    if t.len() == 0 {
        true
    } else if t[0].0@ == key {
        t[0].1
    } else {
        outcome_of(t.drop_first(), key)
    }
}

/// Looks up the outcome recorded for a key; unlisted keys succeed.
pub fn lookup_outcome(t: &Vec<(String, bool)>, key: &str) -> (r: bool)
    ensures
        r == outcome_of(t@, key@),
{
    let mut i: usize = 0;
    proof {
        assert(t@.skip(0) =~= t@);
    }
    while i < t.len()
        invariant
            i <= t@.len(),
            outcome_of(t@, key@) == outcome_of(t@.skip(i as int), key@),
        decreases t@.len() - i,
    {
        proof {
            assert(t@.skip(i as int)[0] == t@[i as int]);
            assert(t@.skip(i as int).drop_first() =~= t@.skip(i + 1));
        }
        if str_equal(t[i].0.as_str(), key) {
            return t[i].1;
        }
        i += 1;
    }
    proof {
        assert(t@.skip(t@.len() as int) =~= Seq::<(String, bool)>::empty());
    }
    true
}

impl Cubicle {
    /// Well-formedness of the whole world model.
    pub open spec fn wf(&self) -> bool {
        &&& cache_wf(self.cache@)
        &&& envs_wf(self.runner@)
        &&& mtimes_bounded(self.cache@, self.now)
        &&& discovered_wf(self.discovered@)
    }

    /// Creates the program state from configuration and plain host facts.
    ///
    /// The caller supplies what it read from the host: the shell, user and
    /// home directory, the program's location, and the discovered package
    /// sources; the world starts with the given cache and environments.
    pub fn new(
        config: Config,
        shell: String,
        script_name: String,
        script_path: HostPath,
        hostname: Option<String>,
        home: HostPath,
        user: String,
        package_cache: HostPath,
        discovered: Vec<DiscoveredPackage>,
    ) -> (r: Cubicle)
        requires
            discovered_wf(discovered@),
        ensures
            r.wf(),
            r.config == config,
            r.discovered@ == discovered@,
            r.cache@ =~= Seq::<crate::cache::CacheEntryView>::empty(),
            r.runner@ =~= Seq::<EnvView>::empty(),
            r.now == 0,
    {
        Cubicle {
            config,
            shell,
            script_name,
            script_path,
            hostname,
            home,
            user,
            package_cache,
            runner: EnvRegistry::new(),
            cache: PackageCache::new(),
            discovered,
            now: 0,
            build_outcomes: Vec::new(),
            test_outcomes: Vec::new(),
            env_init_outcomes: Vec::new(),
            warnings: Vec::new(),
        }
    }

    /// Returns information about available package sources.
    pub fn scan_packages(&self) -> (r: Result<PackageSpecs, Error>)
        requires
            self.wf(),
        ensures
            r matches Ok(specs) ==> {
                let base = scan_fold(Seq::<PackageSpecView>::empty(), self.discovered@);
                &&& specs_wf(specs@)
                &&& specs@.len() == base.len()
                &&& forall|i: int|
                    0 <= i < base.len() ==> ((#[trigger] specs@[i]).manifest.depends.contains(
                        crate::registry::auto_root(),
                    ) <==> !auto_closure_hits(base, specs@[i].name))
                &&& specs@ == crate::registry::scanned_specs_of(self.discovered@)
            },
            r is Ok <==> (forall|q: (NamespaceView, Seq<char>)| #[trigger]
                reaches(
                    scan_fold(Seq::<PackageSpecView>::empty(), self.discovered@),
                    true,
                    Set::empty().insert(crate::registry::auto_root()),
                    q,
                ) ==> resolvable(
                    scan_fold(Seq::<PackageSpecView>::empty(), self.discovered@),
                    q,
                )),
    {
        let discovered = clone_discovered(&self.discovered);
        let r = scan_packages_from(discovered);
        proof {
            if r is Ok {
                assert(crate::registry::scanned_specs_of(discovered@)
                    == crate::registry::scanned_specs_of(self.discovered@));
            }
        }
        r
    }

    /// Returns a sorted list of existing environment names.
    pub fn get_environment_names(&self) -> (r: Vec<EnvironmentName>)
        requires
            self.wf(),
        ensures
            crate::sets::sorted_env_names(crate::names::env_views_of(r@)),
            crate::names::env_views_of(r@).no_duplicates(),
            forall|k: int| 0 <= k < r@.len() ==> listed(self.runner@, (#[trigger] r@[k])@),
            forall|i: int|
                0 <= i < self.runner@.len() && listed(
                    self.runner@,
                    (#[trigger] self.runner@[i]).name,
                ) ==> (exists|k: int| 0 <= k < r@.len() && (#[trigger] r@[k])@
                    == self.runner@[i].name),
    {
        let names = self.runner.list();
        let ghost pre_sort = crate::names::env_views_of(names@);
        let sorted = crate::sets::sort_env_names(names);
        proof {
            broadcast use vstd::seq_lib::group_to_multiset_ensures;

            pre_sort.lemma_multiset_has_no_duplicates();
            assert forall|q: Seq<char>|
                crate::names::env_views_of(sorted@).to_multiset().contains(q) implies crate::
            names::env_views_of(sorted@).to_multiset().count(q) == 1 by {
                assert(pre_sort.to_multiset().contains(q));
            }
            crate::names::env_views_of(sorted@).lemma_multiset_has_no_duplicates_conv();
            assert forall|q: Seq<char>| #[trigger]
                crate::names::env_views_of(sorted@).contains(q) <==> pre_sort.contains(q) by {
                assert(crate::names::env_views_of(sorted@).to_multiset()
                    == pre_sort.to_multiset());
                assert(crate::names::env_views_of(sorted@).contains(q)
                    <==> crate::names::env_views_of(sorted@).to_multiset().count(q) > 0);
                assert(pre_sort.contains(q) <==> pre_sort.to_multiset().count(q) > 0);
            }
            assert forall|k: int| 0 <= k < sorted@.len() implies listed(
                self.runner@,
                (#[trigger] sorted@[k])@,
            ) by {
                assert(crate::names::env_views_of(sorted@)[k] == sorted@[k]@);
                assert(crate::names::env_views_of(sorted@).contains(sorted@[k]@)) by {
                    assert(crate::names::env_views_of(sorted@)[k] == sorted@[k]@);
                }
                assert(pre_sort.contains(sorted@[k]@));
                let k2 = choose|k2: int|
                    0 <= k2 < pre_sort.len() && pre_sort[k2] == sorted@[k]@;
                assert(names@[k2]@ == sorted@[k]@);
            }
            assert forall|i: int|
                0 <= i < self.runner@.len() && listed(
                    self.runner@,
                    (#[trigger] self.runner@[i]).name,
                ) implies (exists|k: int|
                0 <= k < sorted@.len() && (#[trigger] sorted@[k])@
                    == self.runner@[i].name) by {
                let k0 = choose|k0: int|
                    0 <= k0 < names@.len() && (#[trigger] names@[k0])@ == self.runner@[i].name;
                assert(pre_sort[k0] == self.runner@[i].name);
                assert(pre_sort.contains(self.runner@[i].name));
                assert(crate::names::env_views_of(sorted@).contains(self.runner@[i].name));
                let k = choose|k: int|
                    0 <= k < crate::names::env_views_of(sorted@).len()
                        && crate::names::env_views_of(sorted@)[k] == self.runner@[i].name;
                assert(sorted@[k]@ == self.runner@[i].name);
            }
        }
        sorted
    }

    /// Corresponds to entering an environment interactively.
    ///
    /// Fails when the environment does not exist or is broken.
    pub fn enter_environment(&mut self, name: &EnvironmentName) -> (r: Result<(), Error>)
        requires
            old(self).wf(),
        ensures
            final(self).wf(),
            final(self).runner@ == old(self).runner@,
            final(self).cache@ == old(self).cache@,
            r is Ok <==> exists_of(old(self).runner@, name@) == EnvironmentExists::FullyExists,
            r matches Err(e) ==> e.kind == ErrorKind::MissingObject || e.kind
                == ErrorKind::InconsistentState,
    {
        match self.runner.exists_state(name) {
            EnvironmentExists::NoEnvironment => Err(
                Error::new(
                    ErrorKind::MissingObject,
                    concat2("environment does not exist: ", name.as_str()),
                ),
            ),
            EnvironmentExists::PartiallyExists => Err(
                Error::new(
                    ErrorKind::InconsistentState,
                    concat3("environment ", name.as_str(), " is in a broken state (try reset)"),
                ),
            ),
            EnvironmentExists::FullyExists => self.runner.run(name, &RunnerCommand::Interactive),
        }
    }

    /// Corresponds to running one command inside an environment.
    ///
    /// Fails when the environment does not exist or is broken; otherwise the
    /// command's own outcome decides.
    pub fn exec_environment(
        &mut self,
        name: &EnvironmentName,
        command: Vec<String>,
        command_succeeds: bool,
    ) -> (r: Result<(), Error>)
        requires
            old(self).wf(),
        ensures
            final(self).wf(),
            final(self).runner@ == old(self).runner@,
            final(self).cache@ == old(self).cache@,
            r is Ok <==> (exists_of(old(self).runner@, name@) == EnvironmentExists::FullyExists
                && command_succeeds),
    {
        match self.runner.exists_state(name) {
            EnvironmentExists::NoEnvironment => Err(
                Error::new(
                    ErrorKind::MissingObject,
                    concat2("environment does not exist: ", name.as_str()),
                ),
            ),
            EnvironmentExists::PartiallyExists => Err(
                Error::new(
                    ErrorKind::InconsistentState,
                    concat3("environment ", name.as_str(), " is in a broken state (try reset)"),
                ),
            ),
            EnvironmentExists::FullyExists => self.runner.run(
                name,
                &RunnerCommand::Exec(command, command_succeeds),
            ),
        }
    }

    /// Corresponds to purging an environment: afterwards it does not exist.
    ///
    /// Purging what does not exist succeeds quietly (the flag only controls
    /// a warning outside this model).
    pub fn purge_environment(&mut self, name: &EnvironmentName, quiet: Quiet) -> (r: Result<
        (),
        Error,
    >)
        requires
            old(self).wf(),
        ensures
            final(self).wf(),
            final(self).cache@ == old(self).cache@,
            r is Ok,
            exists_of(final(self).runner@, name@) == EnvironmentExists::NoEnvironment,
            !listed(final(self).runner@, name@),
            forall|n: Seq<char>|
                n != name@ ==> find_env(final(self).runner@, n) == find_env(old(self).runner@, n),
            (!quiet.0 && exists_of(old(self).runner@, name@)
                == EnvironmentExists::NoEnvironment) ==> final(self).warnings@.len() == old(
                self,
            ).warnings@.len() + 1 && final(self).warnings@.last()@ == "environment "@ + name@
                + " does not exist (nothing to purge)"@,
            !(!quiet.0 && exists_of(old(self).runner@, name@)
                == EnvironmentExists::NoEnvironment) ==> final(self).warnings@ == old(
                self,
            ).warnings@,
    {
        if !quiet.0 && matches!(
            self.runner.exists_state(name),
            EnvironmentExists::NoEnvironment,
        ) {
            let warning = concat3("environment ", name.as_str(), " does not exist (nothing to purge)");
            self.warnings.push(warning);
        }
        // purge regardless, in case the storage disagrees with the probe
        self.runner.purge(name)
    }

    /// Reads the environment's intended package set out of its work tree:
    /// one fully-qualified name per line of `w/packages.txt`.
    ///
    /// Succeeds exactly when the environment holds a package list whose
    /// every line parses, and then returns exactly the parsed names.
    pub fn read_package_list_from_env(&self, name: &EnvironmentName) -> (r: Result<
        Vec<FullPackageName>,
        Error,
    >)
        ensures
            r is Ok <==> (find_env(self.runner@, name@) matches Some(v)
                && v.packages_txt matches Some(c) && parse_list_of(c) is Some),
            r matches Ok(names) ==> Some(views_of(names@)) == parse_list_of(
                find_env(self.runner@, name@)->Some_0.packages_txt->Some_0,
            ),
            r matches Ok(names) ==> forall|k: int|
                0 <= k < names@.len() ==> (#[trigger] names@[k]).wf(),
    {
        let content = self.runner.copy_out_from_work(name, "packages.txt")?;
        parse_package_list(content.as_str())
    }
}

/// The display names of a specification's dependencies, build-time entries
/// first, as the staleness check walks them.
pub open spec fn dep_keys_of(s: PackageSpecView) -> Seq<Seq<char>> {
    (s.manifest.build_depends + s.manifest.depends).map_values(
        |d: (NamespaceView, Seq<char>)| full_display_of(d),
    )
}

/// Whether a package is stale: never built, built too long ago (by the
/// `auto_update` limit), sources modified after the build, or some
/// dependency's artifact newer than its own.
///
/// Only the immediate dependencies' artifacts are compared. Inside one
/// update run, dependencies are processed first, so a fresher artifact
/// anywhere in the transitive closure re-marks each package along the path
/// in turn and the effect is the transitive rule; a single query outside a
/// run sees one step only.
pub open spec fn is_stale(
    cv: Seq<crate::cache::CacheEntryView>,
    key: Seq<char>,
    s: PackageSpecView,
    auto_update: Option<u64>,
    now: u64,
) -> bool {
    match artifact_mtime(cv, key) {
        None => true,
        Some(built) => {
            ||| (match auto_update {
                Some(limit) => built > now || now - built > limit,
                None => false,
            })
            ||| s.last_modified > built
            ||| exists|k: int|
                0 <= k < dep_keys_of(s).len() && (#[trigger] artifact_mtime(
                    cv,
                    dep_keys_of(s)[k],
                ) matches Some(b) && b > built)
        },
    }
}

impl Cubicle {
    /// Whether the package needs rebuilding by the staleness rules.
    pub fn package_is_stale(&self, package_name: &FullPackageName, spec: &PackageSpec) -> (r: bool)
        ensures
            r == is_stale(
                self.cache@,
                full_display_of(package_name@),
                spec@,
                self.config.auto_update,
                self.now,
            ),
    {
        let ghost key = full_display_of(package_name@);
        let key_str = package_name.as_filename_component();
        let built = match self.cache.last_built(key_str.as_str()) {
            None => {
                return true;
            },
            Some(b) => b,
        };
        match self.config.auto_update {
            Some(limit) => {
                if built > self.now || self.now - built > limit {
                    return true;
                }
            },
            None => {},
        }
        if spec.last_modified > built {
            return true;
        }
        let ghost dk = dep_keys_of(spec@);
        let ghost b1 = spec@.manifest.build_depends.len() as int;
        let mut i: usize = 0;
        while i < spec.manifest.build_depends.len()
            invariant
                i <= spec@.manifest.build_depends.len(),
                dk == dep_keys_of(spec@),
                b1 == spec@.manifest.build_depends.len(),
                artifact_mtime(self.cache@, full_display_of(package_name@)) == Some(built),
                forall|k: int|
                    0 <= k < i ==> !(#[trigger] artifact_mtime(self.cache@, dk[k]) matches Some(b)
                        && b > built),
            decreases spec@.manifest.build_depends.len() - i,
        {
            let dkey = spec.manifest.build_depends[i].as_filename_component();
            proof {
                assert(dk[i as int] == full_display_of(
                    spec@.manifest.build_depends[i as int],
                )) by {
                    assert((spec@.manifest.build_depends + spec@.manifest.depends)[i as int]
                        == spec@.manifest.build_depends[i as int]);
                }
                assert(spec@.manifest.build_depends[i as int] == spec.manifest.build_depends@[
                    i as int]@);
            }
            match self.cache.last_built(dkey.as_str()) {
                Some(b) => {
                    if b > built {
                        proof {
                            assert(dk.len() == b1 + spec@.manifest.depends.len());
                            let key2 = full_display_of(package_name@);
                            assert(artifact_mtime(self.cache@, key2) == Some(built));
                            let built2 = artifact_mtime(self.cache@, key2)->Some_0;
                            assert(built2 == built);
                            assert(exists|k: int|
                                0 <= k < dep_keys_of(spec@).len() && (#[trigger] artifact_mtime(
                                    self.cache@,
                                    dep_keys_of(spec@)[k],
                                ) matches Some(b2) && b2 > built2)) by {
                                assert(artifact_mtime(self.cache@, dep_keys_of(spec@)[i as int])
                                    matches Some(b2) && b2 > built2);
                            }
                            assert(is_stale(
                                self.cache@,
                                key2,
                                spec@,
                                self.config.auto_update,
                                self.now,
                            ));
                        }
                        return true;
                    }
                },
                None => {},
            }
            i += 1;
        }
        let mut j: usize = 0;
        while j < spec.manifest.depends.len()
            invariant
                j <= spec@.manifest.depends.len(),
                dk == dep_keys_of(spec@),
                b1 == spec@.manifest.build_depends.len(),
                artifact_mtime(self.cache@, full_display_of(package_name@)) == Some(built),
                forall|k: int|
                    0 <= k < b1 + j ==> !(#[trigger] artifact_mtime(self.cache@, dk[k]) matches Some(
                        b,
                    ) && b > built),
            decreases spec@.manifest.depends.len() - j,
        {
            let dkey = spec.manifest.depends[j].as_filename_component();
            proof {
                assert(dk[b1 + j] == full_display_of(spec@.manifest.depends[j as int])) by {
                    assert((spec@.manifest.build_depends + spec@.manifest.depends)[b1 + j]
                        == spec@.manifest.depends[j as int]);
                }
                assert(spec@.manifest.depends[j as int] == spec.manifest.depends@[j as int]@);
            }
            match self.cache.last_built(dkey.as_str()) {
                Some(b) => {
                    if b > built {
                        proof {
                            assert(dk.len() == b1 + spec@.manifest.depends.len());
                            let key2 = full_display_of(package_name@);
                            assert(artifact_mtime(self.cache@, key2) == Some(built));
                            let built2 = artifact_mtime(self.cache@, key2)->Some_0;
                            assert(built2 == built);
                            assert(exists|k: int|
                                0 <= k < dep_keys_of(spec@).len() && (#[trigger] artifact_mtime(
                                    self.cache@,
                                    dep_keys_of(spec@)[k],
                                ) matches Some(b2) && b2 > built2)) by {
                                assert(artifact_mtime(self.cache@, dep_keys_of(spec@)[b1 + j])
                                    matches Some(b2) && b2 > built2);
                            }
                            assert(is_stale(
                                self.cache@,
                                key2,
                                spec@,
                                self.config.auto_update,
                                self.now,
                            ));
                        }
                        return true;
                    }
                },
                None => {},
            }
            j += 1;
        }
        proof {
            assert forall|k: int| 0 <= k < dk.len() implies !(#[trigger] artifact_mtime(
                self.cache@,
                dk[k],
            ) matches Some(b) && b > built) by {}
        }
        false
    }

    /// Whether the last completed build of this package failed.
    pub fn package_build_failed(&self, package_name: &FullPackageName) -> (r: bool)
        ensures
            r == has_failed_marker(self.cache@, full_display_of(package_name@)),
    {
        let key = package_name.as_filename_component();
        self.cache.build_failed(key.as_str())
    }

    /// Whether this update run rebuilds a package: never without an update
    /// script; otherwise by the condition that applies (the one for named
    /// packages when the package was named, the one for dependencies
    /// otherwise) — always, when stale, or only when no artifact exists.
    pub fn should_update(
        &self,
        named: bool,
        conditions: &UpdatePackagesConditions,
        package_name: &FullPackageName,
        spec: &PackageSpec,
    ) -> (r: bool)
        ensures
            r == (spec@.update is Some && (match (if named {
                conditions.named
            } else {
                conditions.dependencies
            }) {
                ShouldPackageUpdate::Always => true,
                ShouldPackageUpdate::IfStale => is_stale(
                    self.cache@,
                    full_display_of(package_name@),
                    spec@,
                    self.config.auto_update,
                    self.now,
                ),
                ShouldPackageUpdate::IfRequired => artifact_mtime(
                    self.cache@,
                    full_display_of(package_name@),
                ) is None,
            })),
    {
        if spec.update.is_none() {
            return false;
        }
        let condition = if named {
            conditions.named
        } else {
            conditions.dependencies
        };
        match condition {
            ShouldPackageUpdate::Always => true,
            ShouldPackageUpdate::IfStale => self.package_is_stale(package_name, spec),
            ShouldPackageUpdate::IfRequired => {
                let key_str = package_name.as_filename_component();
                self.cache.last_built(key_str.as_str()).is_none()
            },
        }
    }

    /// Whether this configuration resolves only the Debian packages the
    /// dependency closure needs.
    pub open spec fn strict_debian(&self) -> bool {
        match self.config.runner {
            RunnerKind::Bubblewrap => true,
            RunnerKind::Docker => self.config.docker_strict_debian_packages,
            RunnerKind::User => true,
        }
    }

    /// The Debian packages a builder environment should see: the runtime
    /// closure's own, or every known one, as the backend's policy picks.
    pub fn resolve_debian_packages(
        &self,
        packages: &Vec<FullPackageName>,
        specs: &PackageSpecs,
    ) -> (r: Result<Vec<PackageName>, Error>)
        requires
            forall|k: int| 0 <= k < packages@.len() ==> wf_full(#[trigger] packages@[k]@),
            specs_wf(specs@),
        ensures
            r is Ok <==> (self.strict_debian() ==> (forall|q: (NamespaceView, Seq<char>)|
                #[trigger] reaches(specs@, false, views_of(packages@).to_set(), q) ==> resolvable(
                    specs@,
                    q,
                ))),
            r matches Ok(out) ==> (self.strict_debian() ==> (forall|n: Seq<char>| #[trigger]
                crate::registry::name_views_of(out@).contains(n) <==> reaches(
                    specs@,
                    false,
                    views_of(packages@).to_set(),
                    (NamespaceView::Debian, n),
                ))),
            r matches Ok(out) ==> (!self.strict_debian() ==> (forall|n: Seq<char>| #[trigger]
                crate::registry::name_views_of(out@).contains(n) <==> (exists|i: int, k: int|
                    0 <= i < specs@.len() && 0 <= k < deps_of_spec(specs@[i], true).len() && (
                    #[trigger] deps_of_spec(specs@[i], true)[k]) == (NamespaceView::Debian, n)))),
    {
        let strict = match self.config.runner {
            RunnerKind::Bubblewrap => true,
            RunnerKind::Docker => self.config.docker_strict_debian_packages,
            RunnerKind::User => true,
        };
        if strict {
            strict_debian_packages(packages, specs)
        } else {
            Ok(all_debian_packages(specs))
        }
    }

    /// The seed archives for a package set: the cached artifact of every
    /// member of the set's runtime closure that has one.
    pub fn packages_to_seeds(
        &self,
        packages: &Vec<FullPackageName>,
        specs: &PackageSpecs,
    ) -> (r: Result<Vec<HostPath>, Error>)
        requires
            forall|k: int| 0 <= k < packages@.len() ==> wf_full(#[trigger] packages@[k]@),
            specs_wf(specs@),
        ensures
            r is Ok <==> (forall|q: (NamespaceView, Seq<char>)| #[trigger]
                reaches(specs@, false, views_of(packages@).to_set(), q) ==> resolvable(specs@, q)),
            r matches Ok(seeds) ==> forall|k: int|
                0 <= k < seeds@.len() ==> seed_ok(
                    self.cache@,
                    self.package_cache@,
                    specs@,
                    views_of(packages@).to_set(),
                    (#[trigger] seeds@[k])@,
                ),
            r matches Ok(seeds) ==> seeds_complete(
                self.cache@,
                self.package_cache@,
                specs@,
                views_of(packages@).to_set(),
                seeds@,
            ),
            r matches Ok(seeds) ==> (exists|t: Seq<(NamespaceView, Seq<char>)>|
                #[trigger] crate::sets::sorted_by_display(t) && t.len() == seeds@.len() && (forall|
                k: int,
            |
                0 <= k < seeds@.len() ==> (#[trigger] seeds@[k])@ == crate::paths::joined_path_of(
                    self.package_cache@,
                    full_display_of(t[k]) + ".tar"@,
                ))),
    {
        let closure0 = match transitive_depends(packages, specs, false) {
            Ok(c) => c,
            Err(e) => {
                return Err(e);
            },
        };
        let ghost pre_sort = views_of(closure0@);
        let closure = sort_names(closure0);
        proof {
            broadcast use vstd::seq_lib::group_to_multiset_ensures;

            assert forall|q: (NamespaceView, Seq<char>)| #[trigger]
                views_of(closure@).contains(q) <==> pre_sort.contains(q) by {
                assert(views_of(closure@).to_multiset() == pre_sort.to_multiset());
                assert(views_of(closure@).contains(q) <==> views_of(
                    closure@,
                ).to_multiset().count(q) > 0);
                assert(pre_sort.contains(q) <==> pre_sort.to_multiset().count(q) > 0);
            }
            assert forall|k: int| 0 <= k < closure@.len() implies wf_full(
                #[trigger] closure@[k]@,
            ) by {
                assert(views_of(closure@)[k] == closure@[k]@);
                assert(views_of(closure@).contains(closure@[k]@));
                assert(pre_sort.contains(closure@[k]@));
                let k2 = choose|k2: int|
                    0 <= k2 < pre_sort.len() && pre_sort[k2] == closure@[k]@;
                assert(closure0@[k2]@ == closure@[k]@);
            }
        }
        let ghost mut tv: Seq<(NamespaceView, Seq<char>)> = Seq::empty();
        let mut seeds: Vec<HostPath> = Vec::new();
        let mut i: usize = 0;
        while i < closure.len()
            invariant
                i <= closure@.len(),
                forall|q: (NamespaceView, Seq<char>)| #[trigger]
                    views_of(closure@).contains(q) <==> reaches(
                        specs@,
                        false,
                        views_of(packages@).to_set(),
                        q,
                    ),
                forall|k: int|
                    0 <= k < seeds@.len() ==> seed_ok(
                        self.cache@,
                        self.package_cache@,
                        specs@,
                        views_of(packages@).to_set(),
                        (#[trigger] seeds@[k])@,
                    ),
                forall|j: int|
                    0 <= j < i && artifact_mtime(
                        self.cache@,
                        full_display_of(#[trigger] views_of(closure@)[j]),
                    ) is Some ==> (exists|k: int|
                        0 <= k < seeds@.len() && (#[trigger] seeds@[k])@
                            == crate::paths::joined_path_of(
                            self.package_cache@,
                            full_display_of(views_of(closure@)[j]) + ".tar"@,
                        )),
                tv.len() == seeds@.len(),
                crate::sets::sorted_by_display(views_of(closure@)),
                crate::sets::sorted_by_display(tv),
                forall|k: int|
                    0 <= k < seeds@.len() ==> (#[trigger] seeds@[k])@
                        == crate::paths::joined_path_of(
                        self.package_cache@,
                        full_display_of(tv[k]) + ".tar"@,
                    ),
                forall|a: int, j: int|
                    0 <= a < tv.len() && i <= j < closure@.len() ==> #[trigger] crate::
                sets::le_display(tv[a], views_of(closure@)[j]),
            decreases closure@.len() - i,
        {
            let ghost seeds_before = seeds@;
            let key = closure[i].as_filename_component();
            if self.cache.last_built(key.as_str()).is_some() {
                let file = concat2(key.as_str(), ".tar");
                proof {
                    assert(views_of(closure@)[i as int] == closure@[i as int]@);
                    assert(views_of(closure@).contains(closure@[i as int]@));
                }
                let ghost old_seeds = seeds@;
                seeds.push(self.package_cache.join(file.as_str()));
                proof {
                    let qv = closure@[i as int]@;
                    let ghost old_tv = tv;
                    tv = tv.push(qv);
                    assert(views_of(closure@)[i as int] == qv);
                    assert(crate::sets::sorted_by_display(tv)) by {
                        assert forall|a: int, b: int|
                            0 <= a < b < tv.len() implies crate::sets::le_display(
                            tv[a],
                            tv[b],
                        ) by {
                            if b == old_tv.len() {
                                assert(crate::sets::le_display(old_tv[a], qv));
                            }
                        }
                    }
                    assert forall|a: int, j: int|
                        0 <= a < tv.len() && i + 1 <= j < closure@.len() implies #[trigger] crate::
                    sets::le_display(tv[a], views_of(closure@)[j]) by {
                        if a == old_tv.len() {
                            assert(crate::sets::le_display(
                                views_of(closure@)[i as int],
                                views_of(closure@)[j],
                            ));
                        }
                    }
                    let roots = views_of(packages@).to_set();
                    assert((seeds@[old_seeds.len() as int])@ == crate::paths::joined_path_of(
                        self.package_cache@,
                        full_display_of(qv) + ".tar"@,
                    ));
                    assert(reaches(specs@, false, roots, qv));
                    assert(artifact_mtime(self.cache@, full_display_of(qv)) is Some);
                    assert forall|k: int| 0 <= k < seeds@.len() implies seed_ok(
                        self.cache@,
                        self.package_cache@,
                        specs@,
                        roots,
                        (#[trigger] seeds@[k])@,
                    ) by {
                        if k < old_seeds.len() {
                            assert(seeds@[k] == old_seeds[k]);
                            assert(seed_ok(
                                self.cache@,
                                self.package_cache@,
                                specs@,
                                roots,
                                (old_seeds[k])@,
                            ));
                        } else {
                            assert(seed_ok(
                                self.cache@,
                                self.package_cache@,
                                specs@,
                                roots,
                                (seeds@[k])@,
                            )) by {
                                assert(reaches(specs@, false, roots, qv) && artifact_mtime(
                                    self.cache@,
                                    full_display_of(qv),
                                ) is Some && (seeds@[k])@ == crate::paths::joined_path_of(
                                    self.package_cache@,
                                    full_display_of(qv) + ".tar"@,
                                ));
                            }
                        }
                    }
                }
            }
            proof {
                assert forall|j: int|
                    0 <= j < i + 1 && artifact_mtime(
                        self.cache@,
                        full_display_of(#[trigger] views_of(closure@)[j]),
                    ) is Some implies (exists|k: int|
                    0 <= k < seeds@.len() && (#[trigger] seeds@[k])@
                        == crate::paths::joined_path_of(
                        self.package_cache@,
                        full_display_of(views_of(closure@)[j]) + ".tar"@,
                    )) by {
                    if j < i {
                        let k = choose|k: int|
                            0 <= k < seeds_before.len() && (#[trigger] seeds_before[k])@
                                == crate::paths::joined_path_of(
                                self.package_cache@,
                                full_display_of(views_of(closure@)[j]) + ".tar"@,
                            );
                        assert(seeds@[k] == seeds_before[k]);
                    } else {
                        assert(views_of(closure@)[j] == closure@[j]@);
                        if seeds@.len() == seeds_before.len() {
                            assert(artifact_mtime(
                                self.cache@,
                                full_display_of(views_of(closure@)[j]),
                            ) is None);
                        } else {
                            assert(seeds@[seeds@.len() - 1]@ == crate::paths::joined_path_of(
                                self.package_cache@,
                                full_display_of(views_of(closure@)[j]) + ".tar"@,
                            ));
                        }
                    }
                }
            }
            i += 1;
        }
        proof {
            assert(seeds_complete(
                self.cache@,
                self.package_cache@,
                specs@,
                views_of(packages@).to_set(),
                seeds@,
            )) by {
                assert forall|q: (NamespaceView, Seq<char>)| #[trigger]
                    reaches(specs@, false, views_of(packages@).to_set(), q) && artifact_mtime(
                    self.cache@,
                    full_display_of(q),
                ) is Some implies (exists|k: int|
                    0 <= k < seeds@.len() && (#[trigger] seeds@[k])@
                        == crate::paths::joined_path_of(
                        self.package_cache@,
                        full_display_of(q) + ".tar"@,
                    )) by {
                    assert(views_of(closure@).contains(q));
                    let j = choose|j: int|
                        0 <= j < views_of(closure@).len() && views_of(closure@)[j] == q;
                    assert(0 <= j < closure@.len());
                    assert(artifact_mtime(
                        self.cache@,
                        full_display_of(views_of(closure@)[j]),
                    ) is Some);
                }
            }
        }
        Ok(seeds)
    }
}

/// The name of the builder environment for a display name.
pub open spec fn builder_env_of(key: Seq<char>) -> Seq<char> {
    "package-"@ + key
}

/// The name of the test environment for a display name.
pub open spec fn test_env_of(key: Seq<char>) -> Seq<char> {
    "test-"@ + builder_env_of(key)
}

/// Whether a package's build runs cleanly end to end: the builder
/// environment can be named, the build script succeeds, and (when a test
/// script exists) the test succeeds.
pub open spec fn build_clean(
    builds: Seq<(String, bool)>,
    tests: Seq<(String, bool)>,
    s: PackageSpecView,
    key: Seq<char>,
) -> bool {
    &&& valid_name(builder_env_of(key))
    &&& outcome_of(builds, key)
    &&& (s.test is Some ==> outcome_of(tests, key))
}

/// Whether everything the specification's dependencies reach (without
/// build-time edges) resolves; the builder's seeds and Debian set need this.
pub open spec fn deps_resolvable(sv: Seq<PackageSpecView>, s: PackageSpecView) -> bool {
    forall|q: (NamespaceView, Seq<char>)| #[trigger]
        reaches(sv, false, (s.manifest.depends + s.manifest.build_depends).to_set(), q)
            ==> resolvable(sv, q)
}

/// Everything of the program state except the world model: configuration,
/// paths, identity, and the outcome tables.
pub open spec fn same_settings(a: Cubicle, b: Cubicle) -> bool {
    &&& a.config == b.config
    &&& a.shell == b.shell
    &&& a.script_name == b.script_name
    &&& a.script_path == b.script_path
    &&& a.hostname == b.hostname
    &&& a.home == b.home
    &&& a.user == b.user
    &&& a.package_cache == b.package_cache
    &&& a.discovered == b.discovered
    &&& a.build_outcomes == b.build_outcomes
    &&& a.test_outcomes == b.test_outcomes
    &&& a.env_init_outcomes == b.env_init_outcomes
}

/// Appends every element of `extra` to `base`.
pub fn append_names(base: &mut Vec<FullPackageName>, extra: &Vec<FullPackageName>)
    ensures
        views_of(final(base)@) =~= views_of(old(base)@) + views_of(extra@),
{
    let mut i: usize = 0;
    while i < extra.len()
        invariant
            i <= extra@.len(),
            base@.len() == old(base)@.len() + i,
            forall|k: int| 0 <= k < old(base)@.len() ==> base@[k] == old(base)@[k],
            forall|k: int|
                0 <= k < i ==> (#[trigger] base@[old(base)@.len() + k])@ == extra@[k]@,
        decreases extra@.len() - i,
    {
        base.push(extra[i].clone());
        i += 1;
    }
    proof {
        assert forall|k: int|
            0 <= k < views_of(base@).len() implies views_of(base@)[k] == (views_of(old(base)@)
            + views_of(extra@))[k] by {
            if k < old(base)@.len() {
                assert(base@[k] == old(base)@[k]);
            } else {
                let j = k - old(base)@.len();
                assert((base@[old(base)@.len() + j])@ == extra@[j]@);
            }
        }
    }
}

/// Turns a list of package names into their strings, sorted.
pub fn names_as_sorted_strings(v: &Vec<PackageName>) -> (r: Vec<String>)
    ensures
        crate::sets::sorted_strings(crate::sets::strs_of(r@)),
{
    let mut out: Vec<String> = Vec::new();
    let mut i: usize = 0;
    while i < v.len()
        invariant
            i <= v@.len(),
        decreases v@.len() - i,
    {
        out.push(String::from_str(v[i].as_str()));
        i += 1;
    }
    crate::sets::sort_strings(out)
}

/// Whether a path names the cached artifact of some member of the runtime
/// closure of `roots`.
pub open spec fn seed_ok(
    cv: Seq<crate::cache::CacheEntryView>,
    cache_dir: Seq<char>,
    sv: Seq<PackageSpecView>,
    roots: Set<(NamespaceView, Seq<char>)>,
    path: Seq<char>,
) -> bool {
    exists|q: (NamespaceView, Seq<char>)|
        #[trigger] reaches(sv, false, roots, q) && artifact_mtime(cv, full_display_of(q)) is Some
            && path == crate::paths::joined_path_of(cache_dir, full_display_of(q) + ".tar"@)
}

/// Whether the seed list covers every runtime-closure member that has a
/// cached artifact.
pub open spec fn seeds_complete(
    cv: Seq<crate::cache::CacheEntryView>,
    cache_dir: Seq<char>,
    sv: Seq<PackageSpecView>,
    roots: Set<(NamespaceView, Seq<char>)>,
    seeds: Seq<HostPath>,
) -> bool {
    forall|q: (NamespaceView, Seq<char>)| #[trigger]
        reaches(sv, false, roots, q) && artifact_mtime(cv, full_display_of(q)) is Some ==> (
        exists|k: int|
            0 <= k < seeds.len() && (#[trigger] seeds[k])@ == crate::paths::joined_path_of(
                cache_dir,
                full_display_of(q) + ".tar"@,
            ))
}

/// An element-wise copy of the discovery output.
fn clone_discovered(v: &Vec<DiscoveredPackage>) -> (r: Vec<DiscoveredPackage>)
    ensures
        r@.len() == v@.len(),
        forall|k: int|
            0 <= k < v@.len() ==> {
                let a = #[trigger] r@[k];
                let b = v@[k];
                &&& a.name@ == b.name@
                &&& a.manifest@ == b.manifest@
                &&& a.dir@ == b.dir@
                &&& a.origin@ == b.origin@
                &&& a.has_update == b.has_update
                &&& a.has_test == b.has_test
                &&& a.last_modified == b.last_modified
            },
        discovered_wf(v@) ==> discovered_wf(r@),
        scan_fold(Seq::<PackageSpecView>::empty(), r@) == scan_fold(
            Seq::<PackageSpecView>::empty(),
            v@,
        ),
{
    let mut out: Vec<DiscoveredPackage> = Vec::new();
    let mut i: usize = 0;
    while i < v.len()
        invariant
            i <= v@.len(),
            out@.len() == i,
            forall|k: int|
                0 <= k < i ==> {
                    let a = #[trigger] out@[k];
                    let b = v@[k];
                    &&& a.name@ == b.name@
                    &&& a.manifest@ == b.manifest@
                    &&& a.dir@ == b.dir@
                    &&& a.origin@ == b.origin@
                    &&& a.has_update == b.has_update
                    &&& a.has_test == b.has_test
                    &&& a.last_modified == b.last_modified
                },
        decreases v@.len() - i,
    {
        let d = &v[i];
        out.push(
            DiscoveredPackage {
                name: d.name.clone(),
                manifest: d.manifest.clone(),
                dir: d.dir.clone(),
                origin: d.origin.clone(),
                has_update: d.has_update,
                has_test: d.has_test,
                last_modified: d.last_modified,
            },
        );
        i += 1;
    }
    proof {
        lemma_scan_fold_congruent(Seq::<PackageSpecView>::empty(), out@, v@);
    }
    out
}

/// Discovery lists that agree on all views fold to the same registry.
proof fn lemma_scan_fold_congruent(
    sv: Seq<PackageSpecView>,
    a: Seq<DiscoveredPackage>,
    b: Seq<DiscoveredPackage>,
)
    requires
        a.len() == b.len(),
        forall|k: int|
            0 <= k < a.len() ==> {
                let x = #[trigger] a[k];
                let y = b[k];
                &&& x.name@ == y.name@
                &&& x.manifest@ == y.manifest@
                &&& x.dir@ == y.dir@
                &&& x.origin@ == y.origin@
                &&& x.has_update == y.has_update
                &&& x.has_test == y.has_test
                &&& x.last_modified == y.last_modified
            },
    ensures
        scan_fold(sv, a) == scan_fold(sv, b),
    decreases a.len(),
{
    if a.len() > 0 {
        assert(crate::registry::spec_from_discovered(a[0]) =~= crate::registry::spec_from_discovered(
            b[0],
        )) by {
            assert(a[0].manifest@ == b[0].manifest@);
        }
        let sv2 = if find_spec(sv, a[0].name@) is Some {
            sv
        } else {
            sv.push(crate::registry::spec_from_discovered(a[0]))
        };
        let sv2b = if find_spec(sv, b[0].name@) is Some {
            sv
        } else {
            sv.push(crate::registry::spec_from_discovered(b[0]))
        };
        assert(sv2 == sv2b);
        lemma_scan_fold_congruent(sv2, a.drop_first(), b.drop_first());
        assert(forall|k: int|
            0 <= k < a.drop_first().len() ==> a.drop_first()[k] == a[k + 1] && b.drop_first()[k]
                == b[k + 1]);
    }
}

/// What a newline-separated package list means: every `\n`-terminated line
/// (and a final unterminated one) parsed as a fully-qualified name, or
/// nothing when some line does not parse. The empty text is the empty list.
pub open spec fn parse_list_of(s: Seq<char>) -> Option<Seq<(NamespaceView, Seq<char>)>>
    decreases s.len(),
{
    if s.len() == 0 {
        Some(Seq::empty())
    } else {
        match crate::text::find_char_of(s, '\n') {
            None => match crate::names::full_parse_of(s) {
                Some(p) => Some(seq![p]),
                None => None,
            },
            Some(i) => if 0 <= i < s.len() {
                match crate::names::full_parse_of(s.take(i)) {
                    None => None,
                    Some(p) => match parse_list_of(s.skip(i + 1)) {
                        None => None,
                        Some(rest) => Some(seq![p] + rest),
                    },
                }
            } else {
                None
            },
        }
    }
}

/// Parses a newline-separated list of fully-qualified package names; fails
/// exactly when some line does not parse as a name.
pub fn parse_package_list(content: &str) -> (r: Result<Vec<FullPackageName>, Error>)
    ensures
        r is Ok <==> parse_list_of(content@) is Some,
        r matches Ok(names) ==> Some(views_of(names@)) == parse_list_of(content@),
        r matches Ok(names) ==> forall|k: int|
            0 <= k < names@.len() ==> (#[trigger] names@[k]).wf(),
        r matches Err(e) ==> e.kind == ErrorKind::InvalidInput,
{
    let mut names: Vec<FullPackageName> = Vec::new();
    let mut rest: &str = content;
    proof {
        assert(views_of(names@) =~= Seq::<(NamespaceView, Seq<char>)>::empty());
    }
    loop
        invariant
            match parse_list_of(rest@) {
                Some(t) => parse_list_of(content@) == Some(views_of(names@) + t),
                None => parse_list_of(content@) is None,
            },
            forall|k: int| 0 <= k < names@.len() ==> (#[trigger] names@[k]).wf(),
        ensures
            rest@.len() == 0,
            match parse_list_of(rest@) {
                Some(t) => parse_list_of(content@) == Some(views_of(names@) + t),
                None => parse_list_of(content@) is None,
            },
            forall|k: int| 0 <= k < names@.len() ==> (#[trigger] names@[k]).wf(),
        decreases rest@.len(),
    {
        if rest.unicode_len() == 0 {
            break ;
        }
        let ghost old_names = names@;
        let ghost old_rest = rest@;
        match crate::text::find_char(rest, '\n') {
            None => {
                match FullPackageName::from_str(rest) {
                    Ok(name) => {
                        names.push(name);
                        proof {
                            assert(views_of(names@) =~= views_of(old_names).push(name@));
                            assert(parse_list_of(old_rest) == Some(seq![name@]));
                            assert(views_of(old_names) + seq![name@] =~= views_of(names@));
                            assert(views_of(names@) + Seq::<
                                (NamespaceView, Seq<char>),
                            >::empty() =~= views_of(names@));
                        }
                        rest = rest.substring_char(rest.unicode_len(), rest.unicode_len());
                        proof {
                            assert(rest@ =~= Seq::<char>::empty());
                            assert(parse_list_of(rest@) == Some(Seq::<
                                (NamespaceView, Seq<char>),
                            >::empty()));
                        }
                    },
                    Err(e) => {
                        proof {
                            assert(parse_list_of(old_rest) is None);
                        }
                        return Err(e);
                    },
                }
            },
            Some(i) => {
                proof {
                    crate::text::lemma_find_char_of(rest@, '\n');
                }
                let line = rest.substring_char(0, i);
                let len = rest.unicode_len();
                let next = rest.substring_char(i + 1, len);
                proof {
                    assert(line@ =~= rest@.take(i as int));
                    assert(next@ =~= rest@.skip(i + 1));
                }
                match FullPackageName::from_str(line) {
                    Ok(name) => {
                        names.push(name);
                        proof {
                            assert(views_of(names@) =~= views_of(old_names).push(name@));
                            if parse_list_of(next@) is Some {
                                assert(parse_list_of(old_rest) == Some(
                                    seq![name@] + parse_list_of(next@)->Some_0,
                                ));
                                assert(views_of(old_names) + (seq![name@] + parse_list_of(
                                    next@,
                                )->Some_0) =~= views_of(names@) + parse_list_of(next@)->Some_0);
                            } else {
                                assert(parse_list_of(old_rest) is None);
                            }
                        }
                        rest = next;
                    },
                    Err(e) => {
                        proof {
                            assert(parse_list_of(old_rest) is None);
                        }
                        return Err(e);
                    },
                }
            },
        }
    }
    proof {
        assert(parse_list_of(rest@) == Some(Seq::<(NamespaceView, Seq<char>)>::empty()));
        assert(views_of(names@) + Seq::<(NamespaceView, Seq<char>)>::empty() =~= views_of(
            names@,
        ));
    }
    Ok(names)
}

/// Well-formedness of one specification's dependency entries.
pub open spec fn spec_deps_wf(s: PackageSpecView) -> bool {
    &&& forall|k: int|
        0 <= k < s.manifest.depends.len() ==> wf_full(#[trigger] s.manifest.depends[k])
    &&& forall|k: int|
        0 <= k < s.manifest.build_depends.len() ==> wf_full(#[trigger] s.manifest.build_depends[k])
}

impl Cubicle {
    /// Prepares the builder environment for one package and runs its build:
    /// seeds it with its dependencies' artifacts and its source tree, makes
    /// the required Debian packages available, and runs the init script,
    /// resetting the builder when it already exists and creating it fresh
    /// otherwise.
    fn build_package(
        &mut self,
        package_name: &FullPackageName,
        env_name: &EnvironmentName,
        spec: &PackageSpec,
        specs: &PackageSpecs,
    ) -> (r: Result<(), Error>)
        requires
            old(self).wf(),
            specs_wf(specs@),
            spec_deps_wf(spec@),
            package_name.wf(),
            env_name.wf(),
            env_name@ == builder_env_of(full_display_of(package_name@)),
        ensures
            final(self).wf(),
            same_settings(*old(self), *final(self)),
            final(self).cache@ == old(self).cache@,
            final(self).now == old(self).now,
            final(self).warnings@ == old(self).warnings@,
            forall|n: Seq<char>|
                n != env_name@ ==> find_env(final(self).runner@, n) == find_env(
                    old(self).runner@,
                    n,
                ),
            r is Ok <==> (deps_resolvable(specs@, spec@) && outcome_of(
                old(self).build_outcomes@,
                full_display_of(package_name@),
            )),
            deps_resolvable(specs@, spec@) ==> (find_env(final(self).runner@, env_name@)
                matches Some(v) && v.has_home && v.has_work && v.has_provides == outcome_of(
                old(self).build_outcomes@,
                full_display_of(package_name@),
            )),
            !deps_resolvable(specs@, spec@) ==> final(self).runner@ == old(self).runner@,
    {
        let ghost key = full_display_of(package_name@);
        let init = match self.builder_init(package_name, spec, specs) {
            Ok(init) => init,
            Err(e) => {
                return Err(e);
            },
        };
        let pre = self.runner.exists_state(env_name);
        if matches!(pre, EnvironmentExists::NoEnvironment) {
            self.runner.create(env_name, &init)
        } else {
            self.runner.reset(env_name, &init)
        }
    }

    /// Composes the init for a package's builder environment: the cached
    /// artifacts of everything its dependencies (run-time and build-time)
    /// reach, then the package's own source tree; the Debian packages the
    /// configured policy picks, sorted; `PACKAGE=<name>` for a package
    /// outside the root namespace; the shared init script; and the build
    /// script's outcome. Succeeds exactly when the dependencies resolve.
    pub fn builder_init(
        &self,
        package_name: &FullPackageName,
        spec: &PackageSpec,
        specs: &PackageSpecs,
    ) -> (r: Result<Init, Error>)
        requires
            specs_wf(specs@),
            spec_deps_wf(spec@),
            package_name.wf(),
        ensures
            r is Ok <==> deps_resolvable(specs@, spec@),
            r matches Ok(init) ==> {
                &&& init.script_succeeds == outcome_of(
                    self.build_outcomes@,
                    full_display_of(package_name@),
                )
                &&& init.packages_txt is None
                &&& init.script@ == crate::paths::joined_path_of(
                    self.script_path@,
                    "dev-init.sh"@,
                )
                &&& init.seeds@.len() > 0
                &&& (init.seeds@[init.seeds@.len() - 1])@ == spec.dir@
                &&& (forall|k: int|
                    0 <= k < init.seeds@.len() - 1 ==> seed_ok(
                        self.cache@,
                        self.package_cache@,
                        specs@,
                        (spec@.manifest.depends + spec@.manifest.build_depends).to_set(),
                        (#[trigger] init.seeds@[k])@,
                    ))
                &&& seeds_complete(
                    self.cache@,
                    self.package_cache@,
                    specs@,
                    (spec@.manifest.depends + spec@.manifest.build_depends).to_set(),
                    init.seeds@.take(init.seeds@.len() - 1),
                )
                &&& (package_name@.0 is Root ==> init.env_vars@.len() == 0)
                &&& (!(package_name@.0 is Root) ==> init.env_vars@.len() == 1 && (
                init.env_vars@[0].0)@ == "PACKAGE"@ && (init.env_vars@[0].1)@ == package_name@.1)
                &&& crate::sets::sorted_strings(crate::sets::strs_of(init.debian_packages@))
            },
    {
        let mut packages = crate::registry::clone_names(&spec.manifest.depends);
        append_names(&mut packages, &spec.manifest.build_depends);
        proof {
            assert(views_of(packages@) =~= spec@.manifest.depends + spec@.manifest.build_depends);
            assert(views_of(packages@).to_set() =~= (spec@.manifest.depends
                + spec@.manifest.build_depends).to_set());
            assert forall|k: int| 0 <= k < packages@.len() implies wf_full(
                #[trigger] packages@[k]@,
            ) by {
                assert(views_of(packages@)[k] == packages@[k]@);
                assert((spec@.manifest.depends + spec@.manifest.build_depends)[k] == packages@[k]@);
            }
        }
        let mut debian = match self.resolve_debian_packages(&packages, specs) {
            Ok(d) => d,
            Err(e) => {
                return Err(e);
            },
        };
        crate::registry::add_debian_names(&mut debian, &spec.manifest.depends);
        crate::registry::add_debian_names(&mut debian, &spec.manifest.build_depends);
        let debian_packages = names_as_sorted_strings(&debian);
        let mut seeds = match self.packages_to_seeds(&packages, specs) {
            Ok(seedlist) => seedlist,
            Err(e) => {
                return Err(e);
            },
        };
        let ghost artifact_seeds = seeds@;
        seeds.push(spec.dir.clone());
        proof {
            assert(seeds@.take(seeds@.len() - 1) =~= artifact_seeds);
            assert(forall|k: int|
                0 <= k < artifact_seeds.len() ==> seeds@[k] == artifact_seeds[k]);
        }
        let mut env_vars: Vec<(String, String)> = Vec::new();
        let is_root = matches!(&package_name.0, PackageNamespace::Root);
        if !is_root {
            env_vars.push(
                (String::from_str("PACKAGE"), String::from_str(package_name.1.as_str())),
            );
        }
        let key_str = package_name.as_filename_component();
        let script_succeeds = lookup_outcome(&self.build_outcomes, key_str.as_str());
        Ok(
            Init {
                seeds,
                packages_txt: None,
                script: self.script_path.join("dev-init.sh"),
                debian_packages,
                env_vars,
                script_succeeds,
            },
        )
    }

    /// Composes the init for a package's test environment: the cached
    /// artifacts of everything its run-time dependencies reach, then the
    /// freshly staged artifact, then the package's own source tree (the
    /// source seed carries no update script, so the init will not re-run the
    /// build); the Debian packages for the run-time set; `PACKAGE=<name>`
    /// outside the root namespace; the shared init script with the build's
    /// outcome. Succeeds exactly when the run-time dependencies resolve.
    pub fn test_init(
        &self,
        package_name: &FullPackageName,
        spec: &PackageSpec,
        specs: &PackageSpecs,
    ) -> (r: Result<Init, Error>)
        requires
            specs_wf(specs@),
            spec_deps_wf(spec@),
            package_name.wf(),
        ensures
            r is Ok <==> (forall|q: (NamespaceView, Seq<char>)| #[trigger]
                reaches(specs@, false, spec@.manifest.depends.to_set(), q) ==> resolvable(
                    specs@,
                    q,
                )),
            r matches Ok(init) ==> {
                &&& init.script_succeeds == outcome_of(
                    self.build_outcomes@,
                    full_display_of(package_name@),
                )
                &&& init.packages_txt is None
                &&& init.script@ == crate::paths::joined_path_of(
                    self.script_path@,
                    "dev-init.sh"@,
                )
                &&& init.seeds@.len() >= 2
                &&& (init.seeds@[init.seeds@.len() - 1])@ == spec.dir@
                &&& (init.seeds@[init.seeds@.len() - 2])@ == crate::paths::joined_path_of(
                    self.package_cache@,
                    full_display_of(package_name@) + ".testing.tar"@,
                )
                &&& (forall|k: int|
                    0 <= k < init.seeds@.len() - 2 ==> seed_ok(
                        self.cache@,
                        self.package_cache@,
                        specs@,
                        spec@.manifest.depends.to_set(),
                        (#[trigger] init.seeds@[k])@,
                    ))
                &&& seeds_complete(
                    self.cache@,
                    self.package_cache@,
                    specs@,
                    spec@.manifest.depends.to_set(),
                    init.seeds@.take(init.seeds@.len() - 2),
                )
                &&& (package_name@.0 is Root ==> init.env_vars@.len() == 0)
                &&& (!(package_name@.0 is Root) ==> init.env_vars@.len() == 1 && (
                init.env_vars@[0].0)@ == "PACKAGE"@ && (init.env_vars@[0].1)@ == package_name@.1)
                &&& crate::sets::sorted_strings(crate::sets::strs_of(init.debian_packages@))
            },
    {
        let packages = crate::registry::clone_names(&spec.manifest.depends);
        proof {
            assert(views_of(packages@) =~= spec@.manifest.depends);
            assert(views_of(packages@).to_set() =~= spec@.manifest.depends.to_set());
            assert forall|k: int| 0 <= k < packages@.len() implies wf_full(
                #[trigger] packages@[k]@,
            ) by {
                assert(views_of(packages@)[k] == packages@[k]@);
            }
        }
        let mut debian = match self.resolve_debian_packages(&packages, specs) {
            Ok(d) => d,
            Err(e) => {
                return Err(e);
            },
        };
        crate::registry::add_debian_names(&mut debian, &spec.manifest.depends);
        let debian_packages = names_as_sorted_strings(&debian);
        let mut seeds = match self.packages_to_seeds(&packages, specs) {
            Ok(seedlist) => seedlist,
            Err(e) => {
                return Err(e);
            },
        };
        let ghost artifact_seeds = seeds@;
        let key_str = package_name.as_filename_component();
        let testing_file = concat2(key_str.as_str(), ".testing.tar");
        seeds.push(self.package_cache.join(testing_file.as_str()));
        seeds.push(spec.dir.clone());
        proof {
            assert(seeds@.take(seeds@.len() - 2) =~= artifact_seeds);
            assert(forall|k: int|
                0 <= k < artifact_seeds.len() ==> seeds@[k] == artifact_seeds[k]);
        }
        let mut env_vars: Vec<(String, String)> = Vec::new();
        let is_root = matches!(&package_name.0, PackageNamespace::Root);
        if !is_root {
            env_vars.push(
                (String::from_str("PACKAGE"), String::from_str(package_name.1.as_str())),
            );
        }
        let script_succeeds = lookup_outcome(&self.build_outcomes, key_str.as_str());
        Ok(
            Init {
                seeds,
                packages_txt: None,
                script: self.script_path.join("dev-init.sh"),
                debian_packages,
                env_vars,
                script_succeeds,
            },
        )
    }

    /// Builds and checks one package inside throwaway environments, then
    /// commits the produced artifact: build, copy the artifact out to the
    /// staging file, run the package's test when it has one, and rename the
    /// staging file over the committed artifact.
    fn update_package_inner(
        &mut self,
        package_name: &FullPackageName,
        spec: &PackageSpec,
        specs: &PackageSpecs,
    ) -> (r: Result<(), Error>)
        requires
            old(self).wf(),
            specs_wf(specs@),
            spec_deps_wf(spec@),
            package_name.wf(),
        ensures
            final(self).wf(),
            same_settings(*old(self), *final(self)),
            final(self).now >= old(self).now,
            final(self).warnings@ == old(self).warnings@,
            forall|k: Seq<char>|
                k != full_display_of(package_name@) ==> find_cache(final(self).cache@, k)
                    == find_cache(old(self).cache@, k),
            forall|n: Seq<char>|
                n != builder_env_of(full_display_of(package_name@)) && n != test_env_of(
                    full_display_of(package_name@),
                ) ==> find_env(final(self).runner@, n) == find_env(old(self).runner@, n),
            r is Ok <==> (build_clean(
                old(self).build_outcomes@,
                old(self).test_outcomes@,
                spec@,
                full_display_of(package_name@),
            ) && deps_resolvable(specs@, spec@)),
            r is Ok ==> artifact_mtime(final(self).cache@, full_display_of(package_name@)) == Some(
                final(self).now,
            ) && !has_failed_marker(final(self).cache@, full_display_of(package_name@)),
            r is Err ==> artifact_mtime(final(self).cache@, full_display_of(package_name@))
                == artifact_mtime(old(self).cache@, full_display_of(package_name@))
                && has_failed_marker(final(self).cache@, full_display_of(package_name@))
                == has_failed_marker(old(self).cache@, full_display_of(package_name@)),
    {
        let ghost key = full_display_of(package_name@);
        let env_name = match EnvironmentName::for_builder_package(package_name) {
            Ok(e) => e,
            Err(e) => {
                proof {
                    assert(!valid_name(builder_env_of(key)));
                }
                return Err(e);
            },
        };
        match self.build_package(package_name, &env_name, spec, specs) {
            Ok(()) => {},
            Err(e) => {
                return Err(e);
            },
        }
        let ghost mid = *self;
        match self.runner.copy_out_from_home(&env_name, "provides.tar") {
            Ok(()) => {},
            Err(e) => {
                proof {
                    assert(deps_resolvable(specs@, spec@));
                    assert(outcome_of(old(self).build_outcomes@, key));
                    assert(find_env(mid.runner@, env_name@) matches Some(v) && v.has_provides);
                    assert(false);
                }
                return Err(e);
            },
        }
        if self.now < u64::MAX {
            self.now = self.now + 1;
        }
        let key_str = package_name.as_filename_component();
        self.cache.write_testing(key_str.as_str(), self.now);
        if spec.test.is_some() {
            match self.test_package(package_name, &env_name, spec, specs) {
                Ok(()) => {},
                Err(e) => {
                    proof {
                        if build_clean(
                            old(self).build_outcomes@,
                            old(self).test_outcomes@,
                            spec@,
                            key,
                        ) && deps_resolvable(specs@, spec@) {
                            let small = spec@.manifest.depends.to_set();
                            let big = (spec@.manifest.depends
                                + spec@.manifest.build_depends).to_set();
                            assert(small.subset_of(big)) by {
                                assert forall|x: (NamespaceView, Seq<char>)|
                                    small.contains(x) implies big.contains(x) by {
                                    let k = choose|k: int|
                                        0 <= k < spec@.manifest.depends.len()
                                            && spec@.manifest.depends[k] == x;
                                    assert((spec@.manifest.depends
                                        + spec@.manifest.build_depends)[k] == x);
                                }
                            }
                            assert forall|q: (NamespaceView, Seq<char>)| #[trigger]
                                reaches(specs@, false, small, q) implies resolvable(
                                specs@,
                                q,
                            ) by {
                                crate::registry::lemma_reaches_roots_subset(
                                    specs@,
                                    false,
                                    small,
                                    big,
                                    q,
                                );
                            }
                            assert(false);
                        }
                    }
                    return Err(e);
                },
            }
        }
        match self.cache.commit(key_str.as_str()) {
            Ok(()) => Ok(()),
            Err(e) => {
                proof {
                    assert(false);
                }
                Err(e)
            },
        }
    }

    /// Checks one freshly built package: seeds a throwaway test environment
    /// with the package's runtime dependencies, the staged artifact and the
    /// sources (without the update script), runs the test script inside, and
    /// purges the environment again on either outcome.
    fn test_package(
        &mut self,
        package_name: &FullPackageName,
        env_name: &EnvironmentName,
        spec: &PackageSpec,
        specs: &PackageSpecs,
    ) -> (r: Result<(), Error>)
        requires
            old(self).wf(),
            specs_wf(specs@),
            spec_deps_wf(spec@),
            package_name.wf(),
            env_name.wf(),
            env_name@ == builder_env_of(full_display_of(package_name@)),
        ensures
            final(self).wf(),
            same_settings(*old(self), *final(self)),
            final(self).cache@ == old(self).cache@,
            final(self).now == old(self).now,
            final(self).warnings@ == old(self).warnings@,
            forall|n: Seq<char>|
                n != test_env_of(full_display_of(package_name@)) ==> find_env(
                    final(self).runner@,
                    n,
                ) == find_env(old(self).runner@, n),
            exists_of(final(self).runner@, test_env_of(full_display_of(package_name@)))
                == EnvironmentExists::NoEnvironment,
            r is Ok <==> ((forall|q: (NamespaceView, Seq<char>)| #[trigger]
                reaches(specs@, false, spec@.manifest.depends.to_set(), q) ==> resolvable(
                    specs@,
                    q,
                )) && outcome_of(old(self).build_outcomes@, full_display_of(package_name@))
                && outcome_of(old(self).test_outcomes@, full_display_of(package_name@))),
    {
        let ghost key = full_display_of(package_name@);
        let test_name_str = concat2("test-", env_name.as_str());
        proof {
            reveal_strlit("test-");
            assert(valid_name(test_name_str@)) by {
                assert forall|i: int| 0 <= i < test_name_str@.len() implies crate::names::is_name_char(
                    #[trigger] test_name_str@[i],
                ) by {
                    if i < 5 {
                        assert(test_name_str@[i] == "test-"@[i]);
                    } else {
                        assert(test_name_str@[i] == env_name@[i - 5]);
                    }
                }
            }
            assert(forall|i: int|
                0 <= i < test_name_str@.len() ==> crate::names::is_package_char(
                    #[trigger] test_name_str@[i],
                ));
            crate::names::lemma_trim_of_valid(test_name_str@);
        }
        let test_name = match EnvironmentName::from_str(test_name_str.as_str()) {
            Ok(n) => n,
            Err(e) => {
                proof {
                    assert(false);
                }
                return Err(e);
            },
        };
        proof {
            assert(test_name@ == test_env_of(key));
        }
        match self.runner.purge(&test_name) {
            Ok(()) => {},
            Err(e) => {
                return Err(e);
            },
        }
        let init = match self.test_init(package_name, spec, specs) {
            Ok(init) => init,
            Err(e) => {
                return Err(e);
            },
        };
        let key_str = package_name.as_filename_component();
        let create_res = self.runner.create(&test_name, &init);
        let run_res = match create_res {
            Ok(()) => {
                let test_ok = lookup_outcome(&self.test_outcomes, key_str.as_str());
                let mut command: Vec<String> = Vec::new();
                match &spec.test {
                    Some(script) => command.push(String::from_str(script.as_str())),
                    None => command.push(String::from_str("./test.sh")),
                }
                self.runner.run(&test_name, &RunnerCommand::Exec(command, test_ok))
            },
            Err(e) => Err(e),
        };
        match self.runner.purge(&test_name) {
            Ok(()) => {},
            Err(e) => {
                return Err(e);
            },
        }
        run_res
    }

    /// Rebuilds one package, keeping the cache's failure accounting: on any
    /// failure a failure marker is left, and when a previously committed
    /// artifact still exists the stale artifact is kept and used (a warning
    /// outside this model), so the update succeeds with the old artifact.
    fn update_package(
        &mut self,
        package_name: &FullPackageName,
        spec: &PackageSpec,
        specs: &PackageSpecs,
    ) -> (r: Result<(), Error>)
        requires
            old(self).wf(),
            specs_wf(specs@),
            spec_deps_wf(spec@),
            package_name.wf(),
        ensures
            final(self).wf(),
            same_settings(*old(self), *final(self)),
            final(self).now >= old(self).now,
            forall|k: Seq<char>|
                k != full_display_of(package_name@) ==> find_cache(final(self).cache@, k)
                    == find_cache(old(self).cache@, k),
            forall|n: Seq<char>|
                n != builder_env_of(full_display_of(package_name@)) && n != test_env_of(
                    full_display_of(package_name@),
                ) ==> find_env(final(self).runner@, n) == find_env(old(self).runner@, n),
            build_clean(
                old(self).build_outcomes@,
                old(self).test_outcomes@,
                spec@,
                full_display_of(package_name@),
            ) && deps_resolvable(specs@, spec@) ==> {
                &&& r is Ok
                &&& artifact_mtime(final(self).cache@, full_display_of(package_name@)) == Some(
                    final(self).now,
                )
                &&& !has_failed_marker(final(self).cache@, full_display_of(package_name@))
            },
            !(build_clean(
                old(self).build_outcomes@,
                old(self).test_outcomes@,
                spec@,
                full_display_of(package_name@),
            ) && deps_resolvable(specs@, spec@)) ==> {
                &&& artifact_mtime(final(self).cache@, full_display_of(package_name@))
                    == artifact_mtime(old(self).cache@, full_display_of(package_name@))
                &&& has_failed_marker(final(self).cache@, full_display_of(package_name@))
                &&& (r is Ok <==> artifact_mtime(old(self).cache@, full_display_of(package_name@))
                    is Some)
                &&& (r is Ok ==> final(self).warnings@.len() == old(self).warnings@.len() + 1
                    && final(self).warnings@.last()@ == "using stale version of "@
                    + full_display_of(package_name@))
            },
            r matches Err(e) ==> e.context@.len() > 0 && e.context@.last()@
                == "failed to update package: "@ + full_display_of(package_name@),
    {
        match self.update_package_inner(package_name, spec, specs) {
            Ok(()) => Ok(()),
            Err(e) => {
                let key_str = package_name.as_filename_component();
                let e = e.add_context(concat2("failed to update package: ", key_str.as_str()));
                self.cache.mark_failed(key_str.as_str());
                if self.cache.last_built(key_str.as_str()).is_some() {
                    let warning = concat2("using stale version of ", key_str.as_str());
                    self.warnings.push(warning);
                    Ok(())
                } else {
                    Err(e)
                }
            },
        }
    }
}

/// Whether a sequence has `p` as a prefix.
pub open spec fn has_prefix(n: Seq<char>, p: Seq<char>) -> bool {
    n.len() >= p.len() && n.take(p.len() as int) == p
}

/// Whether two distinct reachable names ever share a display form; the
/// cache files are keyed by display form, so the update flow assumes they do
/// not.
pub open spec fn displays_injective(
    sv: Seq<PackageSpecView>,
    roots: Set<(NamespaceView, Seq<char>)>,
) -> bool {
    forall|q1: (NamespaceView, Seq<char>), q2: (NamespaceView, Seq<char>)|
        #[trigger] reaches(sv, true, roots, q1) && #[trigger] reaches(sv, true, roots, q2) && q1
            != q2 ==> full_display_of(q1) != full_display_of(q2)
}

/// Whether `k` is the display form of some buildable (non-Debian) node
/// reachable from the roots; these are the only cache keys an update may
/// touch.
pub open spec fn display_of_reachable(
    sv: Seq<PackageSpecView>,
    roots: Set<(NamespaceView, Seq<char>)>,
    k: Seq<char>,
) -> bool {
    exists|q: (NamespaceView, Seq<char>)|
        #[trigger] reaches(sv, true, roots, q) && !(q.0 is Debian) && full_display_of(q) == k
}

/// Whether the display of some member of a name list equals `k`.
pub open spec fn some_display_is(s: Seq<FullPackageName>, k: Seq<char>) -> bool {
    exists|i: int| 0 <= i < s.len() && full_display_of((#[trigger] s[i])@) == k
}

/// Whether both update conditions are staleness-sensitive (rebuild always or
/// when stale, never merely when missing).
pub open spec fn staleness_conditions(c: UpdatePackagesConditions) -> bool {
    &&& (c.named == ShouldPackageUpdate::Always || c.named == ShouldPackageUpdate::IfStale)
    &&& (c.dependencies == ShouldPackageUpdate::Always || c.dependencies
        == ShouldPackageUpdate::IfStale)
}

/// The hypotheses under which the update loop owes a package a fresh,
/// unmarked artifact: it is a buildable (non-Debian) package with an update
/// script whose build runs cleanly and whose dependencies resolve.
pub open spec fn owed_build(
    sv: Seq<PackageSpecView>,
    builds: Seq<(String, bool)>,
    tests: Seq<(String, bool)>,
    q: (NamespaceView, Seq<char>),
) -> bool {
    &&& !(q.0 is Debian)
    &&& spec_of(sv, q) is Some
    &&& spec_of(sv, q)->Some_0.update is Some
    &&& build_clean(builds, tests, spec_of(sv, q)->Some_0, full_display_of(q))
    &&& deps_resolvable(sv, spec_of(sv, q)->Some_0)
}

/// Every processed package that is owed a build has an artifact, and bears a
/// failure marker only if it already had one before the run.
pub open spec fn done_ok(
    sv: Seq<PackageSpecView>,
    builds: Seq<(String, bool)>,
    tests: Seq<(String, bool)>,
    cache0: Seq<crate::cache::CacheEntryView>,
    cache: Seq<crate::cache::CacheEntryView>,
    done: Seq<FullPackageName>,
) -> bool {
    forall|d: int|
        0 <= d < done.len() && owed_build(sv, builds, tests, (#[trigger] done[d])@) ==> {
            &&& artifact_mtime(cache, full_display_of(done[d]@)) is Some
            &&& (has_failed_marker(cache, full_display_of(done[d]@)) ==> has_failed_marker(
                cache0,
                full_display_of(done[d]@),
            ))
        }
}

/// No processed package that is owed a build has a dependency artifact newer
/// than its own.
pub open spec fn done_ordered(
    sv: Seq<PackageSpecView>,
    builds: Seq<(String, bool)>,
    tests: Seq<(String, bool)>,
    cache: Seq<crate::cache::CacheEntryView>,
    done: Seq<FullPackageName>,
) -> bool {
    forall|d: int, j: int|
        0 <= d < done.len() && owed_build(sv, builds, tests, done[d]@) && 0 <= j < dep_keys_of(
            spec_of(sv, done[d]@)->Some_0,
        ).len() && (#[trigger] artifact_mtime(
            cache,
            dep_keys_of(spec_of(sv, (#[trigger] done[d])@)->Some_0)[j],
        )) is Some && artifact_mtime(cache, full_display_of(done[d]@)) is Some
            ==> artifact_mtime(cache, dep_keys_of(spec_of(sv, done[d]@)->Some_0)[j])->Some_0
            <= artifact_mtime(cache, full_display_of(done[d]@))->Some_0
}

/// Whether every non-Debian dependency of a resolvable node is among the
/// processed ones.
pub open spec fn deps_done(
    sv: Seq<PackageSpecView>,
    q: (NamespaceView, Seq<char>),
    done_views: Seq<(NamespaceView, Seq<char>)>,
) -> bool {
    forall|j: int|
        0 <= j < deps_of_spec(spec_of(sv, q)->Some_0, true).len() && !((#[trigger] deps_of_spec(
            spec_of(sv, q)->Some_0,
            true,
        )[j]).0 is Debian) ==> done_views.contains(deps_of_spec(spec_of(sv, q)->Some_0, true)[j])
}

/// A witness that the buildable dependency graph has no cycle: a rank that
/// strictly drops along every dependency edge between non-Debian reachable
/// nodes.
pub open spec fn rank_decreases(
    sv: Seq<PackageSpecView>,
    roots: Set<(NamespaceView, Seq<char>)>,
    rank: Map<(NamespaceView, Seq<char>), nat>,
) -> bool {
    forall|p: (NamespaceView, Seq<char>), q: (NamespaceView, Seq<char>)|
        reaches(sv, true, roots, p) && !(p.0 is Debian) && !(q.0 is Debian) && #[trigger] dep_edge(
            sv,
            true,
            p,
            q,
        ) ==> rank[q] < rank[p]
}

/// Whether the buildable dependency graph is acyclic.
pub open spec fn acyclic_deps(
    sv: Seq<PackageSpecView>,
    roots: Set<(NamespaceView, Seq<char>)>,
) -> bool {
    exists|rank: Map<(NamespaceView, Seq<char>), nat>| #[trigger] rank_decreases(sv, roots, rank)
}

/// The hypotheses under which the update owes overall success: everything
/// reachable resolves, the buildable graph has no cycle, and every
/// reachable buildable package's dependencies resolve and (when it has an
/// update script) its build runs cleanly.
pub open spec fn update_succeeds_hyp(
    sv: Seq<PackageSpecView>,
    roots: Set<(NamespaceView, Seq<char>)>,
    builds: Seq<(String, bool)>,
    tests: Seq<(String, bool)>,
) -> bool {
    &&& (forall|q: (NamespaceView, Seq<char>)| #[trigger]
        reaches(sv, true, roots, q) ==> resolvable(sv, q))
    &&& acyclic_deps(sv, roots)
    &&& (forall|q: (NamespaceView, Seq<char>)| #[trigger]
        reaches(sv, true, roots, q) && !(q.0 is Debian) ==> deps_resolvable(
            sv,
            spec_of(sv, q)->Some_0,
        ) && (spec_of(sv, q)->Some_0.update is Some ==> build_clean(
            builds,
            tests,
            spec_of(sv, q)->Some_0,
            full_display_of(q),
        )))
}

/// Whether position `k` holds a minimal-rank member of the list.
spec fn min_rank_at(
    vs: Seq<(NamespaceView, Seq<char>)>,
    rank: Map<(NamespaceView, Seq<char>), nat>,
    k: int,
) -> bool {
    0 <= k < vs.len() && (forall|j: int|
        0 <= j < vs.len() ==> rank[vs[k]] <= rank[#[trigger] vs[j]])
}

/// Every nonempty list of nodes has a member of minimal rank.
proof fn lemma_min_rank_index(
    vs: Seq<(NamespaceView, Seq<char>)>,
    rank: Map<(NamespaceView, Seq<char>), nat>,
)
    requires
        vs.len() > 0,
    ensures
        exists|k: int| #[trigger] min_rank_at(vs, rank, k),
    decreases vs.len(),
{
    if vs.len() == 1 {
        assert forall|j: int| 0 <= j < vs.len() implies rank[vs[0]] <= rank[#[trigger] vs[j]] by {
            assert(j == 0);
        }
        assert(min_rank_at(vs, rank, 0));
    } else {
        lemma_min_rank_index(vs.drop_last(), rank);
        let k0 = choose|k: int| #[trigger] min_rank_at(vs.drop_last(), rank, k);
        assert(vs.drop_last()[k0] == vs[k0]);
        let last = vs.len() - 1;
        if rank[vs[k0]] <= rank[vs[last]] {
            assert forall|j: int| 0 <= j < vs.len() implies rank[vs[k0]] <= rank[
                #[trigger] vs[j]] by {
                if j < last {
                    assert(vs[j] == vs.drop_last()[j]);
                    assert(rank[vs.drop_last()[k0]] <= rank[vs.drop_last()[j]]);
                }
            }
            assert(min_rank_at(vs, rank, k0));
        } else {
            assert forall|j: int| 0 <= j < vs.len() implies rank[vs[last]] <= rank[
                #[trigger] vs[j]] by {
                if j < last {
                    assert(vs[j] == vs.drop_last()[j]);
                    assert(rank[vs.drop_last()[k0]] <= rank[vs.drop_last()[j]]);
                }
            }
            assert(min_rank_at(vs, rank, last));
        }
    }
}

/// Every processed package's non-Debian dependencies were processed too.
pub open spec fn done_deps_in(sv: Seq<PackageSpecView>, done: Seq<FullPackageName>) -> bool {
    forall|d: int, j: int|
        0 <= d < done.len() && spec_of(sv, done[d]@) is Some && 0 <= j < deps_of_spec(
            spec_of(sv, done[d]@)->Some_0,
            true,
        ).len() && !((#[trigger] deps_of_spec(spec_of(sv, (#[trigger] done[d])@)->Some_0, true)[
        j]).0 is Debian) ==> views_of(done).contains(
            deps_of_spec(spec_of(sv, done[d]@)->Some_0, true)[j],
        )
}

/// Every processed package's non-Debian dependencies were processed
/// earlier.
pub open spec fn done_deps_before(sv: Seq<PackageSpecView>, done: Seq<FullPackageName>) -> bool {
    forall|d: int, j: int|
        0 <= d < done.len() && spec_of(sv, done[d]@) is Some && 0 <= j < deps_of_spec(
            spec_of(sv, done[d]@)->Some_0,
            true,
        ).len() && !((#[trigger] deps_of_spec(spec_of(sv, (#[trigger] done[d])@)->Some_0, true)[
        j]).0 is Debian) ==> views_of(done.take(d)).contains(
            deps_of_spec(spec_of(sv, done[d]@)->Some_0, true)[j],
        )
}

/// The first position of a node in a list of names, or the length when it
/// is absent.
pub open spec fn first_index_of(
    s: Seq<(NamespaceView, Seq<char>)>,
    q: (NamespaceView, Seq<char>),
) -> int
    decreases s.len(),
{
    if s.len() == 0 {
        0
    } else if s[0] == q {
        0
    } else {
        1 + first_index_of(s.drop_first(), q)
    }
}

proof fn lemma_first_index(s: Seq<(NamespaceView, Seq<char>)>, q: (NamespaceView, Seq<char>))
    requires
        s.contains(q),
    ensures
        0 <= first_index_of(s, q) < s.len(),
        s[first_index_of(s, q)] == q,
    decreases s.len(),
{
    if s.len() > 0 && s[0] != q {
        assert(s.drop_first().contains(q)) by {
            let k = choose|k: int| 0 <= k < s.len() && s[k] == q;
            assert(s.drop_first()[k - 1] == q);
        }
        lemma_first_index(s.drop_first(), q);
    }
}

proof fn lemma_first_index_le(
    s: Seq<(NamespaceView, Seq<char>)>,
    q: (NamespaceView, Seq<char>),
    k: int,
)
    requires
        0 <= k < s.len(),
        s[k] == q,
    ensures
        first_index_of(s, q) <= k,
    decreases s.len(),
{
    if s.len() > 0 && s[0] != q {
        assert(k >= 1);
        assert(s.drop_first()[k - 1] == q);
        lemma_first_index_le(s.drop_first(), q, k - 1);
    }
}

/// The display forms of a list of names, joined with `", "`.
pub open spec fn joined_displays_of(s: Seq<(NamespaceView, Seq<char>)>) -> Seq<char>
    decreases s.len(),
{
    if s.len() == 0 {
        Seq::empty()
    } else if s.len() == 1 {
        full_display_of(s[0])
    } else {
        joined_displays_of(s.drop_last()) + ", "@ + full_display_of(s.last())
    }
}

/// Joins the display forms of a list of names with `", "`.
fn join_displays(v: &Vec<FullPackageName>) -> (r: String)
    ensures
        r@ == joined_displays_of(views_of(v@)),
{
    let mut out = String::new();
    let mut i: usize = 0;
    proof {
        assert(views_of(v@).take(0) =~= Seq::<(NamespaceView, Seq<char>)>::empty());
    }
    while i < v.len()
        invariant
            i <= v@.len(),
            out@ == joined_displays_of(views_of(v@).take(i as int)),
        decreases v@.len() - i,
    {
        if i > 0 {
            out.append(", ");
        }
        let d = v[i].unquoted();
        out.append(d.as_str());
        proof {
            assert(views_of(v@).take(i + 1).drop_last() =~= views_of(v@).take(i as int));
            assert(views_of(v@).take(i + 1).last() == views_of(v@)[i as int]);
            assert(views_of(v@)[i as int] == v@[i as int]@);
        }
        i += 1;
    }
    proof {
        assert(views_of(v@).take(v@.len() as int) =~= views_of(v@));
    }
    out
}

/// The builder and test environment names carry their reserved prefixes.
proof fn lemma_builder_prefixes(key: Seq<char>)
    ensures
        has_prefix(builder_env_of(key), "package-"@),
        has_prefix(test_env_of(key), "test-package-"@),
{
    reveal_strlit("package-");
    reveal_strlit("test-");
    reveal_strlit("test-package-");
    assert(builder_env_of(key).take("package-"@.len() as int) =~= "package-"@);
    assert(test_env_of(key).take("test-package-"@.len() as int) =~= "test-package-"@);
}

/// The specification a node resolves through is a registry member, so its
/// dependency entries are well-formed.
proof fn lemma_spec_of_member(sv: Seq<PackageSpecView>, pv: (NamespaceView, Seq<char>))
    requires
        specs_wf(sv),
        spec_of(sv, pv) is Some,
    ensures
        spec_deps_wf(spec_of(sv, pv)->Some_0),
{
    let s = spec_of(sv, pv)->Some_0;
    match pv.0 {
        NamespaceView::Root => {
            crate::registry::lemma_find_spec_member(sv, pv.1);
        },
        NamespaceView::Managed(m) => {
            crate::registry::lemma_find_spec_member(sv, m);
        },
        NamespaceView::Debian => {},
    }
    assert(sv.contains(s));
    let i = choose|i: int| 0 <= i < sv.len() && sv[i] == s;
    assert(forall|k: int|
        0 <= k < sv[i].manifest.depends.len() ==> wf_full(#[trigger] sv[i].manifest.depends[k]));
    assert(forall|k: int|
        0 <= k < sv[i].manifest.build_depends.len() ==> wf_full(
            #[trigger] sv[i].manifest.build_depends[k],
        ));
}

/// Each dependency display of a resolvable processed package belongs to a
/// reachable node distinct from the freshly processed one, so a cache change
/// at the fresh key leaves every already-accounted entry alone.
proof fn lemma_done_preserved(
    sv: Seq<PackageSpecView>,
    roots: Set<(NamespaceView, Seq<char>)>,
    builds: Seq<(String, bool)>,
    tests: Seq<(String, bool)>,
    cache0: Seq<crate::cache::CacheEntryView>,
    old_cache: Seq<crate::cache::CacheEntryView>,
    new_cache: Seq<crate::cache::CacheEntryView>,
    old_done: Seq<FullPackageName>,
    pv: (NamespaceView, Seq<char>),
    with_order: bool,
)
    requires
        displays_injective(sv, roots),
        forall|q: (NamespaceView, Seq<char>)| #[trigger]
            reaches(sv, true, roots, q) ==> resolvable(sv, q),
        forall|k: int|
            0 <= k < old_done.len() ==> reaches(sv, true, roots, (#[trigger] old_done[k])@) && !(
            old_done[k]@.0 is Debian),
        !views_of(old_done).contains(pv),
        reaches(sv, true, roots, pv),
        !(pv.0 is Debian),
        done_deps_in(sv, old_done),
        done_ok(sv, builds, tests, cache0, old_cache, old_done),
        with_order ==> done_ordered(sv, builds, tests, old_cache, old_done),
        forall|k: Seq<char>|
            k != full_display_of(pv) ==> #[trigger] find_cache(new_cache, k) == find_cache(
                old_cache,
                k,
            ),
    ensures
        done_ok(sv, builds, tests, cache0, new_cache, old_done),
        with_order ==> done_ordered(sv, builds, tests, new_cache, old_done),
{
    let key = full_display_of(pv);
    assert forall|d: int| 0 <= d < old_done.len() implies full_display_of(
        (#[trigger] old_done[d])@,
    ) != key by {
        assert(views_of(old_done)[d] == old_done[d]@);
        assert(old_done[d]@ != pv) by {
            if old_done[d]@ == pv {
                assert(views_of(old_done).contains(pv)) by {
                    assert(views_of(old_done)[d] == pv);
                }
            }
        }
        assert(reaches(sv, true, roots, old_done[d]@));
    }
    assert forall|d: int, j: int|
        0 <= d < old_done.len() && spec_of(sv, old_done[d]@) is Some && 0 <= j < dep_keys_of(
            spec_of(sv, old_done[d]@)->Some_0,
        ).len() implies #[trigger] dep_keys_of(spec_of(sv, (#[trigger] old_done[d])@)->Some_0)[j]
        != key by {
        let dv = old_done[d]@;
        let spec = spec_of(sv, dv)->Some_0;
        let b1 = spec.manifest.build_depends.len() as int;
        let w = (spec.manifest.build_depends + spec.manifest.depends)[j];
        assert(dep_keys_of(spec)[j] == full_display_of(w));
        let j2: int = if j < b1 {
            spec.manifest.depends.len() + j
        } else {
            j - b1
        };
        assert(deps_of_spec(spec, true)[j2] == w) by {
            if j < b1 {
                assert(w == spec.manifest.build_depends[j]);
            } else {
                assert(w == spec.manifest.depends[j - b1]);
            }
        }
        assert(reaches(sv, true, roots, w)) by {
            assert(reaches(sv, true, roots, dv));
            assert(resolvable(sv, dv));
            assert(crate::registry::direct_deps(sv, true, dv) == deps_of_spec(spec, true));
            assert(dep_edge(sv, true, dv, w)) by {
                assert(crate::registry::direct_deps(sv, true, dv).contains(w)) by {
                    assert(crate::registry::direct_deps(sv, true, dv)[j2] == w);
                }
            }
            crate::registry::lemma_reaches_step(sv, true, roots, dv, w);
        }
        assert(w != pv) by {
            if !(w.0 is Debian) {
                assert(views_of(old_done).contains(
                    deps_of_spec(spec_of(sv, old_done[d]@)->Some_0, true)[j2],
                ));
            }
        }
        assert(full_display_of(w) != key);
    }
    assert forall|d: int|
        0 <= d < old_done.len() && owed_build(sv, builds, tests, (#[trigger] old_done[d])@)
        implies {
        &&& artifact_mtime(new_cache, full_display_of(old_done[d]@)) is Some
        &&& (has_failed_marker(new_cache, full_display_of(old_done[d]@)) ==> has_failed_marker(
            cache0,
            full_display_of(old_done[d]@),
        ))
    } by {
        assert(full_display_of(old_done[d]@) != key);
        assert(find_cache(new_cache, full_display_of(old_done[d]@)) == find_cache(
            old_cache,
            full_display_of(old_done[d]@),
        ));
    }
    if with_order {
        assert forall|d: int, j: int|
            0 <= d < old_done.len() && owed_build(sv, builds, tests, old_done[d]@) && 0 <= j
                < dep_keys_of(spec_of(sv, old_done[d]@)->Some_0).len() && (
            #[trigger] artifact_mtime(
                new_cache,
                dep_keys_of(spec_of(sv, (#[trigger] old_done[d])@)->Some_0)[j],
            )) is Some && artifact_mtime(new_cache, full_display_of(old_done[d]@))
            is Some implies artifact_mtime(
            new_cache,
            dep_keys_of(spec_of(sv, old_done[d]@)->Some_0)[j],
        )->Some_0 <= artifact_mtime(new_cache, full_display_of(old_done[d]@))->Some_0 by {
            let dk = dep_keys_of(spec_of(sv, old_done[d]@)->Some_0)[j];
            let disp = full_display_of(old_done[d]@);
            assert(disp != key);
            assert(dk != key);
            assert(find_cache(new_cache, disp) == find_cache(old_cache, disp));
            assert(find_cache(new_cache, dk) == find_cache(old_cache, dk));
            assert(artifact_mtime(old_cache, dk) is Some && artifact_mtime(old_cache, disp)
                is Some);
            assert(artifact_mtime(old_cache, dk)->Some_0 <= artifact_mtime(
                old_cache,
                disp,
            )->Some_0);
        }
    }
}

impl Cubicle {
    /// Whether a package's non-Debian dependency entries (run-time and
    /// build-time) are all done.
    fn deps_ready(&self, spec: &PackageSpec, done: &Vec<FullPackageName>) -> (r: bool)
        ensures
            r == (forall|j: int|
                0 <= j < deps_of_spec(spec@, true).len() && !((#[trigger] deps_of_spec(
                    spec@,
                    true,
                )[j]).0 is Debian) ==> views_of(done@).contains(deps_of_spec(spec@, true)[j])),
    {
        let ghost b1 = spec@.manifest.depends.len() as int;
        let mut i: usize = 0;
        while i < spec.manifest.depends.len()
            invariant
                i <= spec@.manifest.depends.len(),
                b1 == spec@.manifest.depends.len(),
                forall|j: int|
                    0 <= j < i && !((#[trigger] deps_of_spec(spec@, true)[j]).0 is Debian)
                        ==> views_of(done@).contains(deps_of_spec(spec@, true)[j]),
            decreases spec@.manifest.depends.len() - i,
        {
            let dep = &spec.manifest.depends[i];
            proof {
                assert(deps_of_spec(spec@, true)[i as int] == spec@.manifest.depends[i as int]);
                assert(spec@.manifest.depends[i as int] == spec.manifest.depends@[i as int]@);
            }
            let is_debian = matches!(&dep.0, PackageNamespace::Debian);
            if !is_debian {
                if !contains_full(done, dep) {
                    return false;
                }
            }
            i += 1;
        }
        let mut j: usize = 0;
        while j < spec.manifest.build_depends.len()
            invariant
                j <= spec@.manifest.build_depends.len(),
                b1 == spec@.manifest.depends.len(),
                forall|k: int|
                    0 <= k < b1 + j && !((#[trigger] deps_of_spec(spec@, true)[k]).0 is Debian)
                        ==> views_of(done@).contains(deps_of_spec(spec@, true)[k]),
            decreases spec@.manifest.build_depends.len() - j,
        {
            let dep = &spec.manifest.build_depends[j];
            proof {
                assert(deps_of_spec(spec@, true)[b1 + j] == spec@.manifest.build_depends[
                    j as int]);
                assert(spec@.manifest.build_depends[j as int] == spec.manifest.build_depends@[
                    j as int]@);
            }
            let is_debian = matches!(&dep.0, PackageNamespace::Debian);
            if !is_debian {
                if !contains_full(done, dep) {
                    return false;
                }
            }
            j += 1;
        }
        proof {
            assert(deps_of_spec(spec@, true).len() == b1 + spec@.manifest.build_depends.len());
        }
        true
    }

    /// Looks up the specification a non-Debian node resolves through.
    fn resolve_spec<'a>(&self, p: &FullPackageName, specs: &'a PackageSpecs) -> (r: Option<
        &'a PackageSpec,
    >)
        requires
            specs_wf(specs@),
        ensures
            match r {
                Some(s) => spec_of(specs@, p@) == Some(s@),
                None => !(resolvable(specs@, p@) && !(p@.0 is Debian)),
            },
    {
        match &p.0 {
            PackageNamespace::Debian => None,
            PackageNamespace::Root => specs.get(p.1.as_str()),
            PackageNamespace::Managed(m) => {
                match specs.get(m.as_str()) {
                    Some(s) => {
                        if s.manifest.package_manager {
                            Some(s)
                        } else {
                            None
                        }
                    },
                    None => None,
                }
            },
        }
    }

    /// Rebuilds the given packages and their transitive dependencies, as the
    /// conditions request, in dependency order: a package is processed only
    /// after all of its non-Debian dependencies.
    ///
    /// On success, every reachable package owed a build (see [`owed_build`])
    /// whose cache held no leftover failure marker has a committed artifact
    /// and no failure marker. Under staleness-sensitive conditions no such
    /// package ends up with a dependency artifact newer than its own. When
    /// some packages can never become ready, the dependencies are
    /// unsatisfiable and the update fails, naming them.
    pub fn update_packages(
        &mut self,
        packages: &Vec<FullPackageName>,
        specs: &PackageSpecs,
        conditions: &UpdatePackagesConditions,
    ) -> (r: Result<(), Error>)
        requires
            old(self).wf(),
            forall|k: int| 0 <= k < packages@.len() ==> wf_full(#[trigger] packages@[k]@),
            specs_wf(specs@),
        ensures
            final(self).wf(),
            same_settings(*old(self), *final(self)),
            final(self).now >= old(self).now,
            forall|n: Seq<char>|
                !has_prefix(n, "package-"@) && !has_prefix(n, "test-package-"@) ==> find_env(
                    final(self).runner@,
                    n,
                ) == find_env(old(self).runner@, n),
            !(forall|q: (NamespaceView, Seq<char>)| #[trigger]
                reaches(specs@, true, views_of(packages@).to_set(), q) ==> resolvable(specs@, q))
                ==> r is Err,
            update_succeeds_hyp(
                specs@,
                views_of(packages@).to_set(),
                old(self).build_outcomes@,
                old(self).test_outcomes@,
            ) ==> r is Ok,
            r is Ok ==> acyclic_deps(specs@, views_of(packages@).to_set()),
            forall|k: Seq<char>|
                !display_of_reachable(specs@, views_of(packages@).to_set(), k)
                    ==> #[trigger] find_cache(final(self).cache@, k) == find_cache(
                    old(self).cache@,
                    k,
                ),
            r matches Err(e) ==> ((exists|t: Seq<(NamespaceView, Seq<char>)>|
                #[trigger] crate::sets::sorted_by_display(t) && t.to_multiset() == views_of(
                    packages@,
                ).to_multiset() && e.context@.len() > 0 && e.context@.last()@
                    == "package dependencies are unsatisfiable for: "@ + joined_displays_of(t))
                || (e.kind == ErrorKind::DependencyGraph && e.context@.len() == 0 && (exists|
                t: Seq<(NamespaceView, Seq<char>)>,
            |
                #[trigger] crate::sets::sorted_by_display(t) && t.len() > 0 && (forall|k: int|
                    0 <= k < t.len() ==> reaches(
                        specs@,
                        true,
                        views_of(packages@).to_set(),
                        #[trigger] t[k],
                    ) && (exists|j: int| 0 <= j < t.len() && dep_edge(specs@, true, t[k], t[j])))
                    && e.message@ == "package dependencies are unsatisfiable for: "@
                    + joined_displays_of(t))) || (e.context@.len() > 0 && (exists|
                q: (NamespaceView, Seq<char>),
            |
                #[trigger] reaches(specs@, true, views_of(packages@).to_set(), q)
                    && e.context@.last()@ == "failed to update package: "@ + full_display_of(
                    q,
                )))),
            r matches Err(e) ==> (!(forall|q: (NamespaceView, Seq<char>)| #[trigger]
                reaches(specs@, true, views_of(packages@).to_set(), q) ==> resolvable(
                    specs@,
                    q,
                )) ==> exists|t: Seq<(NamespaceView, Seq<char>)>|
                #[trigger] crate::sets::sorted_by_display(t) && t.to_multiset() == views_of(
                    packages@,
                ).to_multiset() && e.context@.len() > 0 && e.context@.last()@
                    == "package dependencies are unsatisfiable for: "@ + joined_displays_of(t)),
            (r is Ok && displays_injective(specs@, views_of(packages@).to_set())) ==> (forall|
                q: (NamespaceView, Seq<char>),
            | #[trigger]
                reaches(specs@, true, views_of(packages@).to_set(), q) && owed_build(
                    specs@,
                    old(self).build_outcomes@,
                    old(self).test_outcomes@,
                    q,
                ) && !has_failed_marker(old(self).cache@, full_display_of(q)) ==> artifact_mtime(
                    final(self).cache@,
                    full_display_of(q),
                ) is Some && !has_failed_marker(final(self).cache@, full_display_of(q))),
            (r is Ok && staleness_conditions(*conditions) && displays_injective(
                specs@,
                views_of(packages@).to_set(),
            )) ==> (forall|
                q: (NamespaceView, Seq<char>),
                j: int,
            |
                #[trigger] reaches(specs@, true, views_of(packages@).to_set(), q) && owed_build(
                    specs@,
                    old(self).build_outcomes@,
                    old(self).test_outcomes@,
                    q,
                ) && 0 <= j < dep_keys_of(spec_of(specs@, q)->Some_0).len() && (
                #[trigger] artifact_mtime(
                    final(self).cache@,
                    dep_keys_of(spec_of(specs@, q)->Some_0)[j],
                )) is Some && artifact_mtime(final(self).cache@, full_display_of(q)) is Some
                    ==> artifact_mtime(
                    final(self).cache@,
                    dep_keys_of(spec_of(specs@, q)->Some_0)[j],
                )->Some_0 <= artifact_mtime(final(self).cache@, full_display_of(q))->Some_0),
    {
        let ghost roots = views_of(packages@).to_set();
        let ghost sv = specs@;
        let ghost cache0 = self.cache@;
        let ghost runner0 = self.runner@;
        let ghost builds0 = self.build_outcomes@;
        let ghost tests0 = self.test_outcomes@;

        let closure = match transitive_depends(packages, specs, true) {
            Ok(c) => c,
            Err(e) => {
                proof {
                    if update_succeeds_hyp(sv, roots, builds0, tests0) {
                        assert(false);
                    }
                }
                let sorted = sort_names(crate::registry::clone_names(packages));
                let joined = join_displays(&sorted);
                let wrapped = e.add_context(
                    concat2("package dependencies are unsatisfiable for: ", joined.as_str()),
                );
                proof {
                    assert(crate::sets::sorted_by_display(views_of(sorted@)) && views_of(
                        sorted@,
                    ).to_multiset() == views_of(packages@).to_multiset() && wrapped.context@.len()
                        > 0 && wrapped.context@.last()@
                        == "package dependencies are unsatisfiable for: "@ + joined_displays_of(
                        views_of(sorted@),
                    ));
                }
                return Err(wrapped);
            },
        };

        let mut todo: Vec<FullPackageName> = Vec::new();
        let mut i: usize = 0;
        while i < closure.len()
            invariant
                i <= closure@.len(),
                sv == specs@,
                roots == views_of(packages@).to_set(),
                forall|k: int| 0 <= k < closure@.len() ==> wf_full(#[trigger] closure@[k]@),
                forall|q: (NamespaceView, Seq<char>)| #[trigger]
                    views_of(closure@).contains(q) <==> reaches(sv, true, roots, q),
                views_of(closure@).no_duplicates(),
                views_of(todo@).no_duplicates(),
                forall|k: int|
                    0 <= k < todo@.len() ==> reaches(sv, true, roots, #[trigger] views_of(todo@)[k])
                        && !(views_of(todo@)[k].0 is Debian) && wf_full(views_of(todo@)[k]),
                forall|q: (NamespaceView, Seq<char>)|
                    #![trigger views_of(todo@).contains(q)]
                    views_of(todo@).contains(q) <==> (exists|k: int|
                        0 <= k < i && (#[trigger] views_of(closure@)[k]) == q && !(q.0 is Debian)),
            decreases closure@.len() - i,
        {
            let ghost old_todo = todo@;
            let is_debian = matches!(&closure[i].0, PackageNamespace::Debian);
            if !is_debian {
                todo.push(closure[i].clone());
                proof {
                    assert(views_of(todo@) =~= views_of(old_todo).push(closure@[i as int]@));
                    assert(views_of(closure@)[i as int] == closure@[i as int]@);
                    assert(views_of(closure@).contains(closure@[i as int]@));
                    assert(views_of(todo@).no_duplicates()) by {
                        if views_of(old_todo).contains(closure@[i as int]@) {
                            let k = choose|k: int|
                                0 <= k < i && (#[trigger] views_of(closure@)[k]) == closure@[
                                    i as int]@ && !(closure@[i as int]@.0 is Debian);
                            assert(views_of(closure@)[k] == views_of(closure@)[i as int]);
                            assert(false);
                        }
                        assert forall|a: int, b: int|
                            0 <= a < b < views_of(todo@).len() implies views_of(todo@)[a]
                            != views_of(todo@)[b] by {
                            if b == old_todo.len() {
                                assert(views_of(old_todo).contains(views_of(old_todo)[a]));
                            }
                        }
                    }
                    assert forall|q: (NamespaceView, Seq<char>)|
                        views_of(todo@).contains(q) implies (exists|k: int|
                        0 <= k < i + 1 && (#[trigger] views_of(closure@)[k]) == q && !(q.0
                            is Debian)) by {
                        let k2 = choose|k2: int|
                            0 <= k2 < views_of(todo@).len() && views_of(todo@)[k2] == q;
                        if k2 < old_todo.len() {
                            assert(views_of(old_todo).contains(q)) by {
                                assert(views_of(old_todo)[k2] == q);
                            }
                            let k3 = choose|k3: int|
                                0 <= k3 < i && (#[trigger] views_of(closure@)[k3]) == q && !(q.0
                                    is Debian);
                            assert(0 <= k3 < i + 1 && views_of(closure@)[k3] == q);
                        } else {
                            assert(views_of(closure@)[i as int] == q);
                        }
                    }
                    assert forall|q: (NamespaceView, Seq<char>)|
                        (exists|k: int|
                            0 <= k < i + 1 && (#[trigger] views_of(closure@)[k]) == q && !(q.0
                                is Debian)) implies views_of(todo@).contains(q) by {
                        let k3 = choose|k3: int|
                            0 <= k3 < i + 1 && (#[trigger] views_of(closure@)[k3]) == q && !(q.0
                                is Debian);
                        if k3 < i {
                            assert(views_of(old_todo).contains(q));
                            let k2 = choose|k2: int|
                                0 <= k2 < views_of(old_todo).len() && views_of(old_todo)[k2] == q;
                            assert(views_of(todo@)[k2] == q);
                        } else {
                            assert(views_of(todo@)[old_todo.len() as int] == q);
                        }
                    }
                }
            } else {
                proof {
                    assert(views_of(closure@)[i as int] == closure@[i as int]@);
                    assert forall|q: (NamespaceView, Seq<char>)|
                        (exists|k: int|
                            0 <= k < i + 1 && (#[trigger] views_of(closure@)[k]) == q && !(q.0
                                is Debian)) implies views_of(todo@).contains(q) by {
                        let k3 = choose|k3: int|
                            0 <= k3 < i + 1 && (#[trigger] views_of(closure@)[k3]) == q && !(q.0
                                is Debian);
                        assert(k3 < i);
                        assert(views_of(todo@).contains(q));
                    }
                }
            }
            i += 1;
        }

        proof {
            assert forall|q: (NamespaceView, Seq<char>)| #[trigger]
                reaches(sv, true, roots, q) && !(q.0 is Debian) implies views_of(
                todo@,
            ).contains(q) by {
                assert(views_of(closure@).contains(q));
                let k = choose|k: int|
                    0 <= k < views_of(closure@).len() && views_of(closure@)[k] == q;
                assert(0 <= k < closure@.len() && views_of(closure@)[k] == q && !(q.0 is Debian));
            }
        }
        let mut done: Vec<FullPackageName> = Vec::new();
        while todo.len() > 0
            invariant
                self.wf(),
                same_settings(*old(self), *self),
                self.now >= old(self).now,
                sv == specs@,
                roots == views_of(packages@).to_set(),
                cache0 == old(self).cache@,
                runner0 == old(self).runner@,
                builds0 == old(self).build_outcomes@,
                tests0 == old(self).test_outcomes@,
                specs_wf(sv),
                forall|q: (NamespaceView, Seq<char>)| #[trigger]
                    reaches(sv, true, roots, q) ==> resolvable(sv, q),
                forall|n: Seq<char>|
                    !has_prefix(n, "package-"@) && !has_prefix(n, "test-package-"@) ==> find_env(
                        self.runner@,
                        n,
                    ) == find_env(runner0, n),
                views_of(todo@).no_duplicates(),
                views_of(done@).no_duplicates(),
                forall|k: int|
                    0 <= k < todo@.len() ==> reaches(sv, true, roots, #[trigger] views_of(todo@)[k])
                        && !(views_of(todo@)[k].0 is Debian) && wf_full(views_of(todo@)[k]),
                forall|k: int|
                    0 <= k < done@.len() ==> reaches(sv, true, roots, (#[trigger] done@[k])@) && !(
                    done@[k]@.0 is Debian) && wf_full(done@[k]@),
                forall|q: (NamespaceView, Seq<char>)| #[trigger]
                    reaches(sv, true, roots, q) && !(q.0 is Debian) ==> views_of(todo@).contains(q)
                        || views_of(done@).contains(q),
                forall|q: (NamespaceView, Seq<char>)|
                    !(#[trigger] views_of(todo@).contains(q) && views_of(done@).contains(q)),
                done_deps_in(sv, done@),
                done_deps_before(sv, done@),
                forall|k: Seq<char>|
                    !display_of_reachable(sv, roots, k) ==> #[trigger] find_cache(
                        self.cache@,
                        k,
                    ) == find_cache(cache0, k),
                displays_injective(sv, roots) ==> (forall|k: Seq<char>|
                    !some_display_is(done@, k) ==> #[trigger] find_cache(self.cache@, k)
                        == find_cache(cache0, k)),
                displays_injective(sv, roots) ==> done_ok(
                    sv,
                    builds0,
                    tests0,
                    cache0,
                    self.cache@,
                    done@,
                ),
                (displays_injective(sv, roots) && staleness_conditions(*conditions))
                    ==> done_ordered(sv, builds0, tests0, self.cache@, done@),
            decreases todo@.len(),
        {
            let mut ready_idx: Option<usize> = None;
            let mut idx: usize = 0;
            while idx < todo.len()
                invariant
                    idx <= todo@.len(),
                    sv == specs@,
                    roots == views_of(packages@).to_set(),
                    specs_wf(sv),
                    forall|q: (NamespaceView, Seq<char>)| #[trigger]
                        reaches(sv, true, roots, q) ==> resolvable(sv, q),
                    forall|k: int|
                        0 <= k < todo@.len() ==> reaches(
                            sv,
                            true,
                            roots,
                            #[trigger] views_of(todo@)[k],
                        ) && !(views_of(todo@)[k].0 is Debian),
                    match ready_idx {
                        Some(ri) => ri < todo@.len() && spec_of(sv, views_of(todo@)[ri as int])
                            is Some && (forall|j: int|
                            0 <= j < deps_of_spec(
                                spec_of(sv, views_of(todo@)[ri as int])->Some_0,
                                true,
                            ).len() && !((#[trigger] deps_of_spec(
                                spec_of(sv, views_of(todo@)[ri as int])->Some_0,
                                true,
                            )[j]).0 is Debian) ==> views_of(done@).contains(
                                deps_of_spec(
                                    spec_of(sv, views_of(todo@)[ri as int])->Some_0,
                                    true,
                                )[j],
                            )),
                        None => forall|k: int|
                            0 <= k < idx ==> !deps_done(
                                sv,
                                #[trigger] views_of(todo@)[k],
                                views_of(done@),
                            ),
                    },
                decreases todo@.len() - idx,
            {
                if ready_idx.is_none() {
                    proof {
                        assert(views_of(todo@)[idx as int] == todo@[idx as int]@);
                        assert(reaches(sv, true, roots, todo@[idx as int]@));
                    }
                    match self.resolve_spec(&todo[idx], specs) {
                        Some(sp) => {
                            if self.deps_ready(sp, &done) {
                                ready_idx = Some(idx);
                            } else {
                                proof {
                                    assert(spec_of(sv, views_of(todo@)[idx as int]) == Some(
                                        sp@,
                                    ));
                                    assert(!deps_done(
                                        sv,
                                        views_of(todo@)[idx as int],
                                        views_of(done@),
                                    ));
                                }
                            }
                        },
                        None => {
                            proof {
                                assert(resolvable(sv, todo@[idx as int]@));
                                assert(false);
                            }
                        },
                    }
                }
                idx += 1;
            }
            let ix = match ready_idx {
                None => {
                    proof {
                        if update_succeeds_hyp(sv, roots, builds0, tests0) {
                            let rank = choose|rank: Map<(NamespaceView, Seq<char>), nat>|
                                #[trigger] crate::cubicle::rank_decreases(sv, roots, rank);
                            lemma_min_rank_index(views_of(todo@), rank);
                            let kmin = choose|k: int|
                                #[trigger] min_rank_at(views_of(todo@), rank, k);
                            let q = views_of(todo@)[kmin];
                            assert(reaches(sv, true, roots, q) && !(q.0 is Debian));
                            assert(resolvable(sv, q));
                            assert(spec_of(sv, q) is Some);
                            let qs = spec_of(sv, q)->Some_0;
                            assert(crate::registry::direct_deps(sv, true, q) == deps_of_spec(
                                qs,
                                true,
                            ));
                            assert(deps_done(sv, q, views_of(done@))) by {
                                assert forall|j: int|
                                    0 <= j < deps_of_spec(qs, true).len() && !((
                                    #[trigger] deps_of_spec(qs, true)[j]).0
                                        is Debian) implies views_of(done@).contains(
                                    deps_of_spec(qs, true)[j],
                                ) by {
                                    let w = deps_of_spec(qs, true)[j];
                                    assert(dep_edge(sv, true, q, w)) by {
                                        assert(crate::registry::direct_deps(
                                            sv,
                                            true,
                                            q,
                                        ).contains(w)) by {
                                            assert(crate::registry::direct_deps(sv, true, q)[j]
                                                == w);
                                        }
                                    }
                                    assert(rank[w] < rank[q]);
                                    crate::registry::lemma_reaches_step(sv, true, roots, q, w);
                                    if views_of(todo@).contains(w) {
                                        let j2 = choose|j2: int|
                                            0 <= j2 < views_of(todo@).len() && views_of(todo@)[j2]
                                                == w;
                                        assert(rank[q] <= rank[views_of(todo@)[j2]]);
                                        assert(false);
                                    }
                                }
                            }
                            assert(!deps_done(sv, views_of(todo@)[kmin], views_of(done@)));
                            assert(false);
                        }
                    }
                    let sorted = sort_names(crate::registry::clone_names(&todo));
                    let joined = join_displays(&sorted);
                    let err = Error::new(
                        ErrorKind::DependencyGraph,
                        concat2("package dependencies are unsatisfiable for: ", joined.as_str()),
                    );
                    proof {
                        broadcast use vstd::seq_lib::to_multiset_contains;
                        broadcast use vstd::seq_lib::to_multiset_len;

                        let tv = views_of(sorted@);
                        assert(tv.to_multiset() == views_of(todo@).to_multiset());
                        assert(tv.to_multiset().len() == tv.len());
                        assert(views_of(todo@).to_multiset().len() == views_of(todo@).len());
                        assert(tv.len() > 0);
                        assert forall|k: int| 0 <= k < tv.len() implies reaches(
                            sv,
                            true,
                            roots,
                            #[trigger] tv[k],
                        ) && (exists|j: int|
                            0 <= j < tv.len() && dep_edge(sv, true, tv[k], tv[j])) by {
                            let q = tv[k];
                            assert(tv.contains(q));
                            assert(tv.to_multiset().count(q) > 0);
                            assert(views_of(todo@).to_multiset().count(q) > 0);
                            assert(views_of(todo@).contains(q));
                            let ki = choose|ki: int|
                                0 <= ki < views_of(todo@).len() && views_of(todo@)[ki] == q;
                            assert(reaches(sv, true, roots, q) && !(q.0 is Debian));
                            assert(resolvable(sv, q));
                            assert(!deps_done(sv, q, views_of(done@)));
                            let dj = choose|dj: int|
                                0 <= dj < deps_of_spec(spec_of(sv, q)->Some_0, true).len() && !((
                                #[trigger] deps_of_spec(spec_of(sv, q)->Some_0, true)[dj]).0
                                    is Debian) && !views_of(done@).contains(
                                    deps_of_spec(spec_of(sv, q)->Some_0, true)[dj],
                                );
                            let w = deps_of_spec(spec_of(sv, q)->Some_0, true)[dj];
                            assert(spec_of(sv, q) is Some);
                            assert(crate::registry::direct_deps(sv, true, q) == deps_of_spec(
                                spec_of(sv, q)->Some_0,
                                true,
                            ));
                            assert(dep_edge(sv, true, q, w)) by {
                                assert(crate::registry::direct_deps(sv, true, q)[dj] == w);
                            }
                            crate::registry::lemma_reaches_step(sv, true, roots, q, w);
                            assert(views_of(todo@).contains(w) || views_of(done@).contains(w));
                            assert(views_of(todo@).contains(w));
                            assert(views_of(todo@).to_multiset().count(w) > 0);
                            assert(tv.to_multiset().count(w) > 0);
                            assert(tv.contains(w));
                            let j2 = choose|j2: int| 0 <= j2 < tv.len() && tv[j2] == w;
                            assert(0 <= j2 < tv.len() && dep_edge(sv, true, tv[k], tv[j2]));
                        }
                        assert(crate::sets::sorted_by_display(views_of(sorted@)) && err.message@
                            == "package dependencies are unsatisfiable for: "@
                            + joined_displays_of(views_of(sorted@)));
                    }
                    return Err(err);
                },
                Some(ix) => ix,
            };
            let ghost old_todo = todo@;
            let ghost old_done = done@;
            let ghost old_cache = self.cache@;
            let p = todo.remove(ix);
            let ghost pv = p@;
            let ghost key = full_display_of(pv);
            proof {
                assert(views_of(old_todo)[ix as int] == pv);
                assert(views_of(todo@) =~= views_of(old_todo).remove(ix as int));
                assert(reaches(sv, true, roots, pv));
                assert(!(pv.0 is Debian));
                assert(wf_full(pv));
                assert(!views_of(old_done).contains(pv)) by {
                    assert(views_of(old_todo).contains(pv));
                }
                lemma_builder_prefixes(key);
                assert forall|k: int|
                    0 <= k < todo@.len() implies reaches(
                    sv,
                    true,
                    roots,
                    #[trigger] views_of(todo@)[k],
                ) && !(views_of(todo@)[k].0 is Debian) && wf_full(views_of(todo@)[k]) by {
                    let k2 = if k < ix as int {
                        k
                    } else {
                        k + 1
                    };
                    assert(views_of(todo@)[k] == views_of(old_todo)[k2]);
                }
                assert(views_of(todo@).no_duplicates()) by {
                    assert forall|a: int, b: int|
                        0 <= a < b < views_of(todo@).len() implies views_of(todo@)[a] != views_of(
                        todo@,
                    )[b] by {
                        let a2 = if a < ix as int {
                            a
                        } else {
                            a + 1
                        };
                        let b2 = if b < ix as int {
                            b
                        } else {
                            b + 1
                        };
                        assert(views_of(todo@)[a] == views_of(old_todo)[a2]);
                        assert(views_of(todo@)[b] == views_of(old_todo)[b2]);
                    }
                }
            }
            let spec = match self.resolve_spec(&p, specs) {
                Some(sp) => sp,
                None => {
                    proof {
                        assert(resolvable(sv, pv));
                        assert(false);
                    }
                    return Err(
                        Error::new(
                            ErrorKind::MissingObject,
                            String::from_str("could not find package definition"),
                        ),
                    );
                },
            };
            proof {
                assert(spec_of(sv, pv) == Some(spec@));
                lemma_spec_of_member(sv, pv);
            }
            let named = contains_full(packages, &p);
            let needs: bool = self.should_update(named, conditions, &p, spec);
            let ghost was_stale = is_stale(
                old_cache,
                key,
                spec@,
                self.config.auto_update,
                self.now,
            );
            if needs {
                match self.update_package(&p, spec, specs) {
                    Ok(()) => {},
                    Err(e) => {
                        proof {
                            assert(reaches(sv, true, roots, pv) && e.context@.last()@
                                == "failed to update package: "@ + full_display_of(pv));
                            assert forall|k: Seq<char>|
                                !display_of_reachable(sv, roots, k) implies #[trigger] find_cache(
                                self.cache@,
                                k,
                            ) == find_cache(cache0, k) by {
                                assert(k != key) by {
                                    if k == key {
                                        assert(reaches(sv, true, roots, pv) && !(pv.0 is Debian)
                                            && full_display_of(pv) == k);
                                    }
                                }
                            }
                            if update_succeeds_hyp(sv, roots, builds0, tests0) {
                                assert(reaches(sv, true, roots, pv) && !(pv.0 is Debian));
                                assert(spec_of(sv, pv) == Some(spec@));
                                assert(spec@.update is Some);
                                assert(build_clean(builds0, tests0, spec@, key)
                                    && deps_resolvable(sv, spec@));
                                assert(false);
                            }
                            assert forall|n: Seq<char>|
                                !has_prefix(n, "package-"@) && !has_prefix(
                                    n,
                                    "test-package-"@,
                                ) implies find_env(self.runner@, n) == find_env(runner0, n) by {
                                assert(n != builder_env_of(key) && n != test_env_of(key));
                            }
                        }
                        return Err(e);
                    },
                }
            }
            done.push(p);
            proof {
                let dv2 = views_of(done@);
                let new_cache = self.cache@;
                assert(dv2 =~= views_of(old_done).push(pv));
                assert(dv2[old_done.len() as int] == pv);
                assert(done@[old_done.len() as int]@ == pv);
                assert forall|k: int| 0 <= k < old_done.len() implies done@[k] == old_done[k]
                    by {}
                assert forall|q: (NamespaceView, Seq<char>)| #[trigger]
                    dv2.contains(q) implies (views_of(old_done).contains(q) || q == pv) by {
                    let k = choose|k: int| 0 <= k < dv2.len() && dv2[k] == q;
                    if k < old_done.len() {
                        assert(views_of(old_done)[k] == q);
                    }
                }
                assert forall|q: (NamespaceView, Seq<char>)|
                    views_of(old_done).contains(q) implies dv2.contains(q) by {
                    let k = choose|k: int|
                        0 <= k < views_of(old_done).len() && views_of(old_done)[k] == q;
                    assert(dv2[k] == q);
                }
                assert(dv2.no_duplicates()) by {
                    assert forall|a: int, b: int| 0 <= a < b < dv2.len() implies dv2[a]
                        != dv2[b] by {
                        if b == old_done.len() {
                            assert(views_of(old_done).contains(views_of(old_done)[a]));
                        }
                    }
                }
                // the cache frame for this step: with no rebuild the cache is
                // untouched; with one, only the processed key moved
                assert forall|k: Seq<char>|
                    k != key implies #[trigger] find_cache(new_cache, k) == find_cache(
                    old_cache,
                    k,
                ) by {}
                assert forall|k: Seq<char>|
                    !display_of_reachable(sv, roots, k) implies #[trigger] find_cache(
                    new_cache,
                    k,
                ) == find_cache(cache0, k) by {
                    assert(k != key) by {
                        if k == key {
                            assert(reaches(sv, true, roots, pv) && !(pv.0 is Debian)
                                && full_display_of(pv) == k);
                        }
                    }
                }
                if displays_injective(sv, roots) {
                lemma_done_preserved(
                    sv,
                    roots,
                    builds0,
                    tests0,
                    cache0,
                    old_cache,
                    new_cache,
                    old_done,
                    pv,
                    staleness_conditions(*conditions),
                );
                // the key had not been processed before, so its initial entry
                // was still in place when this step began
                assert(!some_display_is(old_done, key)) by {
                    if some_display_is(old_done, key) {
                        let d = choose|d: int|
                            0 <= d < old_done.len() && full_display_of((#[trigger] old_done[d])@)
                                == key;
                        assert(views_of(old_done)[d] == old_done[d]@);
                        assert(old_done[d]@ != pv);
                        assert(reaches(sv, true, roots, old_done[d]@));
                        assert(false);
                    }
                }
                assert(find_cache(old_cache, key) == find_cache(cache0, key));
                // frame for keys no member of the grown list displays
                assert forall|k: Seq<char>|
                    !some_display_is(done@, k) implies #[trigger] find_cache(new_cache, k)
                        == find_cache(cache0, k) by {
                    assert(!some_display_is(old_done, k)) by {
                        if some_display_is(old_done, k) {
                            let d = choose|d: int|
                                0 <= d < old_done.len() && full_display_of(
                                    (#[trigger] old_done[d])@,
                                ) == k;
                            assert(full_display_of(done@[d]@) == k);
                        }
                    }
                    assert(k != key) by {
                        assert(full_display_of(done@[old_done.len() as int]@) == key);
                    }
                }
                // what this step owes the processed package itself
                if owed_build(sv, builds0, tests0, pv) {
                    if needs {
                        assert(artifact_mtime(new_cache, key) == Some(self.now));
                        assert(!has_failed_marker(new_cache, key));
                    } else {
                        assert(find_cache(new_cache, key) == find_cache(old_cache, key));
                        assert(spec@.update is Some);
                        assert(artifact_mtime(old_cache, key) is Some) by {
                            if artifact_mtime(old_cache, key) is None {
                                assert(was_stale);
                            }
                        }
                    }
                }
                assert(done_ok(sv, builds0, tests0, cache0, new_cache, done@)) by {
                    assert forall|d: int|
                        0 <= d < done@.len() && owed_build(
                            sv,
                            builds0,
                            tests0,
                            (#[trigger] done@[d])@,
                        ) implies {
                        &&& artifact_mtime(new_cache, full_display_of(done@[d]@)) is Some
                        &&& (has_failed_marker(new_cache, full_display_of(done@[d]@))
                            ==> has_failed_marker(cache0, full_display_of(done@[d]@)))
                    } by {
                        if d < old_done.len() {
                            assert(old_done[d] == done@[d]);
                        } else {
                            assert(done@[d]@ == pv);
                        }
                    }
                }
                if staleness_conditions(*conditions) {
                    if owed_build(sv, builds0, tests0, pv) && !needs {
                        assert(spec@.update is Some);
                        assert(!was_stale);
                    }
                    assert(done_ordered(sv, builds0, tests0, new_cache, done@)) by {
                        assert forall|d: int, j: int|
                            0 <= d < done@.len() && owed_build(sv, builds0, tests0, done@[d]@) && 0
                                <= j < dep_keys_of(spec_of(sv, done@[d]@)->Some_0).len() && (
                            #[trigger] artifact_mtime(
                                new_cache,
                                dep_keys_of(spec_of(sv, (#[trigger] done@[d])@)->Some_0)[j],
                            )) is Some && artifact_mtime(new_cache, full_display_of(done@[d]@))
                            is Some implies artifact_mtime(
                            new_cache,
                            dep_keys_of(spec_of(sv, done@[d]@)->Some_0)[j],
                        )->Some_0 <= artifact_mtime(
                            new_cache,
                            full_display_of(done@[d]@),
                        )->Some_0 by {
                            if d < old_done.len() {
                                assert(old_done[d] == done@[d]);
                            } else {
                                assert(done@[d]@ == pv);
                                let dk = dep_keys_of(spec@)[j];
                                if needs {
                                    assert(artifact_mtime(new_cache, key) == Some(self.now));
                                    assert(artifact_mtime(new_cache, dk)->Some_0 <= self.now) by {
                                        crate::cache::lemma_find_cache_member(new_cache, dk);
                                        let e = find_cache(new_cache, dk)->Some_0;
                                        let m = choose|m: int|
                                            0 <= m < new_cache.len() && new_cache[m] == e;
                                        assert(mtimes_bounded(new_cache, self.now));
                                    }
                                } else {
                                    assert(new_cache == old_cache);
                                    assert(!was_stale);
                                    let built = artifact_mtime(old_cache, key)->Some_0;
                                    assert(artifact_mtime(old_cache, dk)->Some_0 <= built) by {
                                        if artifact_mtime(old_cache, dk)->Some_0 > built {
                                            assert(artifact_mtime(old_cache, dk) matches Some(b2)
                                                && b2 > built);
                                            assert(was_stale);
                                        }
                                    }
                                }
                            }
                        }
                    }
                }
                }
                assert forall|q: (NamespaceView, Seq<char>)| #[trigger]
                    reaches(sv, true, roots, q) && !(q.0 is Debian) implies views_of(
                    todo@,
                ).contains(q) || dv2.contains(q) by {
                    if q != pv && !views_of(old_done).contains(q) {
                        assert(views_of(old_todo).contains(q));
                        let k = choose|k: int|
                            0 <= k < views_of(old_todo).len() && views_of(old_todo)[k] == q;
                        assert(k != ix);
                        let k2 = if k < ix as int {
                            k
                        } else {
                            k - 1
                        };
                        assert(views_of(todo@)[k2] == q);
                    }
                }
                assert forall|q: (NamespaceView, Seq<char>)|
                    !(#[trigger] views_of(todo@).contains(q) && dv2.contains(q)) by {
                    if views_of(todo@).contains(q) {
                        let k = choose|k: int|
                            0 <= k < views_of(todo@).len() && views_of(todo@)[k] == q;
                        let k2 = if k < ix as int {
                            k
                        } else {
                            k + 1
                        };
                        assert(views_of(old_todo)[k2] == q);
                        assert(views_of(old_todo).contains(q));
                        if q == pv {
                            assert(views_of(old_todo)[ix as int] == q);
                            assert(false);
                        }
                    }
                }
                assert(done_deps_in(sv, done@)) by {
                    assert forall|d: int, j: int|
                        0 <= d < done@.len() && spec_of(sv, done@[d]@) is Some && 0 <= j
                            < deps_of_spec(spec_of(sv, done@[d]@)->Some_0, true).len() && !((
                        #[trigger] deps_of_spec(
                            spec_of(sv, (#[trigger] done@[d])@)->Some_0,
                            true,
                        )[j]).0 is Debian) implies views_of(done@).contains(
                        deps_of_spec(spec_of(sv, done@[d]@)->Some_0, true)[j],
                    ) by {
                        if d < old_done.len() {
                            assert(old_done[d] == done@[d]);
                            assert(views_of(old_done).contains(
                                deps_of_spec(spec_of(sv, old_done[d]@)->Some_0, true)[j],
                            ));
                        } else {
                            assert(done@[d]@ == pv);
                            assert(views_of(old_done).contains(
                                deps_of_spec(spec_of(sv, pv)->Some_0, true)[j],
                            ));
                        }
                    }
                }
                assert(done_deps_before(sv, done@)) by {
                    assert forall|d: int, j: int|
                        0 <= d < done@.len() && spec_of(sv, done@[d]@) is Some && 0 <= j
                            < deps_of_spec(spec_of(sv, done@[d]@)->Some_0, true).len() && !((
                        #[trigger] deps_of_spec(
                            spec_of(sv, (#[trigger] done@[d])@)->Some_0,
                            true,
                        )[j]).0 is Debian) implies views_of(done@.take(d)).contains(
                        deps_of_spec(spec_of(sv, done@[d]@)->Some_0, true)[j],
                    ) by {
                        if d < old_done.len() {
                            assert(old_done[d] == done@[d]);
                            assert(done@.take(d) =~= old_done.take(d));
                            assert(views_of(old_done.take(d)).contains(
                                deps_of_spec(spec_of(sv, old_done[d]@)->Some_0, true)[j],
                            ));
                        } else {
                            assert(done@[d]@ == pv);
                            assert(done@.take(d) =~= old_done);
                            assert(views_of(old_done).contains(
                                deps_of_spec(spec_of(sv, pv)->Some_0, true)[j],
                            ));
                        }
                    }
                }
            }
        }
        proof {
            let dv = views_of(done@);
            let rank = Map::<(NamespaceView, Seq<char>), nat>::new(
                |q: (NamespaceView, Seq<char>)| true,
                |q: (NamespaceView, Seq<char>)| first_index_of(dv, q) as nat,
            );
            assert(crate::cubicle::rank_decreases(sv, roots, rank)) by {
                assert forall|p: (NamespaceView, Seq<char>), q: (NamespaceView, Seq<char>)|
                    reaches(sv, true, roots, p) && !(p.0 is Debian) && !(q.0 is Debian) && #[trigger]
                    dep_edge(sv, true, p, q) implies rank[q] < rank[p] by {
                    assert(dv.contains(p));
                    crate::registry::lemma_reaches_step(sv, true, roots, p, q);
                    assert(dv.contains(q));
                    lemma_first_index(dv, p);
                    let dp = first_index_of(dv, p);
                    assert(done@[dp]@ == p) by {
                        assert(dv[dp] == p);
                    }
                    assert(resolvable(sv, p));
                    assert(crate::registry::direct_deps(sv, true, p) == deps_of_spec(
                        spec_of(sv, p)->Some_0,
                        true,
                    ));
                    let j = choose|j: int|
                        0 <= j < crate::registry::direct_deps(sv, true, p).len()
                            && crate::registry::direct_deps(sv, true, p)[j] == q;
                    assert(deps_of_spec(spec_of(sv, done@[dp]@)->Some_0, true)[j] == q);
                    assert(views_of(done@.take(dp)).contains(q));
                    let k = choose|k: int|
                        0 <= k < views_of(done@.take(dp)).len() && views_of(done@.take(dp))[k]
                            == q;
                    assert(done@.take(dp)[k]@ == q);
                    assert(dv[k] == q) by {
                        assert(done@.take(dp)[k] == done@[k]);
                    }
                    lemma_first_index_le(dv, q, k);
                    assert(rank.dom().contains(q) && rank.dom().contains(p));
                    assert(rank[q] == first_index_of(dv, q) as nat);
                    assert(rank[p] == first_index_of(dv, p) as nat);
                    assert(first_index_of(dv, q) >= 0) by {
                        lemma_first_index(dv, q);
                    }
                    assert(rank[q] <= k < dp);
                    assert(rank[p] == dp);
                }
            }
            assert(acyclic_deps(sv, roots));
            if displays_injective(sv, roots) {
            assert forall|q: (NamespaceView, Seq<char>)| #[trigger]
                reaches(sv, true, roots, q) && owed_build(sv, builds0, tests0, q)
                && !has_failed_marker(cache0, full_display_of(q)) implies artifact_mtime(
                self.cache@,
                full_display_of(q),
            ) is Some && !has_failed_marker(self.cache@, full_display_of(q)) by {
                assert(views_of(done@).contains(q));
                let d = choose|d: int| 0 <= d < views_of(done@).len() && views_of(done@)[d] == q;
                assert(done@[d]@ == q);
            }
            if staleness_conditions(*conditions) {
                assert forall|q: (NamespaceView, Seq<char>), j: int|
                    #[trigger] reaches(sv, true, roots, q) && owed_build(sv, builds0, tests0, q)
                        && 0 <= j < dep_keys_of(spec_of(sv, q)->Some_0).len() && (
                    #[trigger] artifact_mtime(
                        self.cache@,
                        dep_keys_of(spec_of(sv, q)->Some_0)[j],
                    )) is Some && artifact_mtime(self.cache@, full_display_of(q))
                    is Some implies artifact_mtime(
                    self.cache@,
                    dep_keys_of(spec_of(sv, q)->Some_0)[j],
                )->Some_0 <= artifact_mtime(self.cache@, full_display_of(q))->Some_0 by {
                    assert(views_of(done@).contains(q));
                    let d = choose|d: int|
                        0 <= d < views_of(done@).len() && views_of(done@)[d] == q;
                    assert(done@[d]@ == q);
                }
            }
            }
        }
        Ok(())
    }
}

/// The details a listing reports for a package with scanned sources: the
/// manifest's dependency display names, the source directory and origin,
/// the manager flag, and the source tree's modification time.
pub open spec fn root_details_of(d: PackageDetails, s: PackageSpecView) -> bool {
    &&& crate::sets::strs_of(d.depends@) == s.manifest.depends.map_values(
        |q: (NamespaceView, Seq<char>)| full_display_of(q),
    )
    &&& crate::sets::strs_of(d.build_depends@) == s.manifest.build_depends.map_values(
        |q: (NamespaceView, Seq<char>)| full_display_of(q),
    )
    &&& d.edited == Some(s.last_modified)
    &&& (d.dir matches Some(p) && p@ == s.dir)
    &&& d.package_manager == s.manifest.package_manager
    &&& d.origin@ == s.origin
}

/// The details a listing reports for a package known only through its
/// cached artifact: no dependencies, no sources, origin `N/A`.
pub open spec fn cache_only_details(d: PackageDetails) -> bool {
    &&& d.depends@.len() == 0
    &&& d.build_depends@.len() == 0
    &&& d.edited is None
    &&& d.dir is None
    &&& !d.package_manager
    &&& d.origin@ == "N/A"@
}

impl Cubicle {
    /// Returns details of available packages: every scanned source package
    /// (in registry order, under the root namespace) followed by every other
    /// package known only through a cached artifact. The details of each come
    /// from its scanned spec (or are the cache-only placeholders); the build
    /// timestamp, artifact size and failure marker come from the cache.
    /// Succeeds exactly when the scan does.
    #[verifier::rlimit(100)]
    pub fn get_packages(&self) -> (r: Result<Vec<(FullPackageName, PackageDetails)>, Error>)
        requires
            self.wf(),
        ensures
            r is Ok <==> (forall|q: (NamespaceView, Seq<char>)| #[trigger]
                reaches(
                    scan_fold(Seq::<PackageSpecView>::empty(), self.discovered@),
                    true,
                    Set::empty().insert(crate::registry::auto_root()),
                    q,
                ) ==> resolvable(
                    scan_fold(Seq::<PackageSpecView>::empty(), self.discovered@),
                    q,
                )),
            r matches Ok(list) ==> {
                let sv = crate::registry::scanned_specs_of(self.discovered@);
                &&& list@.len() >= sv.len()
                &&& forall|i: int|
                    0 <= i < sv.len() ==> (#[trigger] list@[i]).0@ == (
                        NamespaceView::Root,
                        sv[i].name,
                    )
                &&& forall|k: int|
                    sv.len() <= k < list@.len() ==> (exists|i: int|
                        0 <= i < self.cache@.len() && (#[trigger] self.cache@[i]).tar_mtime
                            is Some && crate::names::full_parse_of(self.cache@[i].key) == Some(
                            (#[trigger] list@[k]).0@,
                        ) && !(list@[k].0@.0 is Root))
                &&& forall|i: int|
                    0 <= i < self.cache@.len() && (#[trigger] self.cache@[i]).tar_mtime is Some
                        && crate::names::full_parse_of(self.cache@[i].key) is Some && !(
                    crate::names::full_parse_of(self.cache@[i].key)->Some_0.0 is Root) ==> (
                    exists|k: int|
                        sv.len() <= k < list@.len() && (#[trigger] list@[k]).0@
                            == crate::names::full_parse_of(self.cache@[i].key)->Some_0)
                &&& forall|i: int|
                    0 <= i < sv.len() ==> root_details_of((#[trigger] list@[i]).1, sv[i])
                &&& forall|k: int|
                    sv.len() <= k < list@.len() ==> cache_only_details((#[trigger] list@[k]).1)
            },
            r matches Ok(list) ==> forall|k: int|
                0 <= k < list@.len() ==> {
                    let entry = #[trigger] list@[k];
                    &&& entry.0.wf()
                    &&& entry.1.built == artifact_mtime(
                        self.cache@,
                        full_display_of(entry.0@),
                    )
                    &&& entry.1.size == artifact_size(
                        self.cache@,
                        full_display_of(entry.0@),
                    )
                    &&& entry.1.last_build_failed == has_failed_marker(
                        self.cache@,
                        full_display_of(entry.0@),
                    )
                },
    {
        let specs = match self.scan_packages() {
            Ok(sp) => sp,
            Err(e) => {
                return Err(e);
            },
        };
        let mut out: Vec<(FullPackageName, PackageDetails)> = Vec::new();
        let mut i: usize = 0;
        while i < specs.entries.len()
            invariant
                self.wf(),
                i <= specs.entries@.len(),
                specs@ == crate::registry::scanned_specs_of(self.discovered@),
                out@.len() == i,
                forall|k: int| 0 <= k < specs@.len() ==> crate::names::valid_package_name(
                    (#[trigger] specs@[k]).name,
                ),
                forall|k: int|
                    0 <= k < i ==> (#[trigger] out@[k]).0@ == (
                        NamespaceView::Root,
                        specs@[k].name,
                    ),
                forall|k: int| 0 <= k < i ==> root_details_of((#[trigger] out@[k]).1, specs@[k]),
                forall|k: int|
                    0 <= k < out@.len() ==> {
                        let entry = #[trigger] out@[k];
                        &&& entry.0.wf()
                        &&& entry.1.built == artifact_mtime(
                            self.cache@,
                            full_display_of(entry.0@),
                        )
                        &&& entry.1.size == artifact_size(
                            self.cache@,
                            full_display_of(entry.0@),
                        )
                        &&& entry.1.last_build_failed == has_failed_marker(
                            self.cache@,
                            full_display_of(entry.0@),
                        )
                    },
            decreases specs.entries@.len() - i,
        {
            let spec = &specs.entries[i];
            let name = FullPackageName(PackageNamespace::Root, spec.name.clone());
            proof {
                assert(crate::names::valid_package_name(specs@[i as int].name));
                assert(specs@[i as int].name == specs.entries@[i as int]@.name);
                assert(name.wf());
            }
            let built = self.cache.last_built(name.as_filename_component().as_str());
            let size = self.cache.last_size(name.as_filename_component().as_str());
            let failed = self.package_build_failed(&name);
            let details = PackageDetails {
                build_depends: display_names_of(&spec.manifest.build_depends),
                built,
                depends: display_names_of(&spec.manifest.depends),
                edited: Some(spec.last_modified),
                dir: Some(spec.dir.clone()),
                last_build_failed: failed,
                package_manager: spec.manifest.package_manager,
                origin: String::from_str(spec.origin.as_str()),
                size,
            };
            proof {
                let sv_i = specs@[i as int];
                assert(sv_i == specs.entries@[i as int]@);
                assert(sv_i.manifest == spec.manifest@);
                assert forall|k: int| 0 <= k < sv_i.manifest.depends.len() implies
                    crate::sets::strs_of(details.depends@)[k] == sv_i.manifest.depends.map_values(
                    |q: (NamespaceView, Seq<char>)| full_display_of(q),
                )[k] by {
                    assert(details.depends@[k]@ == full_display_of(spec.manifest.depends@[k]@));
                    assert(sv_i.manifest.depends[k] == spec.manifest.depends@[k]@);
                }
                assert(crate::sets::strs_of(details.depends@) =~= sv_i.manifest.depends.map_values(
                    |q: (NamespaceView, Seq<char>)| full_display_of(q),
                ));
                assert forall|k: int| 0 <= k < sv_i.manifest.build_depends.len() implies
                    crate::sets::strs_of(details.build_depends@)[k]
                        == sv_i.manifest.build_depends.map_values(
                        |q: (NamespaceView, Seq<char>)| full_display_of(q),
                    )[k] by {
                    assert(details.build_depends@[k]@ == full_display_of(
                        spec.manifest.build_depends@[k]@,
                    ));
                    assert(sv_i.manifest.build_depends[k] == spec.manifest.build_depends@[k]@);
                }
                assert(crate::sets::strs_of(details.build_depends@)
                    =~= sv_i.manifest.build_depends.map_values(
                    |q: (NamespaceView, Seq<char>)| full_display_of(q),
                ));
                assert(root_details_of(details, sv_i));
            }
            let ghost old_out = out@;
            out.push((name, details));
            proof {
                assert(forall|k: int| 0 <= k < old_out.len() ==> out@[k] == old_out[k]);
            }
            i += 1;
        }
        let ghost n1 = out@.len() as int;
        let mut j: usize = 0;
        while j < self.cache.entries.len()
            invariant
                self.wf(),
                j <= self.cache.entries@.len(),
                n1 <= out@.len(),
                n1 == crate::registry::scanned_specs_of(self.discovered@).len(),
                specs@ == crate::registry::scanned_specs_of(self.discovered@),
                forall|k: int|
                    0 <= k < n1 ==> (#[trigger] out@[k]).0@ == (
                        NamespaceView::Root,
                        specs@[k].name,
                    ),
                forall|k: int| 0 <= k < n1 ==> root_details_of((#[trigger] out@[k]).1, specs@[k]),
                forall|k: int|
                    n1 <= k < out@.len() ==> cache_only_details((#[trigger] out@[k]).1),
                forall|k: int|
                    n1 <= k < out@.len() ==> (exists|i2: int|
                        0 <= i2 < j && (#[trigger] self.cache@[i2]).tar_mtime is Some
                            && crate::names::full_parse_of(self.cache@[i2].key) == Some(
                            (#[trigger] out@[k]).0@,
                        ) && !(out@[k].0@.0 is Root)),
                forall|i2: int|
                    0 <= i2 < j && (#[trigger] self.cache@[i2]).tar_mtime is Some
                        && crate::names::full_parse_of(self.cache@[i2].key) is Some && !(
                    crate::names::full_parse_of(self.cache@[i2].key)->Some_0.0 is Root) ==> (
                    exists|k: int|
                        n1 <= k < out@.len() && (#[trigger] out@[k]).0@
                            == crate::names::full_parse_of(self.cache@[i2].key)->Some_0),
                forall|k: int|
                    0 <= k < out@.len() ==> {
                        let entry = #[trigger] out@[k];
                        &&& entry.0.wf()
                        &&& entry.1.built == artifact_mtime(
                            self.cache@,
                            full_display_of(entry.0@),
                        )
                        &&& entry.1.size == artifact_size(
                            self.cache@,
                            full_display_of(entry.0@),
                        )
                        &&& entry.1.last_build_failed == has_failed_marker(
                            self.cache@,
                            full_display_of(entry.0@),
                        )
                    },
            decreases self.cache.entries@.len() - j,
        {
            let key = &self.cache.entries[j].key;
            let ghost old_out = out@;
            proof {
                assert(self.cache@[j as int] == self.cache.entries@[j as int]@);
            }
            if self.cache.entries[j].tar_mtime.is_some() {
                match FullPackageName::from_str(key.as_str()) {
                    Ok(parsed) => {
                        let is_root = matches!(&parsed.0, PackageNamespace::Root);
                        if !is_root {
                            let built = self.cache.last_built(
                                parsed.as_filename_component().as_str(),
                            );
                            let size = self.cache.last_size(
                                parsed.as_filename_component().as_str(),
                            );
                            let failed = self.package_build_failed(&parsed);
                            let details = PackageDetails {
                                build_depends: Vec::new(),
                                built,
                                depends: Vec::new(),
                                edited: None,
                                dir: None,
                                last_build_failed: failed,
                                package_manager: false,
                                origin: String::from_str("N/A"),
                                size,
                            };
                            proof {
                                assert(cache_only_details(details));
                            }
                            let ghost pv = parsed@;
                            out.push((parsed, details));
                            proof {
                                assert(forall|k: int|
                                    0 <= k < old_out.len() ==> out@[k] == old_out[k]);
                                assert(crate::names::full_parse_of(self.cache@[j as int].key)
                                    == Some(pv));
                                assert(out@[out@.len() - 1].0@ == pv);
                                assert forall|k: int|
                                    n1 <= k < out@.len() implies (exists|i2: int|
                                    0 <= i2 < j + 1 && (#[trigger] self.cache@[i2]).tar_mtime
                                        is Some && crate::names::full_parse_of(
                                        self.cache@[i2].key,
                                    ) == Some((#[trigger] out@[k]).0@) && !(out@[k].0@.0
                                        is Root)) by {
                                    if k < old_out.len() {
                                        let i2 = choose|i2: int|
                                            0 <= i2 < j && (#[trigger] self.cache@[i2]).tar_mtime
                                                is Some && crate::names::full_parse_of(
                                                self.cache@[i2].key,
                                            ) == Some((old_out[k]).0@) && !(old_out[k].0@.0
                                                is Root);
                                    } else {
                                        assert(0 <= j < j + 1 && self.cache@[
                                            j as int].tar_mtime is Some
                                            && crate::names::full_parse_of(
                                            self.cache@[j as int].key,
                                        ) == Some(out@[k].0@) && !(out@[k].0@.0 is Root));
                                    }
                                }
                                assert forall|i2: int|
                                    0 <= i2 < j + 1 && (#[trigger] self.cache@[i2]).tar_mtime
                                        is Some && crate::names::full_parse_of(
                                        self.cache@[i2].key,
                                    ) is Some && !(crate::names::full_parse_of(
                                        self.cache@[i2].key,
                                    )->Some_0.0 is Root) implies (exists|k: int|
                                    n1 <= k < out@.len() && (#[trigger] out@[k]).0@
                                        == crate::names::full_parse_of(
                                        self.cache@[i2].key,
                                    )->Some_0) by {
                                    if i2 < j {
                                        let k = choose|k: int|
                                            n1 <= k < old_out.len() && (#[trigger] old_out[k]).0@
                                                == crate::names::full_parse_of(
                                                self.cache@[i2].key,
                                            )->Some_0;
                                        assert(out@[k].0@ == crate::names::full_parse_of(
                                            self.cache@[i2].key,
                                        )->Some_0);
                                    } else {
                                        assert(out@[out@.len() - 1].0@
                                            == crate::names::full_parse_of(
                                            self.cache@[i2].key,
                                        )->Some_0);
                                    }
                                }
                            }
                        } else {
                            proof {
                                assert(crate::names::full_parse_of(self.cache@[j as int].key)
                                    == Some(parsed@));
                                assert(parsed@.0 is Root);
                                lemma_cache_tail_skip(*self, j as int, n1, out@);
                            }
                        }
                    },
                    Err(_) => {
                        proof {
                            assert(crate::names::full_parse_of(self.cache@[j as int].key)
                                is None);
                            lemma_cache_tail_skip(*self, j as int, n1, out@);
                        }
                    },
                }
            } else {
                proof {
                    lemma_cache_tail_skip(*self, j as int, n1, out@);
                }
            }
            j += 1;
        }
        Ok(out)
    }
}

/// The display names of a list of fully-qualified names.
fn display_names_of(v: &Vec<FullPackageName>) -> (r: Vec<String>)
    ensures
        r@.len() == v@.len(),
        forall|k: int| 0 <= k < v@.len() ==> (#[trigger] r@[k])@ == full_display_of(v@[k]@),
{
    let mut out: Vec<String> = Vec::new();
    let mut i: usize = 0;
    while i < v.len()
        invariant
            i <= v@.len(),
            out@.len() == i,
            forall|k: int| 0 <= k < i ==> (#[trigger] out@[k])@ == full_display_of(v@[k]@),
        decreases v@.len() - i,
    {
        out.push(v[i].unquoted());
        i += 1;
    }
    out
}

/// The package-list file's text: one display name per line, each line ended
/// by a newline.
pub open spec fn lines_of_names(s: Seq<(NamespaceView, Seq<char>)>) -> Seq<char>
    decreases s.len(),
{
    if s.len() == 0 {
        Seq::empty()
    } else {
        full_display_of(s[0]) + "\n"@ + lines_of_names(s.drop_first())
    }
}

/// No character of a valid name's display form is a newline, so each line
/// of a package list holds one whole display name.
proof fn lemma_display_no_newline(p: (NamespaceView, Seq<char>))
    requires
        crate::names::valid_package_name(p.1),
        p.0 matches NamespaceView::Managed(m) ==> crate::names::valid_name(m),
    ensures
        forall|k: int|
            0 <= k < full_display_of(p).len() ==> #[trigger] full_display_of(p)[k] != '\n',
{
    let d = full_display_of(p);
    reveal_strlit(".");
    reveal_strlit("debian");
    assert(!crate::names::is_package_char('\n'));
    match p.0 {
        NamespaceView::Root => {
            assert forall|k: int| 0 <= k < d.len() implies #[trigger] d[k] != '\n' by {
                assert(crate::names::is_package_char(p.1[k]));
            }
        },
        NamespaceView::Debian => {
            let ns = "debian"@;
            assert(d == ns + "."@ + p.1);
            assert forall|k: int| 0 <= k < d.len() implies #[trigger] d[k] != '\n' by {
                if k < ns.len() {
                    assert(d[k] == ns[k]);
                    assert(ns[k] != '\n');
                } else if k == ns.len() {
                    assert(d[k] == '.');
                } else {
                    assert(d[k] == p.1[k - ns.len() - 1]);
                    assert(crate::names::is_package_char(p.1[k - ns.len() - 1]));
                }
            }
        },
        NamespaceView::Managed(m) => {
            assert(d == m + "."@ + p.1);
            assert forall|k: int| 0 <= k < d.len() implies #[trigger] d[k] != '\n' by {
                if k < m.len() {
                    assert(d[k] == m[k]);
                    assert(crate::names::is_name_char(m[k]));
                } else if k == m.len() {
                    assert(d[k] == '.');
                } else {
                    assert(d[k] == p.1[k - m.len() - 1]);
                    assert(crate::names::is_package_char(p.1[k - m.len() - 1]));
                }
            }
        },
    }
}

/// A name whose display form parses back to itself: every valid name except
/// a root-namespace package whose own name holds a dot, and a managed
/// namespace that shadows one of the reserved namespace words.
pub open spec fn listable_name(p: (NamespaceView, Seq<char>)) -> bool {
    &&& crate::names::valid_package_name(p.1)
    &&& (p.0 is Root ==> !p.1.contains('.'))
    &&& (p.0 matches NamespaceView::Managed(m) ==> crate::names::valid_name(m) && m
        != "cubicle"@ && m != "debian"@)
}

/// Writing a package list and parsing it back returns the same names: for
/// any sequence of listable names, the content [`lines_of_names`] produces
/// parses, by [`parse_list_of`], to exactly that sequence.
pub proof fn lemma_package_list_round_trip(t: Seq<(NamespaceView, Seq<char>)>)
    requires
        forall|k: int| 0 <= k < t.len() ==> listable_name(#[trigger] t[k]),
    ensures
        parse_list_of(lines_of_names(t)) == Some(t),
    decreases t.len(),
{
    reveal_strlit("\n");
    if t.len() == 0 {
        assert(lines_of_names(t) =~= Seq::<char>::empty());
        assert(t =~= Seq::<(NamespaceView, Seq<char>)>::empty());
        assert(parse_list_of(lines_of_names(t)) == Some(t));
    } else {
        let p = t[0];
        let d = full_display_of(p);
        let rest = lines_of_names(t.drop_first());
        let s = lines_of_names(t);
        assert(s == d + "\n"@ + rest);
        assert(("\n"@).len() == 1);
        assert(s.len() == d.len() + 1 + rest.len());
        lemma_display_no_newline(p);
        assert forall|k: int| 0 <= k < d.len() implies s[k] != '\n' by {
            assert(s[k] == d[k]);
        }
        assert(s[d.len() as int] == '\n');
        crate::text::lemma_find_char_unique(s, '\n', d.len() as int);
        assert(crate::text::find_char_of(s, '\n') == Some(d.len() as int));
        assert(s.take(d.len() as int) =~= d);
        crate::names::lemma_display_round_trip(p);
        assert(crate::names::full_parse_of(d) == Some(p));
        assert(s.skip(d.len() as int + 1) =~= rest);
        assert forall|k: int| 0 <= k < t.drop_first().len() implies listable_name(
            #[trigger] t.drop_first()[k],
        ) by {
            assert(t.drop_first()[k] == t[k + 1]);
        }
        lemma_package_list_round_trip(t.drop_first());
        assert(parse_list_of(rest) == Some(t.drop_first()));
        assert(parse_list_of(s) == Some(seq![p] + t.drop_first()));
        assert(seq![p] + t.drop_first() =~= t);
    }
}

proof fn lemma_lines_push(s: Seq<(NamespaceView, Seq<char>)>, x: (NamespaceView, Seq<char>))
    ensures
        lines_of_names(s.push(x)) == lines_of_names(s) + full_display_of(x) + "\n"@,
    decreases s.len(),
{
    if s.len() == 0 {
        assert(s.push(x)[0] == x);
        assert(s.push(x).drop_first() =~= Seq::<(NamespaceView, Seq<char>)>::empty());
        assert(lines_of_names(Seq::<(NamespaceView, Seq<char>)>::empty()) =~= Seq::<
            char,
        >::empty());
        assert(lines_of_names(s.push(x)) =~= full_display_of(x) + "\n"@);
        assert(lines_of_names(s) + full_display_of(x) + "\n"@ =~= full_display_of(x) + "\n"@);
    } else {
        assert(s.push(x)[0] == s[0]);
        assert(s.push(x).drop_first() =~= s.drop_first().push(x));
        lemma_lines_push(s.drop_first(), x);
        assert(lines_of_names(s.push(x)) =~= lines_of_names(s) + full_display_of(x) + "\n"@);
    }
}

/// Renders the package-list file for a set of names: one display name per
/// line, in the given order.
pub fn package_list_content(names: &Vec<FullPackageName>) -> (r: String)
    ensures
        r@ == lines_of_names(views_of(names@)),
{
    let mut out = String::new();
    let mut i: usize = 0;
    proof {
        assert(views_of(names@).take(0) =~= Seq::<(NamespaceView, Seq<char>)>::empty());
    }
    while i < names.len()
        invariant
            i <= names@.len(),
            out@ == lines_of_names(views_of(names@).take(i as int)),
        decreases names@.len() - i,
    {
        let d = names[i].unquoted();
        out.append(d.as_str());
        out.append("\n");
        proof {
            assert(views_of(names@).take(i + 1) =~= views_of(names@).take(i as int).push(
                views_of(names@)[i as int],
            ));
            lemma_lines_push(views_of(names@).take(i as int), views_of(names@)[i as int]);
            assert(views_of(names@)[i as int] == names@[i as int]@);
        }
        i += 1;
    }
    proof {
        assert(views_of(names@).take(names@.len() as int) =~= views_of(names@));
    }
    out
}

/// The default package set: just `default`.
fn default_package_names() -> (r: Vec<FullPackageName>)
    ensures
        r@.len() == 1,
        r@[0]@ == (NamespaceView::Root, "default"@),
        r@[0].wf(),
{
    proof {
        reveal_strlit("default");
        crate::names::lemma_trim_of_valid("default"@);
    }
    let name = match PackageName::from_str("default") {
        Ok(n) => n,
        Err(_) => {
            proof {
                assert(false);
            }
            unreached()
        },
    };
    let mut out: Vec<FullPackageName> = Vec::new();
    out.push(FullPackageName(PackageNamespace::Root, name));
    out
}

/// The package set a flow was asked for: the given names under the root
/// namespace, or the default set.
pub open spec fn requested_package_views(packages: Option<&Vec<PackageName>>) -> Seq<
    (NamespaceView, Seq<char>),
> {
    match packages {
        Some(ps) => Seq::new(ps@.len(), |k: int| (NamespaceView::Root, ps@[k]@)),
        None => seq![(NamespaceView::Root, "default"@)],
    }
}

/// The hypotheses under which creating or resetting an environment with
/// this package set owes success as far as the packages go: the scan's
/// `auto` closure resolves, and the update of the requested set succeeds
/// (see [`update_succeeds_hyp`]).
pub open spec fn environment_setup_hyp(
    c: Cubicle,
    requested: Seq<(NamespaceView, Seq<char>)>,
) -> bool {
    &&& (forall|q: (NamespaceView, Seq<char>)| #[trigger]
        reaches(
            scan_fold(Seq::<PackageSpecView>::empty(), c.discovered@),
            true,
            Set::empty().insert(crate::registry::auto_root()),
            q,
        ) ==> resolvable(scan_fold(Seq::<PackageSpecView>::empty(), c.discovered@), q))
    &&& update_succeeds_hyp(
        crate::registry::scanned_specs_of(c.discovered@),
        requested.to_set(),
        c.build_outcomes@,
        c.test_outcomes@,
    )
}

/// The package set a reset acts on: the given one; else the set recorded in
/// the environment's own package list; else the default.
pub open spec fn reset_effective_views(
    c: Cubicle,
    name: Seq<char>,
    packages: Option<&Vec<PackageName>>,
) -> Seq<(NamespaceView, Seq<char>)> {
    match packages {
        Some(_) => requested_package_views(packages),
        None => match find_env(c.runner@, name) {
            Some(v) => match v.packages_txt {
                Some(text) => match parse_list_of(text) {
                    Some(t) => t,
                    None => Seq::empty(),
                },
                None => seq![(NamespaceView::Root, "default"@)],
            },
            None => Seq::empty(),
        },
    }
}

impl Cubicle {
    fn full_names_from(&self, packages: Option<&Vec<PackageName>>) -> (r: Vec<FullPackageName>)
        requires
            packages matches Some(ps) ==> forall|k: int|
                0 <= k < ps@.len() ==> crate::names::valid_package_name((#[trigger] ps@[k])@),
        ensures
            forall|k: int| 0 <= k < r@.len() ==> wf_full((#[trigger] r@[k])@),
            views_of(r@) == requested_package_views(packages),
    {
        match packages {
            None => {
                let r = default_package_names();
                proof {
                    reveal_strlit("default");
                    assert(views_of(r@) =~= requested_package_views(packages));
                }
                r
            },
            Some(ps) => {
                let mut out: Vec<FullPackageName> = Vec::new();
                let mut i: usize = 0;
                while i < ps.len()
                    invariant
                        i <= ps@.len(),
                        out@.len() == i,
                        forall|k: int|
                            0 <= k < ps@.len() ==> crate::names::valid_package_name(
                                (#[trigger] ps@[k])@,
                            ),
                        forall|k: int| 0 <= k < out@.len() ==> wf_full((#[trigger] out@[k])@),
                        forall|k: int|
                            0 <= k < i ==> (#[trigger] out@[k])@ == (
                                NamespaceView::Root,
                                ps@[k]@,
                            ),
                    decreases ps@.len() - i,
                {
                    out.push(FullPackageName(PackageNamespace::Root, ps[i].clone()));
                    i += 1;
                }
                proof {
                    assert(views_of(out@) =~= requested_package_views(packages));
                }
                out
            },
        }
    }

    /// Creates a brand-new environment seeded with the given packages (by
    /// default, `default`): rebuilds what is stale, then creates the
    /// environment with the artifacts and a package list as seeds.
    ///
    /// Fails when anything already exists under the name.
    pub fn new_environment(
        &mut self,
        name: &EnvironmentName,
        packages: Option<&Vec<PackageName>>,
    ) -> (r: Result<(), Error>)
        requires
            old(self).wf(),
            name.wf(),
            packages matches Some(ps) ==> forall|k: int|
                0 <= k < ps@.len() ==> crate::names::valid_package_name((#[trigger] ps@[k])@),
        ensures
            final(self).wf(),
            same_settings(*old(self), *final(self)),
            exists_of(old(self).runner@, name@) != EnvironmentExists::NoEnvironment ==> r is Err
                && *final(self) == *old(self),
            exists_of(old(self).runner@, name@) == EnvironmentExists::FullyExists ==> (
            r matches Err(e) && e.kind == ErrorKind::InconsistentState && e.context@.len() == 0
                && e.message@ == "environment "@ + name@
                + " already exists (did you mean reset?)"@),
            exists_of(old(self).runner@, name@) == EnvironmentExists::PartiallyExists ==> (
            r matches Err(e) && e.kind == ErrorKind::InconsistentState && e.context@.len() == 0
                && e.message@ == "environment "@ + name@ + " is in a broken state (try reset)"@),
            r is Ok ==> exists_of(final(self).runner@, name@) == EnvironmentExists::FullyExists
                && (find_env(final(self).runner@, name@) matches Some(v) && v.packages_txt
                is Some),
            r is Ok ==> (exists|t: Seq<(NamespaceView, Seq<char>)>|
                #[trigger] crate::sets::sorted_by_display(t) && t.to_multiset()
                    == requested_package_views(packages).to_multiset() && find_env(
                    final(self).runner@,
                    name@,
                )->Some_0.packages_txt == Some(lines_of_names(t))),
            (exists_of(old(self).runner@, name@) == EnvironmentExists::NoEnvironment
                && !has_prefix(name@, "package-"@) && !has_prefix(name@, "test-package-"@)
                && environment_setup_hyp(*old(self), requested_package_views(packages))
                && outcome_of(old(self).env_init_outcomes@, name@)) ==> r is Ok,
    {
        match self.runner.exists_state(name) {
            EnvironmentExists::NoEnvironment => {},
            EnvironmentExists::PartiallyExists => {
                return Err(
                    Error::new(
                        ErrorKind::InconsistentState,
                        concat3("environment ", name.as_str(), " is in a broken state (try reset)"),
                    ),
                );
            },
            EnvironmentExists::FullyExists => {
                return Err(
                    Error::new(
                        ErrorKind::InconsistentState,
                        concat3(
                            "environment ",
                            name.as_str(),
                            " already exists (did you mean reset?)",
                        ),
                    ),
                );
            },
        }
        let ghost hyp = environment_setup_hyp(*self, requested_package_views(packages));
        let ghost init_ok = outcome_of(self.env_init_outcomes@, name@);
        let full_names = self.full_names_from(packages);
        let specs = match self.scan_packages() {
            Ok(sp) => sp,
            Err(e) => {
                proof {
                    if hyp {
                        assert(false);
                    }
                }
                return Err(e);
            },
        };
        let conditions = UpdatePackagesConditions {
            dependencies: ShouldPackageUpdate::IfStale,
            named: ShouldPackageUpdate::IfStale,
        };
        match self.update_packages(&full_names, &specs, &conditions) {
            Ok(()) => {},
            Err(e) => {
                proof {
                    if hyp {
                        assert(views_of(full_names@).to_set() =~= requested_package_views(
                            packages,
                        ).to_set());
                        assert(false);
                    }
                }
                return Err(e);
            },
        }
        let mut seeds = match self.packages_to_seeds(&full_names, &specs) {
            Ok(seedlist) => seedlist,
            Err(e) => {
                proof {
                    if hyp {
                        let roots = views_of(full_names@).to_set();
                        assert(roots =~= requested_package_views(packages).to_set());
                        assert forall|q: (NamespaceView, Seq<char>)| #[trigger]
                            reaches(specs@, false, roots, q) implies resolvable(specs@, q) by {
                            crate::registry::lemma_reaches_mono_build(specs@, roots, q);
                        }
                        assert(false);
                    }
                }
                return Err(e);
            },
        };
        let sorted = sort_names(crate::registry::clone_names(&full_names));
        let content = package_list_content(&sorted);
        seeds.push(self.package_cache.clone());
        let init = Init {
            seeds,
            packages_txt: Some(content),
            script: self.script_path.join("dev-init.sh"),
            debian_packages: Vec::new(),
            env_vars: Vec::new(),
            script_succeeds: lookup_outcome(&self.env_init_outcomes, name.as_str()),
        };
        let r = self.runner.create(name, &init);
        proof {
            if r is Ok {
                assert(views_of(sorted@).to_multiset() == views_of(full_names@).to_multiset());
                assert(crate::sets::sorted_by_display(views_of(sorted@)) && views_of(
                    sorted@,
                ).to_multiset() == requested_package_views(packages).to_multiset() && find_env(
                    self.runner@,
                    name@,
                )->Some_0.packages_txt == Some(lines_of_names(views_of(sorted@))));
            }
        }
        r
    }

    /// Resets an existing environment: stops it, rebuilds its packages (the
    /// given ones, or the set recorded in its own `w/packages.txt`, or the
    /// default set), clears its home and re-seeds it. The work tree
    /// survives.
    pub fn reset_environment(
        &mut self,
        name: &EnvironmentName,
        packages: Option<&Vec<PackageName>>,
    ) -> (r: Result<(), Error>)
        requires
            old(self).wf(),
            name.wf(),
            packages matches Some(ps) ==> forall|k: int|
                0 <= k < ps@.len() ==> crate::names::valid_package_name((#[trigger] ps@[k])@),
        ensures
            final(self).wf(),
            same_settings(*old(self), *final(self)),
            exists_of(old(self).runner@, name@) == EnvironmentExists::NoEnvironment ==> r is Err
                && *final(self) == *old(self),
            exists_of(old(self).runner@, name@) == EnvironmentExists::NoEnvironment ==> (
            r matches Err(e) && e.kind == ErrorKind::MissingObject && e.context@.len() == 0
                && e.message@ == "environment "@ + name@ + " does not exist (did you mean new?)"@),
            r is Ok ==> exists_of(final(self).runner@, name@) == EnvironmentExists::FullyExists,
            (r is Ok && packages is Some) ==> (exists|t: Seq<(NamespaceView, Seq<char>)>|
                #[trigger] crate::sets::sorted_by_display(t) && t.to_multiset()
                    == requested_package_views(packages).to_multiset() && find_env(
                    final(self).runner@,
                    name@,
                )->Some_0.packages_txt == Some(lines_of_names(t))),
            (r is Ok && packages is None && !has_prefix(name@, "package-"@) && !has_prefix(
                name@,
                "test-package-"@,
            ) && (find_env(old(self).runner@, name@) matches Some(v)
                && v.packages_txt is Some)) ==> find_env(
                final(self).runner@,
                name@,
            )->Some_0.packages_txt == find_env(old(self).runner@, name@)->Some_0.packages_txt,
            (r is Ok && packages is None && !has_prefix(name@, "package-"@) && !has_prefix(
                name@,
                "test-package-"@,
            ) && (find_env(old(self).runner@, name@) matches Some(v)
                && v.packages_txt is None)) ==> (exists|t: Seq<(NamespaceView, Seq<char>)>|
                #[trigger] crate::sets::sorted_by_display(t) && t.to_multiset() == seq![
                    (NamespaceView::Root, "default"@),
                ].to_multiset() && find_env(final(self).runner@, name@)->Some_0.packages_txt
                    == Some(lines_of_names(t))),
            (exists_of(old(self).runner@, name@) != EnvironmentExists::NoEnvironment
                && !has_prefix(name@, "package-"@) && !has_prefix(name@, "test-package-"@) && (
            packages is None ==> (find_env(old(self).runner@, name@)->Some_0.packages_txt
                matches Some(text) ==> parse_list_of(text) is Some)) && environment_setup_hyp(
                *old(self),
                reset_effective_views(*old(self), name@, packages),
            ) && outcome_of(old(self).env_init_outcomes@, name@)) ==> r is Ok,
    {
        if matches!(self.runner.exists_state(name), EnvironmentExists::NoEnvironment) {
            return Err(
                Error::new(
                    ErrorKind::MissingObject,
                    concat3("environment ", name.as_str(), " does not exist (did you mean new?)"),
                ),
            );
        }
        let ghost effective = reset_effective_views(*self, name@, packages);
        let ghost hyp = environment_setup_hyp(*self, effective);
        let mut changed: bool = true;
        let full_names: Vec<FullPackageName> = match packages {
            Some(_) => self.full_names_from(packages),
            None => {
                match self.runner.copy_out_from_work(name, "packages.txt") {
                    Ok(content) => {
                        match parse_package_list(content.as_str()) {
                            Ok(list) => {
                                changed = false;
                                proof {
                                    assert(views_of(list@) == effective);
                                }
                                list
                            },
                            Err(e) => {
                                return Err(e);
                            },
                        }
                    },
                    Err(_) => default_package_names(),
                }
            },
        };
        proof {
            assert(views_of(full_names@) == effective || (packages is None && (find_env(
                self.runner@,
                name@,
            ) matches Some(v) && v.packages_txt is Some && parse_list_of(
                v.packages_txt->Some_0,
            ) is None)));
            assert forall|k: int| 0 <= k < full_names@.len() implies wf_full(
                #[trigger] full_names@[k]@,
            ) by {}
        }
        let specs = match self.scan_packages() {
            Ok(sp) => sp,
            Err(e) => {
                proof {
                    if hyp {
                        assert(false);
                    }
                }
                return Err(e);
            },
        };
        let conditions = UpdatePackagesConditions {
            dependencies: ShouldPackageUpdate::IfStale,
            named: ShouldPackageUpdate::IfStale,
        };
        match self.update_packages(&full_names, &specs, &conditions) {
            Ok(()) => {},
            Err(e) => {
                proof {
                    if hyp {
                        assert(views_of(full_names@).to_set() =~= effective.to_set());
                        assert(false);
                    }
                }
                return Err(e);
            },
        }
        let seeds = match self.packages_to_seeds(&full_names, &specs) {
            Ok(seedlist) => seedlist,
            Err(e) => {
                proof {
                    if hyp {
                        let roots = views_of(full_names@).to_set();
                        assert(roots =~= effective.to_set());
                        assert forall|q: (NamespaceView, Seq<char>)| #[trigger]
                            reaches(specs@, false, roots, q) implies resolvable(specs@, q) by {
                            crate::registry::lemma_reaches_mono_build(specs@, roots, q);
                        }
                        assert(false);
                    }
                }
                return Err(e);
            },
        };
        let ghost sorted_views: Seq<(NamespaceView, Seq<char>)> = Seq::empty();
        let packages_txt = if changed {
            let sorted = sort_names(crate::registry::clone_names(&full_names));
            proof {
                sorted_views = views_of(sorted@);
            }
            Some(package_list_content(&sorted))
        } else {
            None
        };
        let init = Init {
            seeds,
            packages_txt,
            script: self.script_path.join("dev-init.sh"),
            debian_packages: Vec::new(),
            env_vars: Vec::new(),
            script_succeeds: lookup_outcome(&self.env_init_outcomes, name.as_str()),
        };
        let r = self.runner.reset(name, &init);
        proof {
            if r is Ok && changed {
                assert(crate::sets::sorted_by_display(sorted_views) && sorted_views.to_multiset()
                    == views_of(full_names@).to_multiset() && find_env(
                    self.runner@,
                    name@,
                )->Some_0.packages_txt == Some(lines_of_names(sorted_views)));
            }
        }
        r
    }

    /// Creates a throwaway environment named after the given word and enters
    /// it.
    ///
    /// The word comes from a name generator outside this library; it is
    /// rejected when it would collide with the program's own prefixes, when
    /// `tmp-<word>` is not a valid environment name, or when that
    /// environment already exists.
    pub fn create_enter_tmp_environment(
        &mut self,
        word: &str,
        packages: Option<&Vec<PackageName>>,
    ) -> (r: Result<(), Error>)
        requires
            old(self).wf(),
            packages matches Some(ps) ==> forall|k: int|
                0 <= k < ps@.len() ==> crate::names::valid_package_name((#[trigger] ps@[k])@),
        ensures
            final(self).wf(),
            same_settings(*old(self), *final(self)),
            (word@.len() >= 3 && word@.take(3) == "cub"@) ==> r is Err && *final(self) == *old(
                self,
            ),
            (!(word@.len() >= 3 && word@.take(3) == "cub"@) && !crate::names::valid_name(
                crate::text::trim_of("tmp-"@ + word@),
            )) ==> r is Err && *final(self) == *old(self),
            (!(word@.len() >= 3 && word@.take(3) == "cub"@) && crate::names::valid_name(
                crate::text::trim_of("tmp-"@ + word@),
            ) && exists_of(old(self).runner@, crate::text::trim_of("tmp-"@ + word@))
                != EnvironmentExists::NoEnvironment) ==> r is Err && *final(self) == *old(self),
            r is Ok ==> exists_of(final(self).runner@, crate::text::trim_of("tmp-"@ + word@))
                == EnvironmentExists::FullyExists,
            (!(word@.len() >= 3 && word@.take(3) == "cub"@) && crate::names::valid_name(
                crate::text::trim_of("tmp-"@ + word@),
            ) && exists_of(old(self).runner@, crate::text::trim_of("tmp-"@ + word@))
                == EnvironmentExists::NoEnvironment && !has_prefix(
                crate::text::trim_of("tmp-"@ + word@),
                "package-"@,
            ) && !has_prefix(crate::text::trim_of("tmp-"@ + word@), "test-package-"@)
                && environment_setup_hyp(*old(self), requested_package_views(packages))
                && outcome_of(
                old(self).env_init_outcomes@,
                crate::text::trim_of("tmp-"@ + word@),
            )) ==> r is Ok,
    {
        if word.unicode_len() >= 3 {
            let head = word.substring_char(0, 3);
            if str_equal(head, "cub") {
                return Err(
                    Error::new(
                        ErrorKind::InvalidInput,
                        String::from_str("generated name would collide with the program's own"),
                    ),
                );
            }
        }
        let candidate = concat2("tmp-", word);
        let env_name = match EnvironmentName::from_str(candidate.as_str()) {
            Ok(n) => n,
            Err(e) => {
                return Err(e);
            },
        };
        if !matches!(self.runner.exists_state(&env_name), EnvironmentExists::NoEnvironment) {
            return Err(
                Error::new(
                    ErrorKind::InvalidInput,
                    concat2("environment already exists: ", env_name.as_str()),
                ),
            );
        }
        match self.new_environment(&env_name, packages) {
            Ok(()) => {},
            Err(e) => {
                return Err(e);
            },
        }
        self.runner.run(&env_name, &RunnerCommand::Interactive)
    }

    /// Returns a list of available packages, sorted by display form: every
    /// discovered source package (under the root namespace) and every
    /// package whose cached artifact's name parses, each exactly once.
    pub fn get_package_names(&self) -> (r: Vec<FullPackageName>)
        requires
            self.wf(),
        ensures
            forall|k: int| 0 <= k < r@.len() ==> (#[trigger] r@[k]).wf(),
            crate::sets::sorted_by_display(views_of(r@)),
            views_of(r@).no_duplicates(),
            forall|q: (NamespaceView, Seq<char>)| #[trigger]
                views_of(r@).contains(q) <==> (name_from_discovery(*self, q)
                    || name_from_cached_artifact(*self, self.cache@.len() as int, q)),
    {
        let mut names: Vec<FullPackageName> = Vec::new();
        let mut i: usize = 0;
        while i < self.discovered.len()
            invariant
                self.wf(),
                i <= self.discovered@.len(),
                forall|k: int| 0 <= k < names@.len() ==> (#[trigger] names@[k]).wf(),
                views_of(names@).no_duplicates(),
                forall|q: (NamespaceView, Seq<char>)| #[trigger]
                    views_of(names@).contains(q) <==> (exists|i2: int|
                        0 <= i2 < i && q == (
                            NamespaceView::Root,
                            (#[trigger] self.discovered@[i2]).name@,
                        )),
            decreases self.discovered@.len() - i,
        {
            proof {
                assert(crate::names::valid_package_name(self.discovered@[i as int].name@));
            }
            let ghost old_views = views_of(names@);
            let ghost qv = (NamespaceView::Root, self.discovered@[i as int].name@);
            insert_name(
                &mut names,
                FullPackageName(PackageNamespace::Root, self.discovered[i].name.clone()),
            );
            proof {
                lemma_set_insert_views(old_views, views_of(names@), qv);
                assert forall|k: int| 0 <= k < names@.len() implies (#[trigger] names@[k]).wf()
                    by {
                    assert(views_of(names@)[k] == names@[k]@);
                }
                assert forall|q: (NamespaceView, Seq<char>)| #[trigger]
                    views_of(names@).contains(q) implies (exists|i2: int|
                    0 <= i2 < i + 1 && q == (
                        NamespaceView::Root,
                        (#[trigger] self.discovered@[i2]).name@,
                    )) by {
                    if old_views.contains(q) {
                        let i2 = choose|i2: int|
                            0 <= i2 < i && q == (
                                NamespaceView::Root,
                                (#[trigger] self.discovered@[i2]).name@,
                            );
                    } else {
                        assert(q == (NamespaceView::Root, self.discovered@[i as int].name@));
                    }
                }
                assert forall|q: (NamespaceView, Seq<char>)|
                    (exists|i2: int|
                        0 <= i2 < i + 1 && q == (
                            NamespaceView::Root,
                            (#[trigger] self.discovered@[i2]).name@,
                        )) implies #[trigger] views_of(names@).contains(q) by {
                    let i2 = choose|i2: int|
                        0 <= i2 < i + 1 && q == (
                            NamespaceView::Root,
                            (#[trigger] self.discovered@[i2]).name@,
                        );
                    if i2 < i {
                        assert(old_views.contains(q));
                    } else {
                        assert(views_of(names@).contains(qv));
                    }
                }
            }
            i += 1;
        }
        let mut j: usize = 0;
        while j < self.cache.entries.len()
            invariant
                self.wf(),
                j <= self.cache.entries@.len(),
                forall|k: int| 0 <= k < names@.len() ==> (#[trigger] names@[k]).wf(),
                views_of(names@).no_duplicates(),
                forall|q: (NamespaceView, Seq<char>)| #[trigger]
                    views_of(names@).contains(q) <==> (name_from_discovery(*self, q)
                        || name_from_cached_artifact(*self, j as int, q)),
            decreases self.cache.entries@.len() - j,
        {
            let entry = &self.cache.entries[j];
            let ghost old_views = views_of(names@);
            proof {
                assert(self.cache@[j as int] == self.cache.entries@[j as int]@);
            }
            if entry.tar_mtime.is_some() {
                match FullPackageName::from_str(entry.key.as_str()) {
                    Ok(parsed) => {
                        let ghost pv = parsed@;
                        insert_name(&mut names, parsed);
                        proof {
                            lemma_set_insert_views(old_views, views_of(names@), pv);
                            assert(crate::names::full_parse_of(self.cache@[j as int].key)
                                == Some(pv));
                            assert forall|k: int|
                                0 <= k < names@.len() implies (#[trigger] names@[k]).wf() by {
                                assert(views_of(names@)[k] == names@[k]@);
                            }
                            assert forall|q: (NamespaceView, Seq<char>)| #[trigger]
                                views_of(names@).contains(q) implies (name_from_discovery(
                                *self,
                                q,
                            ) || name_from_cached_artifact(*self, j + 1, q)) by {
                                if !old_views.contains(q) {
                                    assert(q == pv);
                                    assert(name_from_cached_artifact(*self, j + 1, q)) by {
                                        assert(0 <= j < j + 1 && self.cache@[j as int].tar_mtime
                                            is Some && crate::names::full_parse_of(
                                            self.cache@[j as int].key,
                                        ) == Some(q));
                                    }
                                } else {
                                    if name_from_cached_artifact(*self, j as int, q) {
                                        let i2 = choose|i2: int|
                                            0 <= i2 < j && (#[trigger] self.cache@[i2]).tar_mtime
                                                is Some && crate::names::full_parse_of(
                                                self.cache@[i2].key,
                                            ) == Some(q);
                                        assert(name_from_cached_artifact(*self, j + 1, q));
                                    }
                                }
                            }
                            assert forall|q: (NamespaceView, Seq<char>)|
                                (name_from_discovery(*self, q) || name_from_cached_artifact(
                                    *self,
                                    j + 1,
                                    q,
                                )) implies #[trigger] views_of(names@).contains(q) by {
                                if name_from_cached_artifact(*self, j + 1, q) {
                                    let i2 = choose|i2: int|
                                        0 <= i2 < j + 1 && (#[trigger] self.cache@[i2]).tar_mtime
                                            is Some && crate::names::full_parse_of(
                                            self.cache@[i2].key,
                                        ) == Some(q);
                                    if i2 < j {
                                        assert(name_from_cached_artifact(*self, j as int, q));
                                        assert(old_views.contains(q));
                                    } else {
                                        assert(q == pv);
                                        assert(views_of(names@).contains(pv));
                                    }
                                } else {
                                    assert(old_views.contains(q));
                                }
                            }
                        }
                    },
                    Err(_) => {
                        proof {
                            assert(crate::names::full_parse_of(self.cache@[j as int].key)
                                is None);
                            lemma_cache_skip_step(*self, j as int);
                        }
                    },
                }
            } else {
                proof {
                    lemma_cache_skip_step(*self, j as int);
                }
            }
            j += 1;
        }
        let ghost pre_sort = views_of(names@);
        let sorted = sort_names(names);
        proof {
            broadcast use vstd::seq_lib::group_to_multiset_ensures;

            pre_sort.lemma_multiset_has_no_duplicates();
            assert forall|q: (NamespaceView, Seq<char>)|
                views_of(sorted@).to_multiset().contains(q) implies views_of(
                sorted@,
            ).to_multiset().count(q) == 1 by {
                assert(pre_sort.to_multiset().contains(q));
            }
            views_of(sorted@).lemma_multiset_has_no_duplicates_conv();
            assert forall|q: (NamespaceView, Seq<char>)| #[trigger]
                views_of(sorted@).contains(q) <==> pre_sort.contains(q) by {
                assert(views_of(sorted@).to_multiset() == pre_sort.to_multiset());
                assert(views_of(sorted@).contains(q) <==> views_of(sorted@).to_multiset().count(
                    q,
                ) > 0);
                assert(pre_sort.contains(q) <==> pre_sort.to_multiset().count(q) > 0);
            }
            assert forall|k: int| 0 <= k < sorted@.len() implies (#[trigger] sorted@[k]).wf() by {
                assert(views_of(sorted@)[k] == sorted@[k]@);
                assert(views_of(sorted@).contains(sorted@[k]@)) by {
                    assert(views_of(sorted@)[k] == sorted@[k]@);
                }
                assert(pre_sort.contains(sorted@[k]@));
                let k2 = choose|k2: int| 0 <= k2 < pre_sort.len() && pre_sort[k2] == sorted@[k]@;
            }
        }
        sorted
    }
}

/// A cache entry that contributes no listing entry (no artifact, an
/// unparsable name, or a root-namespace name) leaves the tail membership
/// unchanged.
proof fn lemma_cache_tail_skip(
    c: Cubicle,
    j: int,
    n1: int,
    out: Seq<(FullPackageName, PackageDetails)>,
)
    requires
        0 <= j < c.cache@.len(),
        !(c.cache@[j].tar_mtime is Some && crate::names::full_parse_of(c.cache@[j].key) is Some
            && !(crate::names::full_parse_of(c.cache@[j].key)->Some_0.0 is Root)),
        forall|i2: int|
            0 <= i2 < j && (#[trigger] c.cache@[i2]).tar_mtime is Some
                && crate::names::full_parse_of(c.cache@[i2].key) is Some && !(
            crate::names::full_parse_of(c.cache@[i2].key)->Some_0.0 is Root) ==> (exists|k: int|
                n1 <= k < out.len() && (#[trigger] out[k]).0@ == crate::names::full_parse_of(
                    c.cache@[i2].key,
                )->Some_0),
    ensures
        forall|i2: int|
            0 <= i2 < j + 1 && (#[trigger] c.cache@[i2]).tar_mtime is Some
                && crate::names::full_parse_of(c.cache@[i2].key) is Some && !(
            crate::names::full_parse_of(c.cache@[i2].key)->Some_0.0 is Root) ==> (exists|k: int|
                n1 <= k < out.len() && (#[trigger] out[k]).0@ == crate::names::full_parse_of(
                    c.cache@[i2].key,
                )->Some_0),
{
}

/// Whether a name is that of a discovered source package (under the root
/// namespace).
pub open spec fn name_from_discovery(c: Cubicle, q: (NamespaceView, Seq<char>)) -> bool {
    exists|i: int|
        0 <= i < c.discovered@.len() && q == (
            NamespaceView::Root,
            (#[trigger] c.discovered@[i]).name@,
        )
}

/// Whether a name parses out of one of the first `j` cache entries with a
/// committed artifact.
pub open spec fn name_from_cached_artifact(
    c: Cubicle,
    j: int,
    q: (NamespaceView, Seq<char>),
) -> bool {
    exists|i: int|
        0 <= i < j && (#[trigger] c.cache@[i]).tar_mtime is Some && crate::names::full_parse_of(
            c.cache@[i].key,
        ) == Some(q)
}

/// A cache entry that contributes no name leaves the membership unchanged.
proof fn lemma_cache_skip_step(c: Cubicle, j: int)
    requires
        0 <= j < c.cache@.len(),
        !(c.cache@[j].tar_mtime is Some && crate::names::full_parse_of(c.cache@[j].key) is Some),
    ensures
        forall|q: (NamespaceView, Seq<char>)| #[trigger]
            name_from_cached_artifact(c, j + 1, q) <==> name_from_cached_artifact(c, j, q),
{
    assert forall|q: (NamespaceView, Seq<char>)| #[trigger]
        name_from_cached_artifact(c, j + 1, q) implies name_from_cached_artifact(c, j, q) by {
        let i2 = choose|i2: int|
            0 <= i2 < j + 1 && (#[trigger] c.cache@[i2]).tar_mtime is Some
                && crate::names::full_parse_of(c.cache@[i2].key) == Some(q);
        assert(i2 < j);
    }
}

/// Inserting into a duplicate-free list of names: afterwards it holds
/// exactly the old names plus the inserted one.
proof fn lemma_set_insert_views(
    old_views: Seq<(NamespaceView, Seq<char>)>,
    new_views: Seq<(NamespaceView, Seq<char>)>,
    x: (NamespaceView, Seq<char>),
)
    requires
        new_views == if old_views.contains(x) {
            old_views
        } else {
            old_views.push(x)
        },
    ensures
        forall|q: (NamespaceView, Seq<char>)| #[trigger]
            new_views.contains(q) <==> (old_views.contains(q) || q == x),
        old_views.no_duplicates() ==> new_views.no_duplicates(),
{
    if old_views.no_duplicates() && !old_views.contains(x) {
        assert forall|a: int, b: int|
            0 <= a < b < new_views.len() implies new_views[a] != new_views[b] by {
            if b == old_views.len() {
                assert(new_views[a] == old_views[a]);
                if old_views[a] == x {
                    assert(old_views.contains(old_views[a]));
                }
            }
        }
    }
    if old_views.contains(x) {
        assert forall|q: (NamespaceView, Seq<char>)|
            (old_views.contains(q) || q == x) implies #[trigger] new_views.contains(q) by {}
    } else {
        assert forall|q: (NamespaceView, Seq<char>)| #[trigger]
            new_views.contains(q) implies (old_views.contains(q) || q == x) by {
            let k = choose|k: int| 0 <= k < new_views.len() && new_views[k] == q;
            if k < old_views.len() {
                assert(old_views[k] == q);
            }
        }
        assert forall|q: (NamespaceView, Seq<char>)|
            (old_views.contains(q) || q == x) implies #[trigger] new_views.contains(q) by {
            if old_views.contains(q) {
                let k = choose|k: int| 0 <= k < old_views.len() && old_views[k] == q;
                assert(new_views[k] == q);
            } else {
                assert(new_views[old_views.len() as int] == q);
            }
        }
    }
}

/// The value when it is meaningful: the zero time stands for "unknown".
pub fn nonzero_time(t: u64) -> (r: Option<u64>)
    ensures
        r == if t == 0 {
            Option::<u64>::None
        } else {
            Option::<u64>::Some(t)
        },
{
    if t == 0 {
        None
    } else {
        Some(t)
    }
}

/// The wording of a relative time: round minutes under an hour, round hours
/// under a day, round days beyond.
pub open spec fn rel_time_of(duration: Option<u64>) -> Seq<char> {
    match duration {
        None => "N/A"@,
        Some(secs) => if secs < 3570 {
            crate::text::dec_str_of(((secs + 30) / 60) as u64) + " minutes"@
        } else if secs < 84600 {
            crate::text::dec_str_of(((secs + 1800) / 3600) as u64) + " hours"@
        } else {
            crate::text::dec_str_of((secs / 86400 + if secs % 86400 >= 43200 {
                1u64
            } else {
                0u64
            }) as u64) + " days"@
        },
    }
}

/// Renders a duration in rough human units.
pub fn rel_time(duration: Option<u64>) -> (r: String)
    ensures
        r@ == rel_time_of(duration),
{
    match duration {
        None => String::from_str("N/A"),
        Some(secs) => {
            if secs < 3570 {
                let m = (secs + 30) / 60;
                crate::text::u64_to_string(m).concat(" minutes")
            } else if secs < 84600 {
                let h = (secs + 1800) / 3600;
                crate::text::u64_to_string(h).concat(" hours")
            } else {
                let d = secs / 86400 + if secs % 86400 >= 43200 {
                    1
                } else {
                    0
                };
                crate::text::u64_to_string(d).concat(" days")
            }
        },
    }
}

/// The host home directory, from the value of the `HOME` variable; an empty
/// value is rejected.
pub fn host_home_dir(home: &str) -> (r: Result<HostPath, Error>)
    ensures
        r is Ok <==> home@.len() > 0,
        r matches Ok(p) ==> p@ == home@,
        r matches Err(e) ==> e.kind == ErrorKind::InvalidInput,
{
    if home.unicode_len() == 0 {
        Err(Error::new(ErrorKind::InvalidInput, String::from_str("home directory is not set")))
    } else {
        Ok(HostPath::from_string(String::from_str(home)))
    }
}

} // verus!
