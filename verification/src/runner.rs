//! The uniform environment-lifecycle contract and its state model.
//!
//! An environment owns two storage areas, home and work, and may have a live
//! instance (a running container or processes). The registry tracks that
//! state per environment name and enforces the checked-runner rules: `run`
//! only on a fully-existing environment, `create` only where nothing exists,
//! `reset` only where something exists, and `purge` always (idempotently).
//!
//! Running an init command streams seed archives into the environment's home
//! and then executes the init script inside; whether that script succeeds is
//! decided outside this library, so the command carries its outcome, and the
//! contracts state what holds for either outcome.

use vstd::prelude::*;
use crate::EnvironmentExists;
use crate::error::{Error, ErrorKind};
use crate::names::EnvironmentName;
use crate::paths::HostPath;
use crate::text::{concat2, str_equal};

verus! {

/// Everything an init command carries: seed archives, an optional package
/// list for the work tree, the init script, Debian packages and extra
/// environment variables for the backend, and whether the script (run
/// outside this library) exits successfully.
#[derive(Debug)]
pub struct Init {
    /// Seed tar files, streamed into the environment's home.
    pub seeds: Vec<HostPath>,
    /// Content for `w/packages.txt`, when a package-list seed is included.
    pub packages_txt: Option<String>,
    /// The init script to run inside the environment.
    pub script: HostPath,
    /// Debian packages the backend should make available.
    pub debian_packages: Vec<String>,
    /// Extra environment variables for the init script.
    pub env_vars: Vec<(String, String)>,
    /// Whether the init script, when run, exits successfully. The script
    /// runs outside this library; its outcome is an input here.
    pub script_succeeds: bool,
}

/// A command to run inside an environment.
#[derive(Debug)]
pub enum RunnerCommand {
    /// Attach an interactive shell.
    Interactive,
    /// Stream seeds in and run the init script.
    Init(Init),
    /// Run a joined argument list through the shell. The boolean is the
    /// command's outcome, decided outside this library.
    Exec(Vec<String>, bool),
}

/// The state of one environment.
#[derive(Debug)]
pub struct EnvState {
    /// The environment's name.
    pub name: EnvironmentName,
    /// Whether the home storage area exists.
    pub has_home: bool,
    /// Whether the work storage area exists.
    pub has_work: bool,
    /// Whether a live instance (container, processes) is present.
    pub has_instance: bool,
    /// Whether the home area holds a build artifact (`provides.tar`).
    pub has_provides: bool,
    /// The content of `w/packages.txt`, if present.
    pub packages_txt: Option<String>,
}

/// The mathematical model of an [`EnvState`].
#[verifier::ext_equal]
pub struct EnvView {
    /// Model of the name.
    pub name: Seq<char>,
    /// Model of the home area's presence.
    pub has_home: bool,
    /// Model of the work area's presence.
    pub has_work: bool,
    /// Model of the live instance's presence.
    pub has_instance: bool,
    /// Model of the artifact's presence.
    pub has_provides: bool,
    /// Model of the package list file.
    pub packages_txt: Option<Seq<char>>,
}

impl View for EnvState {
    type V = EnvView;

    open spec fn view(&self) -> EnvView {
        EnvView {
            name: self.name@,
            has_home: self.has_home,
            has_work: self.has_work,
            has_instance: self.has_instance,
            has_provides: self.has_provides,
            packages_txt: match self.packages_txt {
                Some(ref s) => Some(s@),
                None => None,
            },
        }
    }
}

/// The tri-state an environment's parts map to.
pub open spec fn state_of(v: EnvView) -> EnvironmentExists {
    if v.has_home && v.has_work {
        EnvironmentExists::FullyExists
    } else if v.has_home || v.has_work || v.has_instance {
        EnvironmentExists::PartiallyExists
    } else {
        EnvironmentExists::NoEnvironment
    }
}

/// The first environment entry with this name, if any.
pub open spec fn find_env(ev: Seq<EnvView>, name: Seq<char>) -> Option<EnvView>
    decreases ev.len(),
{
    if ev.len() == 0 {
        None
    } else if ev[0].name == name {
        Some(ev[0])
    } else {
        find_env(ev.drop_first(), name)
    }
}

/// What `exists` answers for a name in this registry.
pub open spec fn exists_of(ev: Seq<EnvView>, name: Seq<char>) -> EnvironmentExists {
    match find_env(ev, name) {
        None => EnvironmentExists::NoEnvironment,
        Some(v) => state_of(v),
    }
}

/// Whether `list` reports the name: some storage or a live instance is
/// observable under it.
pub open spec fn listed(ev: Seq<EnvView>, name: Seq<char>) -> bool {
    match find_env(ev, name) {
        None => false,
        Some(v) => v.has_home || v.has_work || v.has_instance,
    }
}

/// Whether a live instance runs under the name.
pub open spec fn has_live_instance(ev: Seq<EnvView>, name: Seq<char>) -> bool {
    match find_env(ev, name) {
        None => false,
        Some(v) => v.has_instance,
    }
}

/// An environment does not exist exactly when listing does not report it and
/// no live instance runs for it.
pub proof fn lemma_no_environment_iff_unlisted(ev: Seq<EnvView>, name: Seq<char>)
    ensures
        exists_of(ev, name) == EnvironmentExists::NoEnvironment <==> (!listed(ev, name)
            && !has_live_instance(ev, name)),
{
}

proof fn lemma_find_env_skip(ev: Seq<EnvView>, name: Seq<char>, i: int)
    requires
        0 <= i <= ev.len(),
        forall|k: int| 0 <= k < i ==> ev[k].name != name,
    ensures
        find_env(ev, name) == find_env(ev.skip(i), name),
    decreases i,
{
    if i > 0 {
        lemma_find_env_skip(ev.drop_first(), name, i - 1);
        assert(ev.drop_first().skip(i - 1) =~= ev.skip(i));
    } else {
        assert(ev.skip(0) =~= ev);
    }
}

/// The registry of environments a runner manages.
#[derive(Debug)]
pub struct EnvRegistry {
    /// One state per known environment, names distinct.
    pub envs: Vec<EnvState>,
}

impl View for EnvRegistry {
    type V = Seq<EnvView>;

    open spec fn view(&self) -> Seq<EnvView> {
        self.envs@.map_values(|e: EnvState| e@)
    }
}

/// Well-formedness: distinct, valid environment names.
pub open spec fn envs_wf(ev: Seq<EnvView>) -> bool {
    &&& forall|i: int, j: int| 0 <= i < j < ev.len() ==> ev[i].name != ev[j].name
    &&& forall|i: int| 0 <= i < ev.len() ==> crate::names::valid_name((#[trigger] ev[i]).name)
}

impl EnvRegistry {
    /// A registry with no environments.
    pub fn new() -> (r: EnvRegistry)
        ensures
            r@ =~= Seq::<EnvView>::empty(),
    {
        EnvRegistry { envs: Vec::new() }
    }

    /// The position of the entry with this name, if any.
    fn index_of(&self, name: &EnvironmentName) -> (r: Option<usize>)
        ensures
            match r {
                Some(i) => i < self@.len() && self@[i as int].name == name@ && find_env(
                    self@,
                    name@,
                ) == Some(self@[i as int]),
                None => find_env(self@, name@) is None,
            },
    {
        let mut i: usize = 0;
        while i < self.envs.len()
            invariant
                i <= self.envs@.len(),
                forall|k: int| 0 <= k < i ==> #[trigger] self.envs@[k]@.name != name@,
            decreases self.envs@.len() - i,
        {
            if str_equal(self.envs[i].name.as_str(), name.as_str()) {
                proof {
                    lemma_find_env_skip(self@, name@, i as int);
                    assert(self@.skip(i as int)[0] == self@[i as int]);
                }
                return Some(i);
            }
            i += 1;
        }
        proof {
            lemma_find_env_skip(self@, name@, self@.len() as int);
            assert(self@.skip(self@.len() as int) =~= Seq::<EnvView>::empty());
        }
        None
    }

    /// Answers whether, and how far, the environment exists.
    pub fn exists_state(&self, name: &EnvironmentName) -> (r: EnvironmentExists)
        ensures
            r == exists_of(self@, name@),
    {
        match self.index_of(name) {
            None => EnvironmentExists::NoEnvironment,
            Some(i) => {
                let e = &self.envs[i];
                if e.has_home && e.has_work {
                    EnvironmentExists::FullyExists
                } else if e.has_home || e.has_work || e.has_instance {
                    EnvironmentExists::PartiallyExists
                } else {
                    EnvironmentExists::NoEnvironment
                }
            },
        }
    }

    /// Every environment name with observable storage or a live instance.
    pub fn list(&self) -> (r: Vec<EnvironmentName>)
        requires
            envs_wf(self@),
        ensures
            forall|k: int| 0 <= k < r@.len() ==> listed(self@, (#[trigger] r@[k])@),
            forall|i: int|
                0 <= i < self@.len() && listed(self@, (#[trigger] self@[i]).name) ==> (exists|
                    k: int,
                |
                    0 <= k < r@.len() && (#[trigger] r@[k])@ == self@[i].name),
            crate::names::env_views_of(r@).no_duplicates(),
    {
        let mut out: Vec<EnvironmentName> = Vec::new();
        let mut i: usize = 0;
        while i < self.envs.len()
            invariant
                envs_wf(self@),
                i <= self.envs@.len(),
                forall|k: int| 0 <= k < out@.len() ==> listed(self@, (#[trigger] out@[k])@),
                forall|j: int|
                    0 <= j < i && listed(self@, (#[trigger] self@[j]).name) ==> (exists|k: int|
                        0 <= k < out@.len() && (#[trigger] out@[k])@ == self@[j].name),
                forall|k: int|
                    0 <= k < out@.len() ==> (exists|j: int|
                        0 <= j < i && (#[trigger] out@[k])@ == self@[j].name),
                crate::names::env_views_of(out@).no_duplicates(),
            decreases self.envs@.len() - i,
        {
            let e = &self.envs[i];
            if e.has_home || e.has_work || e.has_instance {
                let ghost old_out = out@;
                out.push(e.name.clone());
                proof {
                    assert(listed(self@, self@[i as int].name)) by {
                        lemma_env_member_found(self@, i as int);
                    }
                    assert((out@[old_out.len() as int])@ == self@[i as int].name);
                    assert forall|k: int| 0 <= k < out@.len() implies (exists|j: int|
                        0 <= j < i + 1 && (#[trigger] out@[k])@ == self@[j].name) by {
                        if k < old_out.len() {
                            let j = choose|j: int|
                                0 <= j < i && (#[trigger] old_out[k])@ == self@[j].name;
                            assert(out@[k]@ == self@[j].name);
                        } else {
                            assert(out@[k]@ == self@[i as int].name);
                        }
                    }
                    assert(crate::names::env_views_of(out@).no_duplicates()) by {
                        assert forall|a: int, b: int|
                            0 <= a < b < crate::names::env_views_of(out@).len() implies
                            crate::names::env_views_of(out@)[a] != crate::names::env_views_of(
                            out@,
                        )[b] by {
                            if b == old_out.len() {
                                assert(out@[a]@ == old_out[a]@);
                                let j = choose|j: int|
                                    0 <= j < i && (#[trigger] old_out[a])@ == self@[j].name;
                                assert(crate::names::env_views_of(out@)[a] == self@[j].name);
                                assert(crate::names::env_views_of(out@)[b] == self@[
                                    i as int].name);
                                assert(self@[j].name != self@[i as int].name);
                            } else {
                                assert(crate::names::env_views_of(old_out)[a] != crate::
                                names::env_views_of(old_out)[b]);
                                assert(crate::names::env_views_of(out@)[a] == old_out[a]@
                                    && crate::names::env_views_of(out@)[b] == old_out[b]@);
                                assert(crate::names::env_views_of(old_out)[a] == old_out[a]@);
                                assert(crate::names::env_views_of(old_out)[b] == old_out[b]@);
                            }
                        }
                    }
                    assert forall|j: int|
                        0 <= j < i + 1 && listed(
                            self@,
                            (#[trigger] self@[j]).name,
                        ) implies (exists|k: int|
                        0 <= k < out@.len() && (#[trigger] out@[k])@ == self@[j].name) by {
                        if j < i {
                            let k = choose|k: int|
                                0 <= k < old_out.len() && (#[trigger] old_out[k])@
                                    == self@[j].name;
                            assert(out@[k]@ == self@[j].name);
                        } else {
                            assert(out@[old_out.len() as int]@ == self@[j].name);
                        }
                    }
                }
            } else {
                proof {
                    lemma_env_member_found(self@, i as int);
                    assert(!listed(self@, self@[i as int].name));
                }
            }
            i += 1;
        }
        out
    }
}

/// In a registry whose earlier entries bear other names, an entry is what
/// lookup finds for its own name; in particular, with distinct names, entry
/// `i` is found for `ev[i].name`.
proof fn lemma_env_member_found(ev: Seq<EnvView>, i: int)
    requires
        0 <= i < ev.len(),
        forall|a: int, b: int| 0 <= a < b < ev.len() ==> ev[a].name != ev[b].name,
    ensures
        find_env(ev, ev[i].name) == Some(ev[i]),
{
    lemma_find_env_skip(ev, ev[i].name, i);
    assert(ev.skip(i)[0] == ev[i]);
}

/// Lookup ignores entries that two registries disagree on only where the
/// name differs from the one looked up.
proof fn lemma_find_env_agree(a: Seq<EnvView>, b: Seq<EnvView>, n: Seq<char>)
    requires
        a.len() == b.len(),
        forall|k: int| 0 <= k < a.len() ==> (#[trigger] a[k]).name == b[k].name,
        forall|k: int| 0 <= k < a.len() && (#[trigger] a[k]).name == n ==> a[k] == b[k],
    ensures
        find_env(a, n) == find_env(b, n),
    decreases a.len(),
{
    if a.len() > 0 {
        if a[0].name != n {
            lemma_find_env_agree(a.drop_first(), b.drop_first(), n);
            assert(forall|k: int|
                0 <= k < a.drop_first().len() ==> a.drop_first()[k] == a[k + 1] && b.drop_first()[k]
                    == b[k + 1]);
        }
    }
}

/// With no entry under the name, lookup finds nothing.
proof fn lemma_find_env_absent(ev: Seq<EnvView>, n: Seq<char>)
    requires
        forall|k: int| 0 <= k < ev.len() ==> (#[trigger] ev[k]).name != n,
    ensures
        find_env(ev, n) is None,
{
    lemma_find_env_skip(ev, n, ev.len() as int);
    assert(ev.skip(ev.len() as int) =~= Seq::<EnvView>::empty());
}

/// How lookup behaves on an appended entry.
proof fn lemma_find_env_push(ev: Seq<EnvView>, x: EnvView, n: Seq<char>)
    ensures
        find_env(ev.push(x), n) == match find_env(ev, n) {
            Some(e) => Some(e),
            None => if x.name == n {
                Some(x)
            } else {
                None
            },
        },
    decreases ev.len(),
{
    if ev.len() == 0 {
        assert(ev.push(x)[0] == x);
        assert(ev.push(x).drop_first() =~= Seq::<EnvView>::empty());
        assert(find_env(Seq::<EnvView>::empty(), n) is None);
        assert(find_env(ev, n) is None);
    } else {
        assert(ev.push(x)[0] == ev[0]);
        if ev[0].name != n {
            lemma_find_env_push(ev.drop_first(), x, n);
            assert(ev.push(x).drop_first() =~= ev.drop_first().push(x));
        } else {
            assert(find_env(ev.push(x), n) == Some(ev[0]));
            assert(find_env(ev, n) == Some(ev[0]));
        }
    }
}

/// How lookup behaves after an entry is removed, when names are distinct.
proof fn lemma_find_env_remove(ev: Seq<EnvView>, i: int, n: Seq<char>)
    requires
        0 <= i < ev.len(),
        forall|a: int, b: int| 0 <= a < b < ev.len() ==> ev[a].name != ev[b].name,
    ensures
        find_env(ev.remove(i), n) == if ev[i].name == n {
            None
        } else {
            find_env(ev, n)
        },
    decreases i,
{
    if i == 0 {
        assert(ev.remove(0) =~= ev.drop_first());
        if ev[0].name == n {
            assert forall|k: int| 0 <= k < ev.drop_first().len() implies (
            #[trigger] ev.drop_first()[k]).name != n by {
                assert(ev.drop_first()[k] == ev[k + 1]);
            }
            lemma_find_env_absent(ev.drop_first(), n);
        }
    } else {
        assert(ev.remove(i)[0] == ev[0]);
        if ev[0].name != n {
            lemma_find_env_remove(ev.drop_first(), i - 1, n);
            assert(ev.remove(i).drop_first() =~= ev.drop_first().remove(i - 1));
            assert(forall|a: int, b: int|
                0 <= a < b < ev.drop_first().len() ==> (#[trigger] ev.drop_first()[a]).name != (
                #[trigger] ev.drop_first()[b]).name);
        } else {
            assert(find_env(ev.remove(i), n) == Some(ev[0]));
        }
    }
}

impl EnvRegistry {
    /// Replaces the entry at a position.
    fn set_entry(&mut self, i: usize, e: EnvState)
        requires
            i < old(self)@.len(),
        ensures
            final(self)@ =~= old(self)@.update(i as int, e@),
    {
        let ghost before = self.envs@;
        let _ = self.envs.remove(i);
        self.envs.insert(i, e);
        proof {
            assert forall|k: int| 0 <= k < self@.len() implies self@[k] == old(self)@.update(
                i as int,
                e@,
            )[k] by {
                if k < i as int {
                    assert(self.envs@[k] == before.remove(i as int)[k]);
                    assert(before.remove(i as int)[k] == before[k]);
                } else if k > i as int {
                    assert(self.envs@[k] == before.remove(i as int)[k - 1]);
                    assert(before.remove(i as int)[k - 1] == before[k]);
                }
            }
        }
    }

    /// Allocates storage for a brand-new environment and runs its init.
    ///
    /// Rejected unless nothing existed under the name. Both storage areas
    /// are allocated before the init script runs, so afterwards the
    /// environment fully exists even when the script failed.
    pub fn create(&mut self, name: &EnvironmentName, init: &Init) -> (r: Result<(), Error>)
        requires
            envs_wf(old(self)@),
            name.wf(),
        ensures
            envs_wf(final(self)@),
            exists_of(old(self)@, name@) != EnvironmentExists::NoEnvironment ==> final(self)@
                == old(self)@ && (r matches Err(e) && e.kind == ErrorKind::InconsistentState),
            exists_of(old(self)@, name@) == EnvironmentExists::NoEnvironment ==> {
                &&& exists_of(final(self)@, name@) == EnvironmentExists::FullyExists
                &&& find_env(final(self)@, name@) matches Some(v) && v == (EnvView {
                    name: name@,
                    has_home: true,
                    has_work: true,
                    has_instance: false,
                    has_provides: init.script_succeeds,
                    packages_txt: match init.packages_txt {
                        Some(ref s) => Some(s@),
                        None => None,
                    },
                })
                &&& forall|n: Seq<char>|
                    n != name@ ==> find_env(final(self)@, n) == find_env(old(self)@, n)
                &&& r is Ok <==> init.script_succeeds
                &&& r matches Err(e) ==> e.kind == ErrorKind::Subprocess
            },
    {
        let pre = self.exists_state(name);
        if !matches!(pre, EnvironmentExists::NoEnvironment) {
            return Err(
                Error::new(
                    ErrorKind::InconsistentState,
                    concat2("environment already exists: ", name.as_str()),
                ),
            );
        }
        let entry = EnvState {
            name: name.clone(),
            has_home: true,
            has_work: true,
            has_instance: false,
            has_provides: init.script_succeeds,
            packages_txt: match &init.packages_txt {
                Some(s) => Some(s.clone()),
                None => None,
            },
        };
        let ghost entry_v = entry@;
        let ghost before = self@;
        match self.index_of(name) {
            Some(i) => {
                let ghost old_entry = self@[i as int];
                self.set_entry(i, entry);
                proof {
                    assert(state_of(old_entry) == EnvironmentExists::NoEnvironment);
                    assert(old_entry.name == name@);
                    lemma_find_env_skip(self@, name@, i as int);
                    assert forall|k: int| 0 <= k < i implies (#[trigger] self@[k]).name
                        != name@ by {
                        assert(before[k].name == self@[k].name);
                    }
                    assert(self@.skip(i as int)[0] == entry_v);
                    assert forall|n: Seq<char>| n != name@ implies find_env(self@, n) == find_env(
                        before,
                        n,
                    ) by {
                        lemma_find_env_agree(before, self@, n);
                    }
                    assert(envs_wf(self@));
                }
            },
            None => {
                self.envs.push(entry);
                proof {
                    assert(self@ =~= before.push(entry_v));
                    lemma_find_env_push(before, entry_v, name@);
                    assert forall|n: Seq<char>| n != name@ implies find_env(self@, n) == find_env(
                        before,
                        n,
                    ) by {
                        lemma_find_env_push(before, entry_v, n);
                    }
                    assert(envs_wf(self@)) by {
                        assert forall|a: int, b: int| 0 <= a < b < self@.len() implies (
                        #[trigger] self@[a]).name != (#[trigger] self@[b]).name by {
                            if b == before.len() {
                                if self@[a].name == name@ {
                                    lemma_env_member_found(before, a);
                                }
                            }
                        }
                    }
                }
            },
        }
        if init.script_succeeds {
            Ok(())
        } else {
            Err(
                Error::new(
                    ErrorKind::Subprocess,
                    concat2("init script failed in environment ", name.as_str()),
                ),
            )
        }
    }

    /// Stops any live instance, clears the home area, and re-runs init.
    ///
    /// Rejected when nothing exists under the name. The work area survives;
    /// its package list changes only when the init carries a new one.
    pub fn reset(&mut self, name: &EnvironmentName, init: &Init) -> (r: Result<(), Error>)
        requires
            envs_wf(old(self)@),
        ensures
            envs_wf(final(self)@),
            exists_of(old(self)@, name@) == EnvironmentExists::NoEnvironment ==> final(self)@
                == old(self)@ && (r matches Err(e) && e.kind == ErrorKind::MissingObject),
            exists_of(old(self)@, name@) != EnvironmentExists::NoEnvironment ==> {
                &&& exists_of(final(self)@, name@) == EnvironmentExists::FullyExists
                &&& find_env(final(self)@, name@) matches Some(v) && v == (EnvView {
                    name: name@,
                    has_home: true,
                    has_work: true,
                    has_instance: false,
                    has_provides: init.script_succeeds,
                    packages_txt: match init.packages_txt {
                        Some(ref s) => Some(s@),
                        None => find_env(old(self)@, name@)->Some_0.packages_txt,
                    },
                })
                &&& forall|n: Seq<char>|
                    n != name@ ==> find_env(final(self)@, n) == find_env(old(self)@, n)
                &&& r is Ok <==> init.script_succeeds
                &&& r matches Err(e) ==> e.kind == ErrorKind::Subprocess
            },
    {
        let ghost before = self@;
        match self.index_of(name) {
            None => Err(
                Error::new(
                    ErrorKind::MissingObject,
                    concat2("environment does not exist: ", name.as_str()),
                ),
            ),
            Some(i) => {
                let old_state = &self.envs[i];
                if !old_state.has_home && !old_state.has_work && !old_state.has_instance {
                    return Err(
                        Error::new(
                            ErrorKind::MissingObject,
                            concat2("environment does not exist: ", name.as_str()),
                        ),
                    );
                }
                let packages_txt = match &init.packages_txt {
                    Some(s) => Some(s.clone()),
                    None => match &old_state.packages_txt {
                        Some(s) => Some(s.clone()),
                        None => None,
                    },
                };
                let entry = EnvState {
                    name: self.envs[i].name.clone(),
                    has_home: true,
                    has_work: true,
                    has_instance: false,
                    has_provides: init.script_succeeds,
                    packages_txt,
                };
                let ghost entry_v = entry@;
                self.set_entry(i, entry);
                proof {
                    assert(entry_v.name == name@);
                    lemma_find_env_skip(self@, name@, i as int);
                    assert forall|k: int| 0 <= k < i implies (#[trigger] self@[k]).name
                        != name@ by {
                        assert(before[k].name == self@[k].name);
                        assert(before[i as int].name == name@);
                    }
                    assert(self@.skip(i as int)[0] == entry_v);
                    assert(find_env(self@, name@) == Some(entry_v));
                    assert forall|n: Seq<char>| n != name@ implies find_env(self@, n) == find_env(
                        before,
                        n,
                    ) by {
                        lemma_find_env_agree(before, self@, n);
                    }
                    assert(envs_wf(self@));
                    assert(find_env(before, name@) == Some(before[i as int])) by {
                        lemma_env_member_found(before, i as int);
                    }
                }
                if init.script_succeeds {
                    Ok(())
                } else {
                    Err(
                        Error::new(
                            ErrorKind::Subprocess,
                            concat2("init script failed in environment ", name.as_str()),
                        ),
                    )
                }
            },
        }
    }

    /// Terminates any live instance; idempotent.
    pub fn stop(&mut self, name: &EnvironmentName) -> (r: Result<(), Error>)
        requires
            envs_wf(old(self)@),
        ensures
            envs_wf(final(self)@),
            r is Ok,
            !has_live_instance(final(self)@, name@),
            forall|n: Seq<char>|
                n != name@ ==> find_env(final(self)@, n) == find_env(old(self)@, n),
            match (find_env(old(self)@, name@), find_env(final(self)@, name@)) {
                (Some(b), Some(a)) => a == (EnvView { has_instance: false, ..b }),
                (None, None) => true,
                _ => false,
            },
    {
        let ghost before = self@;
        match self.index_of(name) {
            None => Ok(()),
            Some(i) => {
                let entry = EnvState {
                    name: self.envs[i].name.clone(),
                    has_home: self.envs[i].has_home,
                    has_work: self.envs[i].has_work,
                    has_instance: false,
                    has_provides: self.envs[i].has_provides,
                    packages_txt: match &self.envs[i].packages_txt {
                        Some(s) => Some(s.clone()),
                        None => None,
                    },
                };
                let ghost entry_v = entry@;
                self.set_entry(i, entry);
                proof {
                    assert(entry_v =~= (EnvView { has_instance: false, ..before[i as int] }));
                    lemma_find_env_skip(self@, name@, i as int);
                    assert forall|k: int| 0 <= k < i implies (#[trigger] self@[k]).name
                        != name@ by {
                        assert(before[k].name == self@[k].name);
                        assert(before[i as int].name == name@);
                    }
                    assert(self@.skip(i as int)[0] == entry_v);
                    assert forall|n: Seq<char>| n != name@ implies find_env(self@, n) == find_env(
                        before,
                        n,
                    ) by {
                        lemma_find_env_agree(before, self@, n);
                    }
                    assert(envs_wf(self@));
                    lemma_env_member_found(before, i as int);
                }
                Ok(())
            },
        }
    }

    /// Deletes all persistent storage and any live instance; idempotent.
    ///
    /// Afterwards the environment does not exist and listing does not report
    /// it.
    pub fn purge(&mut self, name: &EnvironmentName) -> (r: Result<(), Error>)
        requires
            envs_wf(old(self)@),
        ensures
            envs_wf(final(self)@),
            r is Ok,
            exists_of(final(self)@, name@) == EnvironmentExists::NoEnvironment,
            !listed(final(self)@, name@),
            forall|n: Seq<char>|
                n != name@ ==> find_env(final(self)@, n) == find_env(old(self)@, n),
    {
        let ghost before = self@;
        match self.index_of(name) {
            None => Ok(()),
            Some(i) => {
                let _ = self.envs.remove(i);
                proof {
                    assert(self@ =~= before.remove(i as int));
                    lemma_find_env_remove(before, i as int, name@);
                    assert(find_env(self@, name@) is None);
                    assert forall|n: Seq<char>| n != name@ implies find_env(self@, n) == find_env(
                        before,
                        n,
                    ) by {
                        lemma_find_env_remove(before, i as int, n);
                    }
                    assert(envs_wf(self@)) by {
                        assert forall|a: int, b: int| 0 <= a < b < self@.len() implies (
                        #[trigger] self@[a]).name != (#[trigger] self@[b]).name by {
                            let a2 = if a < i as int {
                                a
                            } else {
                                a + 1
                            };
                            let b2 = if b < i as int {
                                b
                            } else {
                                b + 1
                            };
                            assert(self@[a] == before[a2] && self@[b] == before[b2]);
                        }
                    }
                }
                Ok(())
            },
        }
    }

    /// Runs a command inside the environment.
    ///
    /// Rejected unless the environment fully exists. An init command streams
    /// its seeds into the environment and runs the init script; the script's
    /// outcome decides the result. An exec command's outcome likewise comes
    /// from outside.
    pub fn run(&mut self, name: &EnvironmentName, command: &RunnerCommand) -> (r: Result<(), Error>)
        requires
            envs_wf(old(self)@),
        ensures
            envs_wf(final(self)@),
            exists_of(old(self)@, name@) != EnvironmentExists::FullyExists ==> final(self)@ == old(
                self,
            )@ && (r matches Err(e) && (e.kind == ErrorKind::MissingObject || e.kind
                == ErrorKind::InconsistentState)),
            exists_of(old(self)@, name@) == EnvironmentExists::FullyExists ==> {
                &&& forall|n: Seq<char>|
                    n != name@ ==> find_env(final(self)@, n) == find_env(old(self)@, n)
                &&& exists_of(final(self)@, name@) == EnvironmentExists::FullyExists
                &&& match *command {
                    RunnerCommand::Interactive => r is Ok && final(self)@ == old(self)@,
                    RunnerCommand::Exec(_, ok) => (r is Ok <==> ok) && final(self)@ == old(self)@,
                    RunnerCommand::Init(ref init) => {
                        &&& (r is Ok <==> init.script_succeeds)
                        &&& find_env(final(self)@, name@) matches Some(v) && v == (EnvView {
                            has_provides: init.script_succeeds,
                            packages_txt: match init.packages_txt {
                                Some(ref s) => Some(s@),
                                None => find_env(old(self)@, name@)->Some_0.packages_txt,
                            },
                            ..find_env(old(self)@, name@)->Some_0
                        })
                    },
                }
                &&& r matches Err(e) ==> e.kind == ErrorKind::Subprocess
            },
    {
        let pre = self.exists_state(name);
        match pre {
            EnvironmentExists::NoEnvironment => {
                return Err(
                    Error::new(
                        ErrorKind::MissingObject,
                        concat2("environment does not exist: ", name.as_str()),
                    ),
                );
            },
            EnvironmentExists::PartiallyExists => {
                return Err(
                    Error::new(
                        ErrorKind::InconsistentState,
                        concat2("environment is in a broken state: ", name.as_str()),
                    ),
                );
            },
            EnvironmentExists::FullyExists => {},
        }
        match command {
            RunnerCommand::Interactive => Ok(()),
            RunnerCommand::Exec(_, ok) => {
                if *ok {
                    Ok(())
                } else {
                    Err(
                        Error::new(
                            ErrorKind::Subprocess,
                            concat2("command failed in environment ", name.as_str()),
                        ),
                    )
                }
            },
            RunnerCommand::Init(init) => {
                let ghost before = self@;
                match self.index_of(name) {
                    None => {
                        proof {
                            assert(false);
                        }
                        Err(
                            Error::new(
                                ErrorKind::MissingObject,
                                concat2("environment does not exist: ", name.as_str()),
                            ),
                        )
                    },
                    Some(i) => {
                        let packages_txt = match &init.packages_txt {
                            Some(s) => Some(s.clone()),
                            None => match &self.envs[i].packages_txt {
                                Some(s) => Some(s.clone()),
                                None => None,
                            },
                        };
                        let entry = EnvState {
                            name: self.envs[i].name.clone(),
                            has_home: self.envs[i].has_home,
                            has_work: self.envs[i].has_work,
                            has_instance: self.envs[i].has_instance,
                            has_provides: init.script_succeeds,
                            packages_txt,
                        };
                        let ghost entry_v = entry@;
                        self.set_entry(i, entry);
                        proof {
                            lemma_env_member_found(before, i as int);
                            assert(entry_v =~= (EnvView {
                                has_provides: init.script_succeeds,
                                packages_txt: match init.packages_txt {
                                    Some(ref s) => Some(s@),
                                    None => before[i as int].packages_txt,
                                },
                                ..before[i as int]
                            }));
                            lemma_find_env_skip(self@, name@, i as int);
                            assert forall|k: int| 0 <= k < i implies (#[trigger] self@[k]).name
                                != name@ by {
                                assert(before[k].name == self@[k].name);
                                assert(before[i as int].name == name@);
                            }
                            assert(self@.skip(i as int)[0] == entry_v);
                            assert forall|n: Seq<char>| n != name@ implies find_env(self@, n)
                                == find_env(before, n) by {
                                lemma_find_env_agree(before, self@, n);
                            }
                            assert(envs_wf(self@));
                        }
                        if init.script_succeeds {
                            Ok(())
                        } else {
                            Err(
                                Error::new(
                                    ErrorKind::Subprocess,
                                    concat2("init script failed in environment ", name.as_str()),
                                ),
                            )
                        }
                    },
                }
            },
        }
    }

    /// Streams one file out of the environment's home area.
    ///
    /// The model tracks only the build artifact `provides.tar`; the call
    /// succeeds exactly when that file is asked for and present.
    pub fn copy_out_from_home(&self, name: &EnvironmentName, path: &str) -> (r: Result<(), Error>)
        ensures
            r is Ok <==> (path@ == "provides.tar"@ && (find_env(self@, name@) matches Some(v)
                && v.has_provides)),
            r matches Err(e) ==> e.kind == ErrorKind::Io,
    {
        let found = match self.index_of(name) {
            Some(i) => self.envs[i].has_provides,
            None => false,
        };
        if found && str_equal(path, "provides.tar") {
            Ok(())
        } else {
            Err(
                Error::new(
                    ErrorKind::Io,
                    concat2("no such file in environment home: ", path),
                ),
            )
        }
    }

    /// Streams one file out of the environment's work area.
    ///
    /// The model tracks only `packages.txt`; the call returns its content
    /// exactly when that file is asked for and present, so what comes out is
    /// what the work tree holds.
    pub fn copy_out_from_work(&self, name: &EnvironmentName, path: &str) -> (r: Result<
        String,
        Error,
    >)
        ensures
            match r {
                Ok(content) => path@ == "packages.txt"@ && (find_env(self@, name@) matches Some(v)
                    && v.packages_txt == Some(content@)),
                Err(e) => e.kind == ErrorKind::Io && !(path@ == "packages.txt"@ && (find_env(
                    self@,
                    name@,
                ) matches Some(v) && v.packages_txt is Some)),
            },
    {
        if !str_equal(path, "packages.txt") {
            return Err(
                Error::new(
                    ErrorKind::Io,
                    concat2("no such file in environment work tree: ", path),
                ),
            );
        }
        match self.index_of(name) {
            Some(i) => match &self.envs[i].packages_txt {
                Some(content) => Ok(content.clone()),
                None => Err(
                    Error::new(
                        ErrorKind::Io,
                        concat2("no such file in environment work tree: ", path),
                    ),
                ),
            },
            None => Err(
                Error::new(
                    ErrorKind::Io,
                    concat2("no such file in environment work tree: ", path),
                ),
            ),
        }
    }
}

} // verus!
