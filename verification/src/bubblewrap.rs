//! The namespace-sandbox backend's logic: its per-environment storage
//! paths, its existence decision, listing, and the strings it hands to the
//! sandbox tool.
//!
//! The sandbox tool itself runs outside this library; what stands here is
//! what the backend computes: where an environment's home and work trees
//! live on the host, how the presence of those trees maps to the lifecycle
//! tri-state, which environments a pair of directory listings shows, the
//! hostname and `PATH` the sandbox receives, and the shell invocation for
//! each command kind.

use vstd::prelude::*;
use crate::EnvironmentExists;
use crate::error::{Error, ErrorKind};
use crate::names::EnvironmentName;
use crate::paths::HostPath;
use crate::shell::{shell_join, shell_joined_of};
use crate::text::{concat2, concat3};

verus! {

/// The namespace-sandbox backend: where environment storage lives.
#[derive(Debug)]
pub struct Bubblewrap {
    /// The directory holding every environment's home tree.
    pub home_dirs: HostPath,
    /// The directory holding every environment's work tree.
    pub work_dirs: HostPath,
}

impl Bubblewrap {
    /// Creates the backend's state from the cache and data directories it
    /// was handed: homes under `<cache>/cubicle/home`, work trees under
    /// `<data>/cubicle/work`.
    pub fn new(xdg_cache_home: &HostPath, xdg_data_home: &HostPath) -> (r: Bubblewrap)
        ensures
            r.home_dirs@ == crate::paths::joined_path_of(
                crate::paths::joined_path_of(xdg_cache_home@, "cubicle"@),
                "home"@,
            ),
            r.work_dirs@ == crate::paths::joined_path_of(
                crate::paths::joined_path_of(xdg_data_home@, "cubicle"@),
                "work"@,
            ),
    {
        Bubblewrap {
            home_dirs: xdg_cache_home.join("cubicle").join("home"),
            work_dirs: xdg_data_home.join("cubicle").join("work"),
        }
    }

    /// The host path of an environment's home tree.
    pub fn host_home(&self, env: &EnvironmentName) -> (r: HostPath)
        ensures
            r@ == crate::paths::joined_path_of(self.home_dirs@, env@),
    {
        self.home_dirs.join(env.as_str())
    }

    /// The host path of an environment's work tree.
    pub fn host_work(&self, env: &EnvironmentName) -> (r: HostPath)
        ensures
            r@ == crate::paths::joined_path_of(self.work_dirs@, env@),
    {
        self.work_dirs.join(env.as_str())
    }

    /// How the presence of the two storage trees maps to the lifecycle
    /// tri-state: both present means fully exists, one means partially,
    /// neither means no environment (this backend keeps no live instance).
    pub fn exists_from_storage(&self, has_home_dir: bool, has_work_dir: bool) -> (r:
        EnvironmentExists)
        ensures
            r == if has_home_dir && has_work_dir {
                EnvironmentExists::FullyExists
            } else if has_home_dir || has_work_dir {
                EnvironmentExists::PartiallyExists
            } else {
                EnvironmentExists::NoEnvironment
            },
    {
        if has_home_dir && has_work_dir {
            EnvironmentExists::FullyExists
        } else if has_home_dir || has_work_dir {
            EnvironmentExists::PartiallyExists
        } else {
            EnvironmentExists::NoEnvironment
        }
    }

    /// The environments two directory listings (homes and work trees) show:
    /// every entry's trimmed name, each once.
    ///
    /// A directory entry that is not a valid environment name is an error:
    /// this backend's storage directories hold nothing else.
    pub fn environments_from_listings(&self, home_entries: &Vec<String>, work_entries: &Vec<
        String,
    >) -> (r: Result<Vec<EnvironmentName>, Error>)
        ensures
            r is Ok <==> ((forall|k: int|
                0 <= k < home_entries@.len() ==> crate::names::valid_name(
                    crate::text::trim_of((#[trigger] home_entries@[k])@),
                )) && (forall|k: int|
                0 <= k < work_entries@.len() ==> crate::names::valid_name(
                    crate::text::trim_of((#[trigger] work_entries@[k])@),
                ))),
            r matches Ok(envs) ==> {
                &&& crate::names::env_views_of(envs@).no_duplicates()
                &&& forall|k: int| 0 <= k < envs@.len() ==> (#[trigger] envs@[k]).wf()
                &&& forall|q: Seq<char>| #[trigger]
                    crate::names::env_views_of(envs@).contains(q) <==> ((exists|k: int|
                        0 <= k < home_entries@.len() && crate::text::trim_of(
                            (#[trigger] home_entries@[k])@,
                        ) == q) || (exists|k: int|
                        0 <= k < work_entries@.len() && crate::text::trim_of(
                            (#[trigger] work_entries@[k])@,
                        ) == q))
            },
            r matches Err(e) ==> e.kind == ErrorKind::InvalidInput,
    {
        let mut out: Vec<EnvironmentName> = Vec::new();
        let mut i: usize = 0;
        while i < home_entries.len()
            invariant
                i <= home_entries@.len(),
                crate::names::env_views_of(out@).no_duplicates(),
                forall|k: int| 0 <= k < out@.len() ==> (#[trigger] out@[k]).wf(),
                forall|k: int|
                    0 <= k < i ==> crate::names::valid_name(
                        crate::text::trim_of((#[trigger] home_entries@[k])@),
                    ),
                forall|q: Seq<char>| #[trigger]
                    crate::names::env_views_of(out@).contains(q) <==> (exists|k: int|
                        0 <= k < i && crate::text::trim_of((#[trigger] home_entries@[k])@) == q),
            decreases home_entries@.len() - i,
        {
            match EnvironmentName::from_str(home_entries[i].as_str()) {
                Ok(env) => {
                    let ghost old_views = crate::names::env_views_of(out@);
                    crate::sets::insert_env_name(&mut out, env);
                    proof {
                        lemma_insert_views(old_views, crate::names::env_views_of(out@), env@);
                        assert forall|k: int|
                            0 <= k < out@.len() implies (#[trigger] out@[k]).wf() by {}
                        assert forall|q: Seq<char>| #[trigger]
                            crate::names::env_views_of(out@).contains(q) implies (exists|k: int|
                            0 <= k < i + 1 && crate::text::trim_of(
                                (#[trigger] home_entries@[k])@,
                            ) == q) by {
                            if old_views.contains(q) {
                                let k = choose|k: int|
                                    0 <= k < i && crate::text::trim_of(
                                        (#[trigger] home_entries@[k])@,
                                    ) == q;
                            } else {
                                assert(q == crate::text::trim_of(home_entries@[i as int]@));
                            }
                        }
                        assert forall|q: Seq<char>|
                            (exists|k: int|
                                0 <= k < i + 1 && crate::text::trim_of(
                                    (#[trigger] home_entries@[k])@,
                                ) == q) implies #[trigger] crate::names::env_views_of(
                            out@,
                        ).contains(q) by {
                            let k = choose|k: int|
                                0 <= k < i + 1 && crate::text::trim_of(
                                    (#[trigger] home_entries@[k])@,
                                ) == q;
                            if k < i {
                                assert(old_views.contains(q));
                            } else {
                                assert(crate::names::env_views_of(out@).contains(env@));
                            }
                        }
                    }
                },
                Err(e) => {
                    return Err(e);
                },
            }
            i += 1;
        }
        let mut j: usize = 0;
        while j < work_entries.len()
            invariant
                j <= work_entries@.len(),
                crate::names::env_views_of(out@).no_duplicates(),
                forall|k: int| 0 <= k < out@.len() ==> (#[trigger] out@[k]).wf(),
                forall|k: int|
                    0 <= k < home_entries@.len() ==> crate::names::valid_name(
                        crate::text::trim_of((#[trigger] home_entries@[k])@),
                    ),
                forall|k: int|
                    0 <= k < j ==> crate::names::valid_name(
                        crate::text::trim_of((#[trigger] work_entries@[k])@),
                    ),
                forall|q: Seq<char>| #[trigger]
                    crate::names::env_views_of(out@).contains(q) <==> ((exists|k: int|
                        0 <= k < home_entries@.len() && crate::text::trim_of(
                            (#[trigger] home_entries@[k])@,
                        ) == q) || (exists|k: int|
                        0 <= k < j && crate::text::trim_of((#[trigger] work_entries@[k])@)
                            == q)),
            decreases work_entries@.len() - j,
        {
            match EnvironmentName::from_str(work_entries[j].as_str()) {
                Ok(env) => {
                    let ghost old_views = crate::names::env_views_of(out@);
                    crate::sets::insert_env_name(&mut out, env);
                    proof {
                        lemma_insert_views(old_views, crate::names::env_views_of(out@), env@);
                        assert forall|k: int|
                            0 <= k < out@.len() implies (#[trigger] out@[k]).wf() by {}
                        assert forall|q: Seq<char>| #[trigger]
                            crate::names::env_views_of(out@).contains(q) implies ((exists|k: int|
                            0 <= k < home_entries@.len() && crate::text::trim_of(
                                (#[trigger] home_entries@[k])@,
                            ) == q) || (exists|k: int|
                            0 <= k < j + 1 && crate::text::trim_of(
                                (#[trigger] work_entries@[k])@,
                            ) == q)) by {
                            if !old_views.contains(q) {
                                assert(q == crate::text::trim_of(work_entries@[j as int]@));
                            }
                        }
                        assert forall|q: Seq<char>|
                            ((exists|k: int|
                                0 <= k < home_entries@.len() && crate::text::trim_of(
                                    (#[trigger] home_entries@[k])@,
                                ) == q) || (exists|k: int|
                                0 <= k < j + 1 && crate::text::trim_of(
                                    (#[trigger] work_entries@[k])@,
                                ) == q)) implies #[trigger] crate::names::env_views_of(
                            out@,
                        ).contains(q) by {
                            if exists|k: int|
                                0 <= k < j + 1 && crate::text::trim_of(
                                    (#[trigger] work_entries@[k])@,
                                ) == q {
                                let k = choose|k: int|
                                    0 <= k < j + 1 && crate::text::trim_of(
                                        (#[trigger] work_entries@[k])@,
                                    ) == q;
                                if k < j {
                                    assert(old_views.contains(q));
                                } else {
                                    assert(crate::names::env_views_of(out@).contains(env@));
                                }
                            } else {
                                assert(old_views.contains(q));
                            }
                        }
                    }
                },
                Err(e) => {
                    return Err(e);
                },
            }
            j += 1;
        }
        Ok(out)
    }

    /// The hostname the sandbox receives: the environment's name, qualified
    /// by the host's name when one is known.
    pub fn sandbox_hostname(&self, env: &EnvironmentName, host: Option<&String>) -> (r: String)
        ensures
            r@ == match host {
                Some(h) => env@ + "."@ + h@,
                None => env@,
            },
    {
        match host {
            Some(h) => concat3(env.as_str(), ".", h.as_str()),
            None => String::from_str(env.as_str()),
        }
    }

    /// The `PATH` value inside the sandbox: the user's own `bin` first, then
    /// the standard directories.
    pub fn sandbox_path_value(&self, home: &HostPath) -> (r: String)
        ensures
            r@ == home@ + "/bin:/bin:/usr/bin:/sbin:/usr/sbin"@,
    {
        concat2(home.as_str(), "/bin:/bin:/usr/bin:/sbin:/usr/sbin")
    }

    /// The three arguments of one tolerant read-only bind: the flag, then
    /// the path as source and target.
    pub fn ro_bind_try(&self, path: &str) -> (r: Vec<String>)
        ensures
            r@.len() == 3,
            r@[0]@ == "--ro-bind-try"@,
            r@[1]@ == path@,
            r@[2]@ == path@,
    {
        let mut out: Vec<String> = Vec::new();
        out.push(String::from_str("--ro-bind-try"));
        out.push(String::from_str(path));
        out.push(String::from_str(path));
        out
    }

    /// The arguments following the login shell: nothing for an interactive
    /// session, the init script's in-sandbox path for an init run, and the
    /// joined (shell-quoted) command line for a plain execution.
    pub fn shell_command_args(&self, command: &Vec<String>, init: bool, interactive: bool) -> (r:
        Result<Vec<String>, Error>)
        ensures
            r is Ok <==> (interactive || init || (forall|k: int|
                0 <= k < command@.len() ==> !(#[trigger] command@[k])@.contains('\0'))),
            r matches Ok(args) ==> {
                if interactive {
                    args@.len() == 0
                } else if init {
                    args@.len() == 2 && args@[0]@ == "-c"@ && args@[1]@ == "/cubicle-init.sh"@
                } else {
                    args@.len() == 2 && args@[0]@ == "-c"@ && args@[1]@ == shell_joined_of(
                        crate::sets::strs_of(command@),
                    )
                }
            },
    {
        let mut out: Vec<String> = Vec::new();
        if interactive {
            return Ok(out);
        }
        out.push(String::from_str("-c"));
        if init {
            out.push(String::from_str("/cubicle-init.sh"));
        } else {
            let joined = match shell_join(command) {
                Ok(j) => j,
                Err(e) => {
                    return Err(e);
                },
            };
            out.push(joined);
        }
        Ok(out)
    }
}

/// Inserting into a duplicate-free list of names keeps it duplicate-free,
/// and afterwards it holds exactly the old names plus the inserted one.
proof fn lemma_insert_views(old_views: Seq<Seq<char>>, new_views: Seq<Seq<char>>, x: Seq<char>)
    requires
        old_views.no_duplicates(),
        new_views == if old_views.contains(x) {
            old_views
        } else {
            old_views.push(x)
        },
    ensures
        new_views.no_duplicates(),
        forall|q: Seq<char>| #[trigger] new_views.contains(q) <==> (old_views.contains(q) || q
            == x),
{
    if old_views.contains(x) {
        assert forall|q: Seq<char>| old_views.contains(q) || q == x implies #[trigger]
            new_views.contains(q) by {}
    } else {
        assert forall|a: int, b: int| 0 <= a < b < new_views.len() implies new_views[a]
            != new_views[b] by {
            if b == old_views.len() {
                assert(new_views[b] == x);
                assert(new_views[a] == old_views[a]);
                assert(old_views.contains(old_views[a]));
            }
        }
        assert forall|q: Seq<char>| #[trigger]
            new_views.contains(q) implies (old_views.contains(q) || q == x) by {
            let k = choose|k: int| 0 <= k < new_views.len() && new_views[k] == q;
            if k < old_views.len() {
                assert(old_views[k] == q);
            }
        }
        assert forall|q: Seq<char>|
            (old_views.contains(q) || q == x) implies #[trigger] new_views.contains(q) by {
            if old_views.contains(q) {
                let k = choose|k: int| 0 <= k < old_views.len() && old_views[k] == q;
                assert(new_views[k] == q);
            } else {
                assert(new_views[old_views.len() as int] == q);
            }
        }
    }
}

/// The complete argument list handed to the sandbox tool: drop with the
/// parent, fresh namespaces, the hostname, the standard symlinks and
/// tolerated read-only binds, the environment's home and work trees bound
/// over the apparent home, the optional init-script bind, seed-stream and
/// seccomp file descriptors, and finally the login shell with its command
/// tail.
pub open spec fn bwrap_args_of(
    hostname: Seq<char>,
    script_bind: Option<Seq<char>>,
    seed_fd: Option<u64>,
    seccomp_fd: Option<u64>,
    host_home: Seq<char>,
    host_work: Seq<char>,
    env_home: Seq<char>,
    shell: Seq<char>,
    tail: Seq<Seq<char>>,
) -> Seq<Seq<char>> {
    seq![
        "--die-with-parent"@,
        "--unshare-cgroup"@,
        "--unshare-ipc"@,
        "--unshare-pid"@,
        "--unshare-uts"@,
        "--hostname"@,
        hostname,
        "--symlink"@,
        "/usr/bin"@,
        "/bin"@,
        "--dev"@,
        "/dev"@,
    ] + (match script_bind {
        Some(script) => seq!["--ro-bind-try"@, script, "/cubicle-init.sh"@],
        None => Seq::<Seq<char>>::empty(),
    }) + (match seed_fd {
        Some(fd) => seq!["--file"@, crate::text::dec_str_of(fd), "/dev/shm/seed.tar"@],
        None => Seq::<Seq<char>>::empty(),
    }) + seq![
        "--ro-bind-try"@,
        "/etc"@,
        "/etc"@,
        "--bind"@,
        host_home,
        env_home,
        "--bind"@,
        host_work,
        crate::paths::joined_path_of(env_home, "w"@),
        "--symlink"@,
        "/usr/lib"@,
        "/lib"@,
        "--symlink"@,
        "/usr/lib64"@,
        "/lib64"@,
        "--ro-bind-try"@,
        "/opt"@,
        "/opt"@,
        "--proc"@,
        "/proc"@,
        "--symlink"@,
        "/usr/sbin"@,
        "/sbin"@,
        "--tmpfs"@,
        "/tmp"@,
        "--ro-bind-try"@,
        "/usr"@,
        "/usr"@,
        "--ro-bind-try"@,
        "/var/lib/apt/lists"@,
        "/var/lib/apt/lists"@,
        "--ro-bind-try"@,
        "/var/lib/dpkg"@,
        "/var/lib/dpkg"@,
    ] + (match seccomp_fd {
        Some(fd) => seq!["--seccomp"@, crate::text::dec_str_of(fd)],
        None => Seq::<Seq<char>>::empty(),
    }) + seq![
        "--chdir"@,
        crate::paths::joined_path_of(env_home, "w"@),
        "--"@,
        shell,
        "-l"@,
    ] + tail
}

impl Bubblewrap {
    /// Builds the complete sandbox argument list; see [`bwrap_args_of`].
    #[verifier::rlimit(100)]
    pub fn run_args(
        &self,
        hostname: &String,
        script_bind: Option<&HostPath>,
        seed_fd: Option<u64>,
        seccomp_fd: Option<u64>,
        host_home: &HostPath,
        host_work: &HostPath,
        env_home: &crate::paths::EnvPath,
        shell: &str,
        tail: &Vec<String>,
    ) -> (r: Vec<String>)
        ensures
            crate::sets::strs_of(r@) == bwrap_args_of(
                hostname@,
                match script_bind {
                    Some(p) => Some(p@),
                    None => None,
                },
                seed_fd,
                seccomp_fd,
                host_home@,
                host_work@,
                env_home@,
                shell@,
                crate::sets::strs_of(tail@),
            ),
    {
        let mut out: Vec<String> = Vec::new();
        out.push(String::from_str("--die-with-parent"));
        out.push(String::from_str("--unshare-cgroup"));
        out.push(String::from_str("--unshare-ipc"));
        out.push(String::from_str("--unshare-pid"));
        out.push(String::from_str("--unshare-uts"));
        out.push(String::from_str("--hostname"));
        out.push(String::from_str(hostname.as_str()));
        out.push(String::from_str("--symlink"));
        out.push(String::from_str("/usr/bin"));
        out.push(String::from_str("/bin"));
        out.push(String::from_str("--dev"));
        out.push(String::from_str("/dev"));
        match script_bind {
            Some(script) => {
                out.push(String::from_str("--ro-bind-try"));
                out.push(String::from_str(script.as_str()));
                out.push(String::from_str("/cubicle-init.sh"));
            },
            None => {},
        }
        match seed_fd {
            Some(fd) => {
                out.push(String::from_str("--file"));
                out.push(crate::text::u64_to_string(fd));
                out.push(String::from_str("/dev/shm/seed.tar"));
            },
            None => {},
        }
        out.push(String::from_str("--ro-bind-try"));
        out.push(String::from_str("/etc"));
        out.push(String::from_str("/etc"));
        out.push(String::from_str("--bind"));
        out.push(String::from_str(host_home.as_str()));
        out.push(String::from_str(env_home.as_str()));
        out.push(String::from_str("--bind"));
        out.push(String::from_str(host_work.as_str()));
        let env_work = env_home.join("w");
        out.push(String::from_str(env_work.as_str()));
        out.push(String::from_str("--symlink"));
        out.push(String::from_str("/usr/lib"));
        out.push(String::from_str("/lib"));
        out.push(String::from_str("--symlink"));
        out.push(String::from_str("/usr/lib64"));
        out.push(String::from_str("/lib64"));
        out.push(String::from_str("--ro-bind-try"));
        out.push(String::from_str("/opt"));
        out.push(String::from_str("/opt"));
        out.push(String::from_str("--proc"));
        out.push(String::from_str("/proc"));
        out.push(String::from_str("--symlink"));
        out.push(String::from_str("/usr/sbin"));
        out.push(String::from_str("/sbin"));
        out.push(String::from_str("--tmpfs"));
        out.push(String::from_str("/tmp"));
        out.push(String::from_str("--ro-bind-try"));
        out.push(String::from_str("/usr"));
        out.push(String::from_str("/usr"));
        out.push(String::from_str("--ro-bind-try"));
        out.push(String::from_str("/var/lib/apt/lists"));
        out.push(String::from_str("/var/lib/apt/lists"));
        out.push(String::from_str("--ro-bind-try"));
        out.push(String::from_str("/var/lib/dpkg"));
        out.push(String::from_str("/var/lib/dpkg"));
        match seccomp_fd {
            Some(fd) => {
                out.push(String::from_str("--seccomp"));
                out.push(crate::text::u64_to_string(fd));
            },
            None => {},
        }
        out.push(String::from_str("--chdir"));
        out.push(String::from_str(env_work.as_str()));
        out.push(String::from_str("--"));
        out.push(String::from_str(shell));
        out.push(String::from_str("-l"));
        proof {
            assert(crate::sets::strs_of(out@) =~= bwrap_args_of(
                hostname@,
                match script_bind {
                    Some(p) => Some(p@),
                    None => None,
                },
                seed_fd,
                seccomp_fd,
                host_home@,
                host_work@,
                env_home@,
                shell@,
                Seq::<Seq<char>>::empty(),
            ) + crate::sets::strs_of(tail@).take(0));
        }
        let mut i: usize = 0;
        while i < tail.len()
            invariant
                i <= tail@.len(),
                crate::sets::strs_of(out@) == bwrap_args_of(
                    hostname@,
                    match script_bind {
                        Some(p) => Some(p@),
                        None => None,
                    },
                    seed_fd,
                    seccomp_fd,
                    host_home@,
                    host_work@,
                    env_home@,
                    shell@,
                    Seq::<Seq<char>>::empty(),
                ) + crate::sets::strs_of(tail@).take(i as int),
            decreases tail@.len() - i,
        {
            let ghost old_out = out@;
            out.push(String::from_str(tail[i].as_str()));
            proof {
                assert(crate::sets::strs_of(out@) =~= crate::sets::strs_of(old_out).push(
                    tail@[i as int]@,
                ));
                assert(crate::sets::strs_of(tail@)[i as int] == tail@[i as int]@);
                assert(bwrap_args_of(
                    hostname@,
                    match script_bind {
                        Some(p) => Some(p@),
                        None => None,
                    },
                    seed_fd,
                    seccomp_fd,
                    host_home@,
                    host_work@,
                    env_home@,
                    shell@,
                    Seq::<Seq<char>>::empty(),
                ) + crate::sets::strs_of(tail@).take(i + 1) =~= crate::sets::strs_of(old_out).push(
                    tail@[i as int]@,
                ));
            }
            i += 1;
        }
        proof {
            assert(crate::sets::strs_of(tail@).take(tail@.len() as int) =~= crate::sets::strs_of(
                tail@,
            ));
            assert(crate::sets::strs_of(out@) =~= bwrap_args_of(
                hostname@,
                match script_bind {
                    Some(p) => Some(p@),
                    None => None,
                },
                seed_fd,
                seccomp_fd,
                host_home@,
                host_work@,
                env_home@,
                shell@,
                crate::sets::strs_of(tail@),
            ));
        }
        out
    }
}

} // verus!
