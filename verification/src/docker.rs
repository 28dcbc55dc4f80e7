//! The container-engine backend's logic: container, image and volume
//! naming, output parsing, base-image freshness, and the base image's
//! build recipe.
//!
//! The engine itself runs outside this library; what stands here is every
//! name and document the backend computes — which container an environment
//! maps to, which environments a container or volume listing shows, when
//! the shared base image needs rebuilding, how the disk-usage probe's
//! output reads, and the exact text of the base image's build recipe.

use vstd::prelude::*;
use crate::error::Error;
use crate::names::EnvironmentName;
use crate::paths::EnvPath;
use crate::shell::{shell_join, shell_quote, shell_quote_of};
use crate::text::{
    concat2, concat3, dec_str_of, dec_val_of, find_char, find_char_of, parse_u64, str_equal,
    strip_prefix, strip_suffix, u64_to_string,
};

verus! {

/// How the container backend stores environments.
#[derive(Clone, Copy, Debug, PartialEq, Eq, Structural)]
pub enum Mounts {
    /// Per-environment host directories bound into the container.
    BindMounts,
    /// Named volumes managed by the engine.
    Volumes,
}

/// The container backend: its name prefix, storage mode, and timezone.
#[derive(Debug)]
pub struct Docker {
    /// The prefix containers, images and volumes carry.
    pub prefix: String,
    /// The storage mode the configuration picked.
    pub mounts: Mounts,
    /// The host's timezone name, baked into the base image.
    pub timezone: String,
    /// Whether the base image installs only the minimal package set.
    pub slim: bool,
}

impl Docker {
    /// The container an environment runs in: `<prefix><env>`.
    pub fn container_from_environment(&self, env: &EnvironmentName) -> (r: String)
        ensures
            r@ == self.prefix@ + env@,
    {
        concat2(self.prefix.as_str(), env.as_str())
    }

    /// The home volume of an environment: `<prefix><env>-home`.
    pub fn home_volume(&self, env: &EnvironmentName) -> (r: String)
        ensures
            r@ == self.prefix@ + env@ + "-home"@,
    {
        concat3(self.prefix.as_str(), env.as_str(), "-home")
    }

    /// The work volume of an environment: `<prefix><env>-work`.
    pub fn work_volume(&self, env: &EnvironmentName) -> (r: String)
        ensures
            r@ == self.prefix@ + env@ + "-work"@,
    {
        concat3(self.prefix.as_str(), env.as_str(), "-work")
    }

    /// The shared base image's name: `<prefix>cubicle-base`.
    pub fn base_image(&self) -> (r: String)
        ensures
            r@ == self.prefix@ + "cubicle-base"@,
    {
        concat2(self.prefix.as_str(), "cubicle-base")
    }

    /// The environment one line of the engine's container listing shows, if
    /// any: the name must carry the backend's prefix and the rest must be a
    /// valid environment name.
    pub fn environment_from_container_line(&self, line: &str) -> (r: Option<EnvironmentName>)
        ensures
            r is Some <==> (line@.len() >= self.prefix@.len() && line@.take(
                self.prefix@.len() as int,
            ) == self.prefix@ && crate::names::valid_name(
                crate::text::trim_of(line@.skip(self.prefix@.len() as int)),
            )),
            r matches Some(env) ==> env.wf() && env@ == crate::text::trim_of(
                line@.skip(self.prefix@.len() as int),
            ),
    {
        match strip_prefix(line, self.prefix.as_str()) {
            Some(rest) => match EnvironmentName::from_str(rest) {
                Ok(env) => Some(env),
                Err(_) => None,
            },
            None => None,
        }
    }

    /// The environment one line of the engine's volume listing shows, if
    /// any: the name must carry the backend's prefix and end in `-home` or
    /// `-work`, and what stands between must be a valid environment name.
    pub fn environment_from_volume_line(&self, line: &str) -> (r: Option<EnvironmentName>)
        ensures
            ({
                let plen = self.prefix@.len() as int;
                let rest = line@.skip(plen);
                let stem = rest.take(rest.len() - 5);
                &&& (r is Some <==> (line@.len() >= plen && line@.take(plen) == self.prefix@
                    && rest.len() >= 5 && (rest.skip(rest.len() - 5) == "-home"@ || rest.skip(
                    rest.len() - 5,
                ) == "-work"@) && crate::names::valid_name(crate::text::trim_of(stem))))
                &&& (r matches Some(env) ==> env.wf() && env@ == crate::text::trim_of(stem))
            }),
    {
        proof {
            reveal_strlit("-home");
            reveal_strlit("-work");
        }
        let rest = match strip_prefix(line, self.prefix.as_str()) {
            Some(rest) => rest,
            None => {
                return None;
            },
        };
        let stem = match strip_suffix(rest, "-home") {
            Some(stem) => stem,
            None => match strip_suffix(rest, "-work") {
                Some(stem) => stem,
                None => {
                    return None;
                },
            },
        };
        proof {
            assert(stem@ =~= rest@.take(rest@.len() - 5));
        }
        match EnvironmentName::from_str(stem) {
            Ok(env) => Some(env),
            Err(_) => None,
        }
    }

    /// Whether the shared base image needs rebuilding: it does unless it was
    /// built within the freshness window and this process already built it
    /// once.
    pub fn needs_base_build(&self, base_mtime: Option<u64>, now: u64, built_this_process: bool)
        -> (r: bool)
        ensures
            r == !((match base_mtime {
                Some(m) => m <= now && now - m < 43200,
                None => false,
            }) && built_this_process),
    {
        let fresh = match base_mtime {
            Some(m) => m <= now && now - m < 43200,
            None => false,
        };
        !(fresh && built_this_process)
    }

    /// Parses the disk-usage probe's output: `<size>\t<mtime>\t/v`.
    pub fn parse_du_output(&self, line: &str) -> (r: Option<(u64, u64)>)
        ensures
            r matches Some(pair) ==> {
                let t1 = find_char_of(line@, '\t')->Some_0;
                let rest = line@.skip(t1 + 1);
                let t2 = find_char_of(rest, '\t')->Some_0;
                &&& find_char_of(line@, '\t') is Some
                &&& find_char_of(rest, '\t') is Some
                &&& pair.0 as nat == dec_val_of(line@.take(t1))
                &&& pair.1 as nat == dec_val_of(rest.take(t2))
                &&& rest.skip(t2 + 1) == "/v"@
            },
            r is Some <==> {
                let t1 = find_char_of(line@, '\t')->Some_0;
                let rest = line@.skip(t1 + 1);
                let t2 = find_char_of(rest, '\t')->Some_0;
                &&& find_char_of(line@, '\t') is Some
                &&& find_char_of(rest, '\t') is Some
                &&& rest.skip(t2 + 1) == "/v"@
                &&& t1 > 0
                &&& (forall|k: int|
                    0 <= k < t1 ==> crate::text::is_dec_digit(#[trigger] line@.take(t1)[k]))
                &&& dec_val_of(line@.take(t1)) <= u64::MAX as nat
                &&& t2 > 0
                &&& (forall|k: int|
                    0 <= k < t2 ==> crate::text::is_dec_digit(#[trigger] rest.take(t2)[k]))
                &&& dec_val_of(rest.take(t2)) <= u64::MAX as nat
            },
    {
        let t1 = match find_char(line, '\t') {
            Some(i) => i,
            None => {
                return None;
            },
        };
        proof {
            crate::text::lemma_find_char_of(line@, '\t');
        }
        let len = line.unicode_len();
        let size_part = line.substring_char(0, t1);
        let rest = line.substring_char(t1 + 1, len);
        let t2 = match find_char(rest, '\t') {
            Some(i) => i,
            None => {
                return None;
            },
        };
        proof {
            crate::text::lemma_find_char_of(rest@, '\t');
        }
        let rlen = rest.unicode_len();
        let mtime_part = rest.substring_char(0, t2);
        let tail = rest.substring_char(t2 + 1, rlen);
        if !str_equal(tail, "/v") {
            return None;
        }
        let size = match parse_u64(size_part) {
            Some(v) => v,
            None => {
                return None;
            },
        };
        let mtime = match parse_u64(mtime_part) {
            Some(v) => v,
            None => {
                return None;
            },
        };
        proof {
            assert(size_part@ =~= line@.take(t1 as int));
            assert(rest@ =~= line@.skip(t1 + 1));
            assert(mtime_part@ =~= rest@.take(t2 as int));
            assert(tail@ =~= rest@.skip(t2 + 1));
        }
        Some((size, mtime))
    }
}

/// The `PATH` assignment handed into containers: the container home's `bin`
/// first unless its path holds the separator, then the standard Debian
/// directories.
pub open spec fn fallback_path_of(container_home: Seq<char>) -> Seq<char> {
    if container_home.contains(':') {
        "PATH=/bin:/sbin:/usr/bin:/usr/sbin"@
    } else {
        "PATH="@ + container_home + "/bin:/bin:/sbin:/usr/bin:/usr/sbin"@
    }
}

/// Computes the `PATH` assignment handed into containers.
pub fn fallback_path(container_home: &EnvPath) -> (r: String)
    ensures
        r@ == fallback_path_of(container_home@),
{
    let home = container_home.as_str();
    match find_char(home, ':') {
        Some(_) => {
            proof {
                crate::text::lemma_find_char_of(home@, ':');
            }
            String::from_str("PATH=/bin:/sbin:/usr/bin:/usr/sbin")
        },
        None => {
            proof {
                crate::text::lemma_find_char_of(home@, ':');
                if home@.contains(':') {
                    let k = choose|k: int| 0 <= k < home@.len() && home@[k] == ':';
                }
            }
            concat3("PATH=", home, "/bin:/bin:/sbin:/usr/bin:/usr/sbin")
        },
    }
}

/// One middle line of the install block: four spaces, the quoted package,
/// a continuation.
pub open spec fn pkg_mid_lines_of(qs: Seq<Seq<char>>) -> Seq<char>
    decreases qs.len(),
{
    if qs.len() == 0 {
        Seq::empty()
    } else {
        "    "@ + qs[0] + " \\\n"@ + pkg_mid_lines_of(qs.drop_first())
    }
}

proof fn lemma_pkg_mid_push(qs: Seq<Seq<char>>, x: Seq<char>)
    ensures
        pkg_mid_lines_of(qs.push(x)) == pkg_mid_lines_of(qs) + "    "@ + x + " \\\n"@,
    decreases qs.len(),
{
    if qs.len() == 0 {
        assert(qs.push(x)[0] == x);
        assert(qs.push(x).drop_first() =~= Seq::<Seq<char>>::empty());
        assert(pkg_mid_lines_of(Seq::<Seq<char>>::empty()) =~= Seq::<char>::empty());
        assert(pkg_mid_lines_of(qs.push(x)) =~= pkg_mid_lines_of(qs) + "    "@ + x + " \\\n"@);
    } else {
        assert(qs.push(x)[0] == qs[0]);
        assert(qs.push(x).drop_first() =~= qs.drop_first().push(x));
        lemma_pkg_mid_push(qs.drop_first(), x);
        assert(pkg_mid_lines_of(qs.push(x)) =~= pkg_mid_lines_of(qs) + "    "@ + x + " \\\n"@);
    }
}

/// The whole install block body: middle lines, then the last package
/// without a continuation.
pub open spec fn pkg_lines_of(qs: Seq<Seq<char>>) -> Seq<char> {
    if qs.len() == 0 {
        Seq::empty()
    } else {
        pkg_mid_lines_of(qs.drop_last()) + "    "@ + qs.last() + "\n"@
    }
}

/// The base image's build recipe, from the quoted interpolations: base
/// image, timezone, the user account matching the host identity, package
/// sources, upgrades, the requested packages, and the `apt-file` and `sudo`
/// follow-ups when those packages are requested.
pub open spec fn dockerfile_of(
    qpkgs: Seq<Seq<char>>,
    qtz: Seq<char>,
    quser: Seq<char>,
    uid: u64,
    gid: u64,
    has_apt_file: bool,
    has_sudo: bool,
) -> Seq<char> {
    "FROM debian:11\n"@ + "RUN echo "@ + qtz + " > /etc/timezone && \\\n"@
        + "    ln -fs '/usr/share/zoneinfo/'"@ + qtz + " /etc/localtime\n"@ + "RUN addgroup --gid "@
        + dec_str_of(gid) + " "@ + quser + " || addgroup "@ + quser + " && \\\n"@
        + "    adduser --disabled-password --gecos '' --uid "@ + dec_str_of(uid) + " --ingroup "@
        + quser + " "@ + quser + " && \\\n"@ + "    adduser "@ + quser + " sudo && \\\n"@
        + "    mkdir /home/"@ + quser + "/w && \\\n"@ + "    chown "@ + quser + ":"@ + quser
        + " /home/"@ + quser + "/w\n"@
        + "RUN sed -i 's/ main$/ main contrib non-free/' /etc/apt/sources.list\n"@
        + "RUN apt-get update && apt-get upgrade -y\n"@ + (if qpkgs.len() > 0 {
        "RUN apt-get install -y \\\n"@ + pkg_lines_of(qpkgs)
    } else {
        Seq::<char>::empty()
    }) + (if has_apt_file {
        "RUN apt-file update\n"@
    } else {
        Seq::<char>::empty()
    }) + (if has_sudo {
        "RUN sh -c 'echo \"Defaults umask = 0027\" > /etc/sudoers.d/umask' && \\\n"@
            + "    sh -c 'echo \"%sudo ALL=(ALL) CWD=* NOPASSWD: ALL\" > /etc/sudoers.d/nopasswd'\n"@
    } else {
        Seq::<char>::empty()
    })
}

impl Docker {
    /// Renders the base image's build recipe.
    ///
    /// Every interpolated value is shell-quoted; rendering fails exactly
    /// when one of them holds a nul byte. The `apt-file` and `sudo`
    /// follow-up steps appear exactly when those packages are in the set.
    pub fn write_dockerfile(&self, packages: &Vec<String>, user: &str, uid: u64, gid: u64) -> (r:
        Result<String, Error>)
        ensures
            r is Ok <==> (!self.timezone@.contains('\0') && !user@.contains('\0') && (forall|
                k: int,
            |
                0 <= k < packages@.len() ==> !(#[trigger] packages@[k])@.contains('\0'))),
            r matches Ok(text) ==> text@ == dockerfile_of(
                crate::sets::strs_of(packages@).map_values(|s: Seq<char>| shell_quote_of(s)),
                shell_quote_of(self.timezone@),
                shell_quote_of(user@),
                uid,
                gid,
                crate::sets::strs_of(packages@).contains("apt-file"@),
                crate::sets::strs_of(packages@).contains("sudo"@),
            ),
    {
        let ghost qv = crate::sets::strs_of(packages@).map_values(
            |s: Seq<char>| shell_quote_of(s),
        );
        let mut qpkgs: Vec<String> = Vec::new();
        let mut i: usize = 0;
        while i < packages.len()
            invariant
                i <= packages@.len(),
                qv == crate::sets::strs_of(packages@).map_values(
                    |s: Seq<char>| shell_quote_of(s),
                ),
                qpkgs@.len() == i,
                forall|k: int| 0 <= k < i ==> (#[trigger] qpkgs@[k])@ == qv[k],
                forall|k: int| 0 <= k < i ==> !(#[trigger] packages@[k])@.contains('\0'),
            decreases packages@.len() - i,
        {
            let q = match shell_quote(packages[i].as_str()) {
                Ok(q) => q,
                Err(e) => {
                    return Err(e);
                },
            };
            proof {
                assert(crate::sets::strs_of(packages@)[i as int] == packages@[i as int]@);
            }
            qpkgs.push(q);
            i += 1;
        }
        let qtz = match shell_quote(self.timezone.as_str()) {
            Ok(q) => q,
            Err(e) => {
                return Err(e);
            },
        };
        let quser = match shell_quote(user) {
            Ok(q) => q,
            Err(e) => {
                return Err(e);
            },
        };
        let has_apt_file = crate::sets::contains_string(packages, "apt-file");
        let has_sudo = crate::sets::contains_string(packages, "sudo");

        let mut out = String::new();
        out.append("FROM debian:11\n");
        out.append("RUN echo ");
        out.append(qtz.as_str());
        out.append(" > /etc/timezone && \\\n");
        out.append("    ln -fs '/usr/share/zoneinfo/'");
        out.append(qtz.as_str());
        out.append(" /etc/localtime\n");
        out.append("RUN addgroup --gid ");
        let gid_str = u64_to_string(gid);
        out.append(gid_str.as_str());
        out.append(" ");
        out.append(quser.as_str());
        out.append(" || addgroup ");
        out.append(quser.as_str());
        out.append(" && \\\n");
        out.append("    adduser --disabled-password --gecos '' --uid ");
        let uid_str = u64_to_string(uid);
        out.append(uid_str.as_str());
        out.append(" --ingroup ");
        out.append(quser.as_str());
        out.append(" ");
        out.append(quser.as_str());
        out.append(" && \\\n");
        out.append("    adduser ");
        out.append(quser.as_str());
        out.append(" sudo && \\\n");
        out.append("    mkdir /home/");
        out.append(quser.as_str());
        out.append("/w && \\\n");
        out.append("    chown ");
        out.append(quser.as_str());
        out.append(":");
        out.append(quser.as_str());
        out.append(" /home/");
        out.append(quser.as_str());
        out.append("/w\n");
        out.append("RUN sed -i 's/ main$/ main contrib non-free/' /etc/apt/sources.list\n");
        out.append("RUN apt-get update && apt-get upgrade -y\n");
        let ghost header = out@;
        if qpkgs.len() > 0 {
            out.append("RUN apt-get install -y \\\n");
            let n = qpkgs.len();
            let mut j: usize = 0;
            proof {
                assert(qv.take(0) =~= Seq::<Seq<char>>::empty());
                assert(pkg_mid_lines_of(Seq::<Seq<char>>::empty()) =~= Seq::<char>::empty());
                assert(out@ =~= header + "RUN apt-get install -y \\\n"@ + pkg_mid_lines_of(
                    qv.take(0),
                ));
            }
            while j < n - 1
                invariant
                    j <= n - 1,
                    n == qpkgs@.len(),
                    n == qv.len(),
                    n > 0,
                    forall|k: int| 0 <= k < n ==> (#[trigger] qpkgs@[k])@ == qv[k],
                    out@ == header + "RUN apt-get install -y \\\n"@ + pkg_mid_lines_of(
                        qv.take(j as int),
                    ),
                decreases n - j,
            {
                out.append("    ");
                out.append(qpkgs[j].as_str());
                out.append(" \\\n");
                proof {
                    assert(qv.take(j + 1) =~= qv.take(j as int).push(qv[j as int]));
                    lemma_pkg_mid_push(qv.take(j as int), qv[j as int]);
                }
                j += 1;
            }
            out.append("    ");
            out.append(qpkgs[n - 1].as_str());
            out.append("\n");
            proof {
                assert(qv.take(n - 1) =~= qv.drop_last());
                assert(qv.last() == qv[n - 1]);
                assert(out@ =~= header + ("RUN apt-get install -y \\\n"@ + pkg_lines_of(qv)));
            }
        }
        let ghost with_pkgs = out@;
        proof {
            assert(with_pkgs =~= header + (if qv.len() > 0 {
                "RUN apt-get install -y \\\n"@ + pkg_lines_of(qv)
            } else {
                Seq::<char>::empty()
            }));
        }
        if has_apt_file {
            out.append("RUN apt-file update\n");
        }
        let ghost with_apt_file = out@;
        if has_sudo {
            out.append("RUN sh -c 'echo \"Defaults umask = 0027\" > /etc/sudoers.d/umask' && \\\n");
            out.append(
                "    sh -c 'echo \"%sudo ALL=(ALL) CWD=* NOPASSWD: ALL\" > /etc/sudoers.d/nopasswd'\n",
            );
        }
        proof {
            assert(out@ =~= dockerfile_of(
                qv,
                shell_quote_of(self.timezone@),
                shell_quote_of(user@),
                uid,
                gid,
                crate::sets::strs_of(packages@).contains("apt-file"@),
                crate::sets::strs_of(packages@).contains("sudo"@),
            ));
        }
        Ok(out)
    }
}

/// The in-container pipeline that shows progress while extracting the
/// concatenated seed stream into the home directory, tolerant of the zero
/// blocks between archives.
pub open spec fn seed_stream_command_of(size: Option<u64>) -> Seq<char> {
    "pv --interval 0.1 --force "@ + (match size {
        Some(n) => "--size "@ + dec_str_of(n) + " "@,
        None => ""@,
    }) + "| tar --ignore-zero --directory ~ --extract"@
}

impl Docker {
    /// Renders the in-container seed-extraction pipeline; the total seed
    /// size, when known, lets the progress meter show a proper bar.
    pub fn seed_stream_command(&self, size: Option<u64>) -> (r: String)
        ensures
            r@ == seed_stream_command_of(size),
    {
        let mut out = String::new();
        out.append("pv --interval 0.1 --force ");
        match size {
            Some(n) => {
                out.append("--size ");
                let n_str = u64_to_string(n);
                out.append(n_str.as_str());
                out.append(" ");
            },
            None => {
                proof {
                    reveal_strlit("");
                    assert(out@ =~= "pv --interval 0.1 --force "@ + ""@);
                }
            },
        }
        out.append("| tar --ignore-zero --directory ~ --extract");
        out
    }
}

/// One `--mount` value: the engine's quoted `type`,`source`,`target` form.
pub open spec fn mount_arg_of(kind: Seq<char>, source: Seq<char>, target: Seq<char>) -> Seq<char> {
    "\"type="@ + kind + "\",\"source="@ + source + "\",\"target="@ + target + "\""@
}

impl Docker {
    /// Renders one `--mount` value.
    pub fn mount_arg(&self, kind: &str, source: &str, target: &str) -> (r: String)
        ensures
            r@ == mount_arg_of(kind@, source@, target@),
    {
        let mut out = String::new();
        out.append("\"type=");
        out.append(kind);
        out.append("\",\"source=");
        out.append(source);
        out.append("\",\"target=");
        out.append(target);
        out.append("\"");
        out
    }

    /// The argument list that starts an environment's long-running
    /// container: detached, named, removed on exit, with the environment's
    /// storage mounted over the container home and work directories, and a
    /// long sleep as its command so later executions can attach.
    pub fn spawn_args(
        &self,
        env: &EnvironmentName,
        hostname: Option<&String>,
        user: &str,
        seccomp_json: Option<&String>,
        home_source: &str,
        work_source: &str,
        container_home: &EnvPath,
    ) -> (r: Vec<String>)
        ensures
            r@.len() == (if seccomp_json is Some {
                27int
            } else {
                25int
            }),
            r@[0]@ == "run"@,
            r@[1]@ == "--detach"@,
            r@[2]@ == "--env"@,
            r@[3]@ == "SANDBOX="@ + env@,
            r@[4]@ == "--hostname"@,
            r@[5]@ == (match hostname {
                Some(h) => env@ + "."@ + h@,
                None => env@,
            }),
            r@[6]@ == "--init"@,
            r@[7]@ == "--name"@,
            r@[8]@ == self.prefix@ + env@,
            r@[9]@ == "--rm"@,
            seccomp_json matches Some(path) ==> r@[10]@ == "--security-opt"@ && r@[11]@
                == "seccomp="@ + path@,
            ({
                let base: int = if seccomp_json is Some {
                    12
                } else {
                    10
                };
                &&& r@[base]@ == "--shm-size"@
                &&& r@[base + 1]@ == "1000000000"@
                &&& r@[base + 2]@ == "--user"@
                &&& r@[base + 3]@ == user@
                &&& r@[base + 4]@ == "--volume"@
                &&& r@[base + 5]@ == "/tmp/.X11-unix:/tmp/.X11-unix:ro"@
                &&& r@[base + 6]@ == "--mount"@
                &&& r@[base + 7]@ == mount_arg_of(
                    if self.mounts == Mounts::BindMounts {
                        "bind"@
                    } else {
                        "volume"@
                    },
                    home_source@,
                    container_home@,
                )
                &&& r@[base + 8]@ == "--mount"@
                &&& r@[base + 9]@ == mount_arg_of(
                    if self.mounts == Mounts::BindMounts {
                        "bind"@
                    } else {
                        "volume"@
                    },
                    work_source@,
                    crate::paths::joined_path_of(container_home@, "w"@),
                )
                &&& r@[base + 10]@ == "--workdir"@
                &&& r@[base + 11]@ == crate::paths::joined_path_of(container_home@, "w"@)
                &&& r@[base + 12]@ == self.prefix@ + "cubicle-base"@
                &&& r@[base + 13]@ == "sleep"@
                &&& r@[base + 14]@ == "90d"@
            }),
    {
        let mut out: Vec<String> = Vec::new();
        out.push(String::from_str("run"));
        out.push(String::from_str("--detach"));
        out.push(String::from_str("--env"));
        out.push(concat2("SANDBOX=", env.as_str()));
        out.push(String::from_str("--hostname"));
        match hostname {
            Some(h) => out.push(concat3(env.as_str(), ".", h.as_str())),
            None => out.push(String::from_str(env.as_str())),
        }
        out.push(String::from_str("--init"));
        out.push(String::from_str("--name"));
        out.push(self.container_from_environment(env));
        out.push(String::from_str("--rm"));
        match seccomp_json {
            Some(path) => {
                out.push(String::from_str("--security-opt"));
                out.push(concat2("seccomp=", path.as_str()));
            },
            None => {},
        }
        out.push(String::from_str("--shm-size"));
        out.push(String::from_str("1000000000"));
        out.push(String::from_str("--user"));
        out.push(String::from_str(user));
        out.push(String::from_str("--volume"));
        out.push(String::from_str("/tmp/.X11-unix:/tmp/.X11-unix:ro"));
        let kind = if matches!(self.mounts, Mounts::BindMounts) {
            "bind"
        } else {
            "volume"
        };
        let container_work = container_home.join("w");
        out.push(String::from_str("--mount"));
        out.push(self.mount_arg(kind, home_source, container_home.as_str()));
        out.push(String::from_str("--mount"));
        out.push(self.mount_arg(kind, work_source, container_work.as_str()));
        out.push(String::from_str("--workdir"));
        out.push(String::from_str(container_work.as_str()));
        out.push(self.base_image());
        out.push(String::from_str("sleep"));
        out.push(String::from_str("90d"));
        out
    }

    /// The argument list that attaches one command to a running container:
    /// selected environment variables (with the computed `PATH`), an
    /// interactive stream, a TTY when one is available, then the login
    /// shell with the command's tail: nothing for an interactive session,
    /// the copied-in init script for an init run, and the joined
    /// (shell-quoted) command line for a plain execution.
    pub fn exec_args(
        &self,
        env: &EnvironmentName,
        shell: &str,
        container_home: &EnvPath,
        has_tty: bool,
        command: &Vec<String>,
        init: bool,
        interactive: bool,
    ) -> (r: Result<Vec<String>, Error>)
        ensures
            r is Ok <==> (interactive || init || (forall|k: int|
                0 <= k < command@.len() ==> !(#[trigger] command@[k])@.contains('\0'))),
            r matches Ok(args) ==> {
                let tty: int = if has_tty {
                    1
                } else {
                    0
                };
                let tail: int = if interactive {
                    0
                } else {
                    2
                };
                &&& args@.len() == 15 + tty + tail
                &&& args@[0]@ == "exec"@
                &&& args@[1]@ == "--env"@
                &&& args@[2]@ == "DISPLAY"@
                &&& args@[3]@ == "--env"@
                &&& args@[4]@ == fallback_path_of(container_home@)
                &&& args@[5]@ == "--env"@
                &&& args@[6]@ == "SHELL"@
                &&& args@[7]@ == "--env"@
                &&& args@[8]@ == "USER"@
                &&& args@[9]@ == "--env"@
                &&& args@[10]@ == "TERM"@
                &&& args@[11]@ == "--interactive"@
                &&& (has_tty ==> args@[12]@ == "--tty"@)
                &&& args@[12 + tty]@ == self.prefix@ + env@
                &&& args@[13 + tty]@ == shell@
                &&& args@[14 + tty]@ == "-l"@
                &&& (!interactive ==> args@[15 + tty]@ == "-c"@)
                &&& (!interactive && init ==> args@[16 + tty]@ == "/.cubicle-init"@)
                &&& (!interactive && !init ==> args@[16 + tty]@ == crate::shell::shell_joined_of(
                    crate::sets::strs_of(command@),
                ))
            },
    {
        let mut out: Vec<String> = Vec::new();
        out.push(String::from_str("exec"));
        out.push(String::from_str("--env"));
        out.push(String::from_str("DISPLAY"));
        out.push(String::from_str("--env"));
        out.push(fallback_path(container_home));
        out.push(String::from_str("--env"));
        out.push(String::from_str("SHELL"));
        out.push(String::from_str("--env"));
        out.push(String::from_str("USER"));
        out.push(String::from_str("--env"));
        out.push(String::from_str("TERM"));
        out.push(String::from_str("--interactive"));
        if has_tty {
            out.push(String::from_str("--tty"));
        }
        out.push(self.container_from_environment(env));
        out.push(String::from_str(shell));
        out.push(String::from_str("-l"));
        if !interactive {
            out.push(String::from_str("-c"));
            if init {
                out.push(String::from_str("/.cubicle-init"));
            } else {
                let joined = match shell_join(command) {
                    Ok(j) => j,
                    Err(e) => {
                        return Err(e);
                    },
                };
                out.push(joined);
            }
        }
        Ok(out)
    }
}

/// The environment name a container listing line denotes under this
/// prefix, if any.
pub open spec fn container_env_view_of(prefix: Seq<char>, line: Seq<char>) -> Option<Seq<char>> {
    if line.len() >= prefix.len() && line.take(prefix.len() as int) == prefix
        && crate::names::valid_name(crate::text::trim_of(line.skip(prefix.len() as int))) {
        Some(crate::text::trim_of(line.skip(prefix.len() as int)))
    } else {
        None
    }
}

/// The environment name a volume listing line denotes under this prefix,
/// if any: the stem between the prefix and a `-home` or `-work` tail.
pub open spec fn volume_env_view_of(prefix: Seq<char>, line: Seq<char>) -> Option<Seq<char>> {
    let rest = line.skip(prefix.len() as int);
    let stem = rest.take(rest.len() - 5);
    if line.len() >= prefix.len() && line.take(prefix.len() as int) == prefix && rest.len() >= 5
        && (rest.skip(rest.len() - 5) == "-home"@ || rest.skip(rest.len() - 5) == "-work"@)
        && crate::names::valid_name(crate::text::trim_of(stem)) {
        Some(crate::text::trim_of(stem))
    } else {
        None
    }
}

/// After inserting a name into a duplicate-free list-as-set, the list is
/// still duplicate-free and holds exactly the old names and the new one.
proof fn lemma_env_insert_views(old_views: Seq<Seq<char>>, new_views: Seq<Seq<char>>, x: Seq<
    char,
>)
    requires
        old_views.no_duplicates(),
        new_views == if old_views.contains(x) {
            old_views
        } else {
            old_views.push(x)
        },
    ensures
        new_views.no_duplicates(),
        forall|q: Seq<char>| #[trigger] new_views.contains(q) <==> (old_views.contains(q) || q
            == x),
{
    if old_views.contains(x) {
        assert forall|q: Seq<char>| old_views.contains(q) || q == x implies #[trigger]
            new_views.contains(q) by {}
    } else {
        assert forall|a: int, b: int| 0 <= a < b < new_views.len() implies new_views[a]
            != new_views[b] by {
            if b == old_views.len() {
                assert(new_views[b] == x);
                assert(new_views[a] == old_views[a]);
                if old_views[a] == x {
                    assert(old_views.contains(old_views[a]));
                }
            }
        }
        assert forall|q: Seq<char>| #[trigger] new_views.contains(q) implies (old_views.contains(
            q,
        ) || q == x) by {
            let k = choose|k: int| 0 <= k < new_views.len() && new_views[k] == q;
            if k < old_views.len() {
                assert(old_views[k] == q);
            }
        }
        assert forall|q: Seq<char>| old_views.contains(q) || q == x implies #[trigger]
            new_views.contains(q) by {
            if old_views.contains(q) {
                let k = choose|k: int| 0 <= k < old_views.len() && old_views[k] == q;
                assert(new_views[k] == q);
            } else {
                assert(new_views[old_views.len() as int] == q);
            }
        }
    }
}

impl Docker {
    /// Assembles the environment listing from the engine's container and
    /// volume listings: every name either listing denotes, each once. Lines
    /// that denote no environment are skipped.
    pub fn environments_from_listings(&self, containers: &Vec<String>, volumes: &Vec<String>)
        -> (r: Vec<EnvironmentName>)
        ensures
            crate::names::env_views_of(r@).no_duplicates(),
            forall|k: int| 0 <= k < r@.len() ==> (#[trigger] r@[k]).wf(),
            forall|q: Seq<char>| #[trigger]
                crate::names::env_views_of(r@).contains(q) <==> ((exists|k: int|
                    0 <= k < containers@.len() && container_env_view_of(
                        self.prefix@,
                        (#[trigger] containers@[k])@,
                    ) == Some(q)) || (exists|k: int|
                    0 <= k < volumes@.len() && volume_env_view_of(
                        self.prefix@,
                        (#[trigger] volumes@[k])@,
                    ) == Some(q))),
    {
        let mut out: Vec<EnvironmentName> = Vec::new();
        let mut i: usize = 0;
        while i < containers.len()
            invariant
                i <= containers@.len(),
                crate::names::env_views_of(out@).no_duplicates(),
                forall|k: int| 0 <= k < out@.len() ==> (#[trigger] out@[k]).wf(),
                forall|q: Seq<char>| #[trigger]
                    crate::names::env_views_of(out@).contains(q) <==> (exists|k: int|
                        0 <= k < i && container_env_view_of(
                            self.prefix@,
                            (#[trigger] containers@[k])@,
                        ) == Some(q)),
            decreases containers@.len() - i,
        {
            let ghost old_views = crate::names::env_views_of(out@);
            match self.environment_from_container_line(containers[i].as_str()) {
                Some(env) => {
                    let ghost ev = env@;
                    proof {
                        assert(container_env_view_of(self.prefix@, containers@[i as int]@)
                            == Some(ev));
                    }
                    crate::sets::insert_env_name(&mut out, env);
                    proof {
                        lemma_env_insert_views(
                            old_views,
                            crate::names::env_views_of(out@),
                            ev,
                        );
                        assert forall|q: Seq<char>| #[trigger]
                            crate::names::env_views_of(out@).contains(q) implies (exists|k: int|
                            0 <= k < i + 1 && container_env_view_of(
                                self.prefix@,
                                (#[trigger] containers@[k])@,
                            ) == Some(q)) by {
                            if old_views.contains(q) {
                                let k = choose|k: int|
                                    0 <= k < i && container_env_view_of(
                                        self.prefix@,
                                        (#[trigger] containers@[k])@,
                                    ) == Some(q);
                            } else {
                                assert(container_env_view_of(
                                    self.prefix@,
                                    containers@[i as int]@,
                                ) == Some(q));
                            }
                        }
                    }
                },
                None => {
                    proof {
                        assert(container_env_view_of(self.prefix@, containers@[i as int]@)
                            is None);
                    }
                },
            }
            i += 1;
        }
        let ghost n_containers = containers@.len() as int;
        let mut j: usize = 0;
        while j < volumes.len()
            invariant
                j <= volumes@.len(),
                crate::names::env_views_of(out@).no_duplicates(),
                forall|k: int| 0 <= k < out@.len() ==> (#[trigger] out@[k]).wf(),
                forall|q: Seq<char>| #[trigger]
                    crate::names::env_views_of(out@).contains(q) <==> ((exists|k: int|
                        0 <= k < containers@.len() && container_env_view_of(
                            self.prefix@,
                            (#[trigger] containers@[k])@,
                        ) == Some(q)) || (exists|k: int|
                        0 <= k < j && volume_env_view_of(
                            self.prefix@,
                            (#[trigger] volumes@[k])@,
                        ) == Some(q))),
            decreases volumes@.len() - j,
        {
            let ghost old_views = crate::names::env_views_of(out@);
            match self.environment_from_volume_line(volumes[j].as_str()) {
                Some(env) => {
                    let ghost ev = env@;
                    proof {
                        assert(volume_env_view_of(self.prefix@, volumes@[j as int]@)
                            == Some(ev));
                    }
                    crate::sets::insert_env_name(&mut out, env);
                    proof {
                        lemma_env_insert_views(
                            old_views,
                            crate::names::env_views_of(out@),
                            ev,
                        );
                    }
                },
                None => {
                    proof {
                        assert(volume_env_view_of(self.prefix@, volumes@[j as int]@) is None);
                    }
                },
            }
            j += 1;
        }
        out
    }
}

/// Where a container-backend run stands: the shared base image is built
/// before a container is spawned from it, the init script is copied in
/// before any seeds are streamed, and the command runs only in a ready
/// container.
#[derive(Clone, Copy, Debug, PartialEq, Eq, Structural)]
pub enum ContainerRunState {
    /// Nothing is known yet beyond whether the container is present.
    Start,
    /// The base image is freshly built; no container was spawned from it.
    BaseBuilt,
    /// The container exists; nothing was copied into it.
    ContainerReady,
    /// The init script is inside the container.
    ScriptCopied,
    /// The seed archives are extracted into the container home.
    Seeded,
    /// The command ran; the run is complete.
    Done,
    /// A step failed; the run stops.
    Failed,
}

/// What the caller must do next in a container-backend run.
#[derive(Clone, Copy, Debug, PartialEq, Eq, Structural)]
pub enum ContainerRunAction {
    /// Build the shared base image.
    BuildBase,
    /// Spawn the environment's container from the base image.
    SpawnContainer,
    /// Copy the init script into the container.
    CopyInitScript,
    /// Stream the seed archives into the container home.
    StreamSeeds,
    /// Run the command (or the init script) inside the container.
    ExecuteCommand,
    /// Stop; report the failure.
    Stop,
}

impl Docker {
    /// One step of the container-backend run: given where the run stands,
    /// whether the container is present, whether this run carries an init
    /// script and seed archives, and whether the step the caller just ran
    /// succeeded, decide the next action and the new state.
    pub fn run_step(
        &self,
        prior: ContainerRunState,
        container_present: bool,
        init: bool,
        have_seeds: bool,
        step_succeeded: bool,
    ) -> (r: (ContainerRunAction, ContainerRunState))
        ensures
            r.0 == ContainerRunAction::BuildBase ==> prior == ContainerRunState::Start
                && !container_present,
            r.0 == ContainerRunAction::SpawnContainer ==> prior == ContainerRunState::BaseBuilt
                && step_succeeded,
            r.0 == ContainerRunAction::CopyInitScript ==> init && (prior
                == ContainerRunState::ContainerReady || (prior == ContainerRunState::Start
                && container_present)),
            r.0 == ContainerRunAction::StreamSeeds ==> have_seeds && prior
                == ContainerRunState::ScriptCopied && step_succeeded,
            (r.0 == ContainerRunAction::ExecuteCommand && init) ==> prior
                == ContainerRunState::ScriptCopied || prior == ContainerRunState::Seeded,
            (prior == ContainerRunState::Start && !container_present) ==> r == (
                ContainerRunAction::BuildBase,
                ContainerRunState::Start,
            ),
            (prior == ContainerRunState::BaseBuilt && !step_succeeded) ==> r == (
                ContainerRunAction::Stop,
                ContainerRunState::Failed,
            ),
            r.1 == ContainerRunState::Done ==> prior == ContainerRunState::Done,
    {
        match prior {
            ContainerRunState::Start => {
                if !container_present {
                    (ContainerRunAction::BuildBase, ContainerRunState::Start)
                } else if init {
                    (ContainerRunAction::CopyInitScript, ContainerRunState::Start)
                } else {
                    (ContainerRunAction::ExecuteCommand, ContainerRunState::Start)
                }
            },
            ContainerRunState::BaseBuilt => {
                if step_succeeded {
                    (ContainerRunAction::SpawnContainer, ContainerRunState::BaseBuilt)
                } else {
                    (ContainerRunAction::Stop, ContainerRunState::Failed)
                }
            },
            ContainerRunState::ContainerReady => {
                if !step_succeeded {
                    (ContainerRunAction::Stop, ContainerRunState::Failed)
                } else if init {
                    (ContainerRunAction::CopyInitScript, ContainerRunState::ContainerReady)
                } else {
                    (ContainerRunAction::ExecuteCommand, ContainerRunState::ContainerReady)
                }
            },
            ContainerRunState::ScriptCopied => {
                if !step_succeeded {
                    (ContainerRunAction::Stop, ContainerRunState::Failed)
                } else if have_seeds {
                    (ContainerRunAction::StreamSeeds, ContainerRunState::ScriptCopied)
                } else {
                    (ContainerRunAction::ExecuteCommand, ContainerRunState::ScriptCopied)
                }
            },
            ContainerRunState::Seeded => {
                if step_succeeded {
                    (ContainerRunAction::ExecuteCommand, ContainerRunState::Seeded)
                } else {
                    (ContainerRunAction::Stop, ContainerRunState::Failed)
                }
            },
            ContainerRunState::Done => (ContainerRunAction::Stop, ContainerRunState::Done),
            ContainerRunState::Failed => (ContainerRunAction::Stop, ContainerRunState::Failed),
        }
    }

    /// How the caller advances the run after performing an action: the state
    /// the just-performed step leads to.
    pub fn run_advance(
        &self,
        prior: ContainerRunState,
        action: ContainerRunAction,
        succeeded: bool,
    ) -> (r: ContainerRunState)
        ensures
            !succeeded && action != ContainerRunAction::Stop ==> r == ContainerRunState::Failed,
            (action == ContainerRunAction::BuildBase && succeeded) ==> r
                == ContainerRunState::BaseBuilt,
            (action == ContainerRunAction::SpawnContainer && succeeded) ==> r
                == ContainerRunState::ContainerReady,
            (action == ContainerRunAction::CopyInitScript && succeeded) ==> r
                == ContainerRunState::ScriptCopied,
            (action == ContainerRunAction::StreamSeeds && succeeded) ==> r
                == ContainerRunState::Seeded,
            (action == ContainerRunAction::ExecuteCommand && succeeded) ==> r
                == ContainerRunState::Done,
    {
        match action {
            ContainerRunAction::BuildBase => {
                if succeeded {
                    ContainerRunState::BaseBuilt
                } else {
                    ContainerRunState::Failed
                }
            },
            ContainerRunAction::SpawnContainer => {
                if succeeded {
                    ContainerRunState::ContainerReady
                } else {
                    ContainerRunState::Failed
                }
            },
            ContainerRunAction::CopyInitScript => {
                if succeeded {
                    ContainerRunState::ScriptCopied
                } else {
                    ContainerRunState::Failed
                }
            },
            ContainerRunAction::StreamSeeds => {
                if succeeded {
                    ContainerRunState::Seeded
                } else {
                    ContainerRunState::Failed
                }
            },
            ContainerRunAction::ExecuteCommand => {
                if succeeded {
                    ContainerRunState::Done
                } else {
                    ContainerRunState::Failed
                }
            },
            ContainerRunAction::Stop => prior,
        }
    }
}

} // verus!