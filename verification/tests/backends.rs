//! Backend computations: names, parsers, recipes and command fragments.

use cubicle::bubblewrap::Bubblewrap;
use cubicle::cubicle::{nonzero_time, rel_time, host_home_dir};
use cubicle::docker::{ContainerRunAction, ContainerRunState, Docker, Mounts, fallback_path};
use cubicle::names::EnvironmentName;
use cubicle::paths::{EnvPath, HostPath};
use cubicle::text::{parse_u64, u64_to_string};
use cubicle::user::User;

fn host_path(s: &str) -> HostPath {
    HostPath::from_string(String::from(s))
}

fn env(name: &str) -> EnvironmentName {
    EnvironmentName::from_str(name).unwrap()
}

fn docker() -> Docker {
    Docker {
        prefix: String::from("cub-"),
        mounts: Mounts::Volumes,
        timezone: String::from("Etc/UTC"),
        slim: false,
    }
}

#[test]
fn fallback_path_values() {
    assert_eq!(
        fallback_path(&EnvPath::from_string(String::from("/home/foo"))).as_str(),
        "PATH=/home/foo/bin:/bin:/sbin:/usr/bin:/usr/sbin"
    );
    assert_eq!(
        fallback_path(&EnvPath::from_string(String::from("/home/fo:oo"))).as_str(),
        "PATH=/bin:/sbin:/usr/bin:/usr/sbin"
    );
}

#[test]
fn docker_names() {
    let docker = docker();
    let e = env("alpha");
    assert_eq!(docker.container_from_environment(&e).as_str(), "cub-alpha");
    assert_eq!(docker.home_volume(&e).as_str(), "cub-alpha-home");
    assert_eq!(docker.work_volume(&e).as_str(), "cub-alpha-work");
    assert_eq!(docker.base_image().as_str(), "cub-cubicle-base");
}

#[test]
fn docker_listing_parsers() {
    let docker = docker();
    let from_container = |s: &str| docker.environment_from_container_line(s).map(|e| String::from(e.as_str()));
    assert_eq!(from_container("cub-alpha"), Some(String::from("alpha")));
    assert_eq!(from_container("other-alpha"), None);
    assert_eq!(from_container("cub-bad name"), None);

    let from_volume = |s: &str| docker.environment_from_volume_line(s).map(|e| String::from(e.as_str()));
    assert_eq!(from_volume("cub-alpha-home"), Some(String::from("alpha")));
    assert_eq!(from_volume("cub-alpha-work"), Some(String::from("alpha")));
    assert_eq!(from_volume("cub-alpha"), None);
    assert_eq!(from_volume("xyz-alpha-home"), None);
}

#[test]
fn docker_base_image_freshness() {
    let docker = docker();
    assert!(docker.needs_base_build(None, 1000, true));
    assert!(docker.needs_base_build(Some(100), 1000, false));
    assert!(!docker.needs_base_build(Some(100), 1000, true));
    assert!(docker.needs_base_build(Some(100), 100_000, true));
}

#[test]
fn docker_du_output_parser() {
    let docker = docker();
    assert_eq!(docker.parse_du_output("4096\t1700000000\t/v"), Some((4096, 1700000000)));
    assert_eq!(docker.parse_du_output("4096\t1700000000\t/w"), None);
    assert_eq!(docker.parse_du_output("4096 1700000000 /v"), None);
    assert_eq!(docker.parse_du_output("x\t17\t/v"), None);
}

#[test]
fn dockerfile_for_plain_values() {
    let docker = docker();
    let packages = vec![String::from("git"), String::from("sudo")];
    let text = docker.write_dockerfile(&packages, "alice", 1000, 1000).unwrap();
    let expected = "FROM debian:11\n\
RUN echo Etc/UTC > /etc/timezone && \\\n\
\x20   ln -fs '/usr/share/zoneinfo/'Etc/UTC /etc/localtime\n\
RUN addgroup --gid 1000 alice || addgroup alice && \\\n\
\x20   adduser --disabled-password --gecos '' --uid 1000 --ingroup alice alice && \\\n\
\x20   adduser alice sudo && \\\n\
\x20   mkdir /home/alice/w && \\\n\
\x20   chown alice:alice /home/alice/w\n\
RUN sed -i 's/ main$/ main contrib non-free/' /etc/apt/sources.list\n\
RUN apt-get update && apt-get upgrade -y\n\
RUN apt-get install -y \\\n\
\x20   git \\\n\
\x20   sudo\n\
RUN sh -c 'echo \"Defaults umask = 0027\" > /etc/sudoers.d/umask' && \\\n\
\x20   sh -c 'echo \"%sudo ALL=(ALL) CWD=* NOPASSWD: ALL\" > /etc/sudoers.d/nopasswd'\n";
    assert_eq!(text.as_str(), expected);
}

#[test]
fn dockerfile_quotes_special_values() {
    let docker = Docker {
        prefix: String::from("cub-"),
        mounts: Mounts::BindMounts,
        timezone: String::from("Etc/Timezone"),
        slim: true,
    };
    let packages = vec![String::from("pack#age1")];
    let text = docker.write_dockerfile(&packages, "a b", 1337, 7331).unwrap();
    assert!(text.as_str().contains("'a b'"), "the user must be quoted: {text}");
    assert!(text.as_str().contains("'pack#age1'"), "the package must be quoted: {text}");
    assert!(text.as_str().contains("--gid 7331"));
    assert!(text.as_str().contains("--uid 1337"));
    assert!(!text.as_str().contains("apt-file update"));
}

#[test]
fn bubblewrap_paths_and_state() {
    let bw = Bubblewrap::new(&host_path("/home/u/.cache"), &host_path("/home/u/.local/share"));
    assert_eq!(bw.home_dirs.as_str(), "/home/u/.cache/cubicle/home");
    assert_eq!(bw.work_dirs.as_str(), "/home/u/.local/share/cubicle/work");
    let e = env("alpha");
    assert_eq!(bw.host_home(&e).as_str(), "/home/u/.cache/cubicle/home/alpha");
    assert_eq!(bw.host_work(&e).as_str(), "/home/u/.local/share/cubicle/work/alpha");

    assert_eq!(bw.exists_from_storage(true, true), cubicle::EnvironmentExists::FullyExists);
    assert_eq!(bw.exists_from_storage(true, false), cubicle::EnvironmentExists::PartiallyExists);
    assert_eq!(bw.exists_from_storage(false, true), cubicle::EnvironmentExists::PartiallyExists);
    assert_eq!(bw.exists_from_storage(false, false), cubicle::EnvironmentExists::NoEnvironment);
}

#[test]
fn bubblewrap_command_fragments() {
    let bw = Bubblewrap::new(&host_path("/c"), &host_path("/d"));
    let e = env("alpha");
    assert_eq!(bw.sandbox_hostname(&e, None).as_str(), "alpha");
    assert_eq!(
        bw.sandbox_hostname(&e, Some(&String::from("box"))).as_str(),
        "alpha.box"
    );
    assert_eq!(
        bw.sandbox_path_value(&host_path("/home/u")).as_str(),
        "/home/u/bin:/bin:/usr/bin:/sbin:/usr/sbin"
    );
    let bind = bw.ro_bind_try("/etc");
    assert_eq!(bind, vec!["--ro-bind-try", "/etc", "/etc"]);

    let command = vec![String::from("echo"), String::from("a b")];
    let args = bw.shell_command_args(&command, false, false).unwrap();
    assert_eq!(args, vec!["-c", "echo 'a b'"]);
    let init_args = bw.shell_command_args(&Vec::new(), true, false).unwrap();
    assert_eq!(init_args, vec!["-c", "/cubicle-init.sh"]);
    assert!(bw.shell_command_args(&Vec::new(), false, true).unwrap().is_empty());
}

#[test]
fn bubblewrap_listing() {
    let bw = Bubblewrap::new(&host_path("/c"), &host_path("/d"));
    let homes = vec![String::from("alpha"), String::from("beta")];
    let works = vec![String::from("beta"), String::from("gamma")];
    let envs = bw.environments_from_listings(&homes, &works).unwrap();
    let names: Vec<&str> = envs.iter().map(|e| e.as_str()).collect();
    assert_eq!(names, vec!["alpha", "beta", "gamma"]);
    let bad = vec![String::from("not a name")];
    assert!(bw.environments_from_listings(&bad, &Vec::new()).is_err());
}

#[test]
fn user_backend_names_and_passwd() {
    let user = User::new(&host_path("/home/u/.local/share"));
    assert_eq!(user.work_tars.as_str(), "/home/u/.local/share/cubicle/work");
    let e = env("alpha");
    assert_eq!(user.username_from_environment(&e).as_str(), "cub-alpha");
    assert_eq!(
        user.work_backup_path(&e, 1700000000).as_str(),
        "/home/u/.local/share/cubicle/work/alpha-1700000000.tar"
    );

    let line = "cub-alpha:x:1000:1000::/home/cub-alpha:/bin/sh";
    let parsed = user.environment_from_passwd_line(line).unwrap();
    assert_eq!(parsed.as_str(), "alpha");
    assert!(user.environment_from_passwd_line("root:x:0:0:root:/root:/bin/sh").is_none());

    assert_eq!(
        user.home_from_passwd_line(line, "cub-alpha"),
        Some("/home/cub-alpha")
    );
    assert_eq!(user.home_from_passwd_line(line, "cub-beta"), None);

    let lines = vec![
        String::from("root:x:0:0:root:/root:/bin/sh"),
        String::from("cub-alpha:x:1000:1000::/home/cub-alpha:/bin/sh"),
    ];
    let envs = user.environments_from_passwd(&lines);
    assert_eq!(envs.len(), 1);
    assert_eq!(envs[0].as_str(), "alpha");
}

#[test]
fn user_backend_command_lines() {
    let user = User::new(&host_path("/d"));
    assert_eq!(
        user.create_user_args("cub-alpha", "me", "/bin/zsh"),
        vec![
            "adduser",
            "--disabled-password",
            "--gecos",
            "Cubicle environment for user me",
            "--shell",
            "/bin/zsh",
            "cub-alpha"
        ]
    );
    assert_eq!(
        user.kill_user_args("cub-alpha"),
        vec!["pkill", "--signal", "KILL", "--uid", "cub-alpha"]
    );
    assert_eq!(
        user.delete_user_args("cub-alpha"),
        vec!["deluser", "--remove-home", "cub-alpha"]
    );
    assert_eq!(user.interactive_command("/bin/sh").as_str(), "cd w && exec /bin/sh");
    assert_eq!(user.exec_command("make test").as_str(), "cd w && make test");
}

#[test]
fn number_rendering_and_parsing() {
    assert_eq!(u64_to_string(0).as_str(), "0");
    assert_eq!(u64_to_string(42).as_str(), "42");
    assert_eq!(u64_to_string(18446744073709551615).as_str(), "18446744073709551615");
    assert_eq!(parse_u64("0"), Some(0));
    assert_eq!(parse_u64("1700000000"), Some(1700000000));
    assert_eq!(parse_u64(""), None);
    assert_eq!(parse_u64("12x"), None);
    assert_eq!(parse_u64("18446744073709551615"), Some(u64::MAX));
    assert_eq!(parse_u64("18446744073709551616"), None);
}

#[test]
fn relative_time_wording() {
    assert_eq!(rel_time(None).as_str(), "N/A");
    assert_eq!(rel_time(Some(0)).as_str(), "0 minutes");
    assert_eq!(rel_time(Some(120)).as_str(), "2 minutes");
    assert_eq!(rel_time(Some(3600)).as_str(), "1 hours");
    assert_eq!(rel_time(Some(7200)).as_str(), "2 hours");
    assert_eq!(rel_time(Some(86400)).as_str(), "1 days");
    assert_eq!(rel_time(Some(86400 * 30)).as_str(), "30 days");
}

#[test]
fn times_and_home() {
    assert_eq!(nonzero_time(0), None);
    assert_eq!(nonzero_time(7), Some(7));
    assert_eq!(host_home_dir("/home/u").unwrap().as_str(), "/home/u");
    assert!(host_home_dir("").is_err());
}

#[test]
fn docker_spawn_arguments() {
    let docker = Docker {
        prefix: String::from("cub-"),
        mounts: Mounts::BindMounts,
        timezone: String::from("Etc/UTC"),
        slim: false,
    };
    let e = env("alpha");
    let args = docker.spawn_args(
        &e,
        Some(&String::from("box")),
        "alice",
        None,
        "/host/home/alpha",
        "/host/work/alpha",
        &EnvPath::from_string(String::from("/home/alice")),
    );
    assert_eq!(
        args,
        vec![
            "run",
            "--detach",
            "--env",
            "SANDBOX=alpha",
            "--hostname",
            "alpha.box",
            "--init",
            "--name",
            "cub-alpha",
            "--rm",
            "--shm-size",
            "1000000000",
            "--user",
            "alice",
            "--volume",
            "/tmp/.X11-unix:/tmp/.X11-unix:ro",
            "--mount",
            "\"type=bind\",\"source=/host/home/alpha\",\"target=/home/alice\"",
            "--mount",
            "\"type=bind\",\"source=/host/work/alpha\",\"target=/home/alice/w\"",
            "--workdir",
            "/home/alice/w",
            "cub-cubicle-base",
            "sleep",
            "90d",
        ]
    );
}

#[test]
fn docker_exec_arguments() {
    let docker = docker();
    let e = env("alpha");
    let home = EnvPath::from_string(String::from("/home/alice"));
    let command = vec![String::from("make"), String::from("unit tests")];
    let args = docker.exec_args(&e, "/bin/sh", &home, true, &command, false, false).unwrap();
    assert_eq!(
        args,
        vec![
            "exec",
            "--env",
            "DISPLAY",
            "--env",
            "PATH=/home/alice/bin:/bin:/sbin:/usr/bin:/usr/sbin",
            "--env",
            "SHELL",
            "--env",
            "USER",
            "--env",
            "TERM",
            "--interactive",
            "--tty",
            "cub-alpha",
            "/bin/sh",
            "-l",
            "-c",
            "make 'unit tests'",
        ]
    );
    let plain = docker.exec_args(&e, "/bin/sh", &home, false, &Vec::new(), false, true).unwrap();
    assert_eq!(plain.len(), 15);
}

#[test]
fn docker_seed_stream_commands() {
    let docker = docker();
    assert_eq!(
        docker.seed_stream_command(Some(4096)).as_str(),
        "pv --interval 0.1 --force --size 4096 | tar --ignore-zero --directory ~ --extract"
    );
    assert_eq!(
        docker.seed_stream_command(None).as_str(),
        "pv --interval 0.1 --force | tar --ignore-zero --directory ~ --extract"
    );
}

#[test]
fn bubblewrap_run_arguments() {
    let bw = Bubblewrap::new(&host_path("/c"), &host_path("/d"));
    let e = env("alpha");
    let tail = bw.shell_command_args(&Vec::new(), true, false).unwrap();
    let args = bw.run_args(
        &bw.sandbox_hostname(&e, None),
        Some(&host_path("/opt/cub/dev-init.sh")),
        Some(7),
        Some(9),
        &bw.host_home(&e),
        &bw.host_work(&e),
        &EnvPath::from_string(String::from("/home/u")),
        "/bin/sh",
        &tail,
    );
    let strs: Vec<&str> = args.iter().map(|a| a.as_str()).collect();
    assert_eq!(&strs[..7], &[
        "--die-with-parent",
        "--unshare-cgroup",
        "--unshare-ipc",
        "--unshare-pid",
        "--unshare-uts",
        "--hostname",
        "alpha",
    ]);
    assert!(strs.windows(3).any(|w| w == ["--ro-bind-try", "/opt/cub/dev-init.sh", "/cubicle-init.sh"]));
    assert!(strs.windows(3).any(|w| w == ["--file", "7", "/dev/shm/seed.tar"]));
    assert!(strs.windows(2).any(|w| w == ["--seccomp", "9"]));
    assert!(strs.windows(3).any(|w| w == ["--bind", "/c/cubicle/home/alpha", "/home/u"]));
    assert!(strs.windows(3).any(|w| w == ["--bind", "/d/cubicle/work/alpha", "/home/u/w"]));
    assert_eq!(&strs[strs.len() - 5..], &["--", "/bin/sh", "-l", "-c", "/cubicle-init.sh"]);
}

#[test]
fn user_reset_protocol_happy_path() {
    let u = User::new(&host_path("/d"));
    // Kill, save, purge, create, restore, delete backup.
    let (a, s) = u.reset_step(cubicle::user::UserResetState::Start, true);
    assert_eq!(a, cubicle::user::UserResetAction::KillProcesses);
    let s = u.reset_advance(s, a, true);
    assert_eq!(s, cubicle::user::UserResetState::Killed);
    let (a, s) = u.reset_step(s, true);
    assert_eq!(a, cubicle::user::UserResetAction::SaveWorkTree);
    let s = u.reset_advance(s, a, true);
    assert_eq!(s, cubicle::user::UserResetState::BackedUp);
    let (a, s) = u.reset_step(s, true);
    assert_eq!(a, cubicle::user::UserResetAction::PurgeUser);
    let s = u.reset_advance(s, a, true);
    assert_eq!(s, cubicle::user::UserResetState::Purged);
    let (a, s) = u.reset_step(s, true);
    assert_eq!(a, cubicle::user::UserResetAction::CreateUser);
    let s = u.reset_advance(s, a, true);
    assert_eq!(s, cubicle::user::UserResetState::Recreated);
    let (a, s) = u.reset_step(s, true);
    assert_eq!(a, cubicle::user::UserResetAction::RestoreFromBackup);
    let s = u.reset_advance(s, a, true);
    assert_eq!(s, cubicle::user::UserResetState::Restored);
    let (a, s) = u.reset_step(s, true);
    assert_eq!(a, cubicle::user::UserResetAction::DeleteBackup);
    assert_eq!(s, cubicle::user::UserResetState::Done);
    let s = u.reset_advance(cubicle::user::UserResetState::Restored, a, true);
    assert_eq!(s, cubicle::user::UserResetState::Done);
}

#[test]
fn user_reset_protocol_keeps_backup_on_failure() {
    let u = User::new(&host_path("/d"));
    // A purge that fails after the work tree was saved keeps the archive.
    let s = u.reset_advance(
        cubicle::user::UserResetState::BackedUp,
        cubicle::user::UserResetAction::PurgeUser,
        false,
    );
    assert_eq!(s, cubicle::user::UserResetState::FailedKeepBackup);
    let (a, s2) = u.reset_step(s, false);
    assert_eq!(a, cubicle::user::UserResetAction::Stop);
    assert_eq!(s2, cubicle::user::UserResetState::FailedKeepBackup);
    // A save that fails leaves nothing behind to keep.
    let s = u.reset_advance(
        cubicle::user::UserResetState::Killed,
        cubicle::user::UserResetAction::SaveWorkTree,
        false,
    );
    assert_eq!(s, cubicle::user::UserResetState::FailedNoBackup);
}

#[test]
fn user_reset_failure_names_backup() {
    let u = User::new(&host_path("/d"));
    let e = u.reset_failure_error(&env("eg"), 7);
    assert_eq!(
        e.full_message(),
        "failed to reset environment; backup of work tree kept at /d/cubicle/work/eg-7.tar"
    );
}

#[test]
fn container_run_builds_base_before_spawn() {
    let d = docker();
    // Missing container: base image first, then spawn, then the command.
    let (a, s) = d.run_step(ContainerRunState::Start, false, false, false, true);
    assert_eq!(a, ContainerRunAction::BuildBase);
    let s = d.run_advance(s, a, true);
    assert_eq!(s, ContainerRunState::BaseBuilt);
    let (a, s) = d.run_step(s, false, false, false, true);
    assert_eq!(a, ContainerRunAction::SpawnContainer);
    let s = d.run_advance(s, a, true);
    assert_eq!(s, ContainerRunState::ContainerReady);
    let (a, _) = d.run_step(s, true, false, false, true);
    assert_eq!(a, ContainerRunAction::ExecuteCommand);
    let s = d.run_advance(s, a, true);
    assert_eq!(s, ContainerRunState::Done);
}

#[test]
fn container_init_copies_script_then_seeds() {
    let d = docker();
    let (a, s) = d.run_step(ContainerRunState::Start, true, true, true, true);
    assert_eq!(a, ContainerRunAction::CopyInitScript);
    let s = d.run_advance(s, a, true);
    assert_eq!(s, ContainerRunState::ScriptCopied);
    let (a, s) = d.run_step(s, true, true, true, true);
    assert_eq!(a, ContainerRunAction::StreamSeeds);
    let s = d.run_advance(s, a, true);
    assert_eq!(s, ContainerRunState::Seeded);
    let (a, s) = d.run_step(s, true, true, true, true);
    assert_eq!(a, ContainerRunAction::ExecuteCommand);
    let s = d.run_advance(s, a, false);
    assert_eq!(s, ContainerRunState::Failed);
    let (a, _) = d.run_step(s, true, true, true, false);
    assert_eq!(a, ContainerRunAction::Stop);
}

#[test]
fn user_exists_probe_tri_state() {
    let u = User::new(&host_path("/d"));
    assert_eq!(
        u.exists_from_probe(false, false),
        cubicle::EnvironmentExists::NoEnvironment
    );
    assert_eq!(
        u.exists_from_probe(true, true),
        cubicle::EnvironmentExists::FullyExists
    );
    assert_eq!(
        u.exists_from_probe(true, false),
        cubicle::EnvironmentExists::PartiallyExists
    );
}

#[test]
fn docker_listing_union_dedups() {
    let d = docker();
    let containers = vec![String::from("cub-alpha"), String::from("other"), String::from("cub-beta")];
    let volumes = vec![
        String::from("cub-alpha-home"),
        String::from("cub-alpha-work"),
        String::from("cub-gamma-work"),
        String::from("cub-bad name-home"),
    ];
    let envs = d.environments_from_listings(&containers, &volumes);
    let mut names: Vec<&str> = envs.iter().map(|e| e.as_str()).collect();
    names.sort();
    assert_eq!(names, vec!["alpha", "beta", "gamma"]);
}
