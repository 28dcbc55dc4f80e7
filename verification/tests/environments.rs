//! Environment lifecycle: the runner contract and the orchestrator flows.

use cubicle::EnvironmentExists;
use cubicle::cache::CacheEntry;
use cubicle::cubicle::{Config, Cubicle, Quiet, RunnerKind};
use cubicle::names::{EnvironmentName, PackageName};
use cubicle::paths::HostPath;
use cubicle::registry::{DiscoveredPackage, Manifest};
use cubicle::runner::{EnvRegistry, EnvState, Init, RunnerCommand};

fn host_path(s: &str) -> HostPath {
    HostPath::from_string(String::from(s))
}

fn env(name: &str) -> EnvironmentName {
    EnvironmentName::from_str(name).unwrap()
}

fn init(packages_txt: Option<&str>, succeeds: bool) -> Init {
    Init {
        seeds: Vec::new(),
        packages_txt: packages_txt.map(String::from),
        script: host_path("/opt/cub/dev-init.sh"),
        debian_packages: Vec::new(),
        env_vars: Vec::new(),
        script_succeeds: succeeds,
    }
}

fn simple_package(name: &str) -> DiscoveredPackage {
    DiscoveredPackage {
        name: PackageName::from_str(name).unwrap(),
        manifest: Manifest {
            package_manager: false,
            depends: Vec::new(),
            build_depends: Vec::new(),
        },
        dir: host_path(&format!("/src/{name}")),
        origin: String::from("built-in"),
        has_update: true,
        has_test: false,
        last_modified: 1,
    }
}

fn program() -> Cubicle {
    Cubicle::new(
        Config {
            runner: RunnerKind::Bubblewrap,
            auto_update: None,
            docker_bind_mounts: false,
            docker_strict_debian_packages: true,
            docker_prefix: String::from("cub-"),
            docker_slim: false,
        },
        String::from("/bin/sh"),
        String::from("cub"),
        host_path("/opt/cub"),
        None,
        host_path("/home/user"),
        String::from("user"),
        host_path("/home/user/.cache/cubicle/packages"),
        vec![simple_package("auto"), simple_package("default")],
    )
}

#[test]
fn create_makes_environment_fully_exist() {
    let mut runner = EnvRegistry::new();
    let alpha = env("alpha");
    runner.create(&alpha, &init(None, true)).unwrap();
    assert_eq!(runner.exists_state(&alpha), EnvironmentExists::FullyExists);
}

#[test]
fn create_rejects_existing_environment() {
    let mut runner = EnvRegistry::new();
    let alpha = env("alpha");
    runner.create(&alpha, &init(None, true)).unwrap();
    assert!(runner.create(&alpha, &init(None, true)).is_err());
}

#[test]
fn purge_removes_environment_and_listing() {
    let mut runner = EnvRegistry::new();
    let alpha = env("alpha");
    runner.create(&alpha, &init(None, true)).unwrap();
    runner.purge(&alpha).unwrap();
    assert_eq!(runner.exists_state(&alpha), EnvironmentExists::NoEnvironment);
    assert!(!runner.list().iter().any(|n| n == &alpha));
    // purging again quietly succeeds
    runner.purge(&alpha).unwrap();
}

#[test]
fn no_environment_means_unlisted_and_no_instance() {
    let mut runner = EnvRegistry::new();
    let gone = env("gone");
    assert_eq!(runner.exists_state(&gone), EnvironmentExists::NoEnvironment);
    assert!(!runner.list().iter().any(|n| n == &gone));

    // a live instance with no storage is listed and partially exists
    runner.envs.push(EnvState {
        name: env("ghost"),
        has_home: false,
        has_work: false,
        has_instance: true,
        has_provides: false,
        packages_txt: None,
    });
    let ghost = env("ghost");
    assert_eq!(runner.exists_state(&ghost), EnvironmentExists::PartiallyExists);
    assert!(runner.list().iter().any(|n| n == &ghost));
}

#[test]
fn reset_requires_something_and_preserves_work() {
    let mut runner = EnvRegistry::new();
    let alpha = env("alpha");
    assert!(runner.reset(&alpha, &init(None, true)).is_err());

    runner.create(&alpha, &init(Some("default\n"), true)).unwrap();
    runner.reset(&alpha, &init(None, true)).unwrap();
    // the package list lives in the work tree, which a reset preserves
    let content = runner.copy_out_from_work(&alpha, "packages.txt").unwrap();
    assert_eq!(content.as_str(), "default\n");
}

#[test]
fn copy_out_from_work_returns_seeded_bytes() {
    let mut runner = EnvRegistry::new();
    let alpha = env("alpha");
    runner.create(&alpha, &init(Some("a\nb\n"), true)).unwrap();
    let content = runner.copy_out_from_work(&alpha, "packages.txt").unwrap();
    assert_eq!(content.as_str(), "a\nb\n");
    let err = runner.copy_out_from_work(&alpha, "other.txt").unwrap_err();
    assert_eq!(err.error_kind(), cubicle::error::ErrorKind::Io);
}

#[test]
fn run_requires_fully_existing_environment() {
    let mut runner = EnvRegistry::new();
    let alpha = env("alpha");
    assert!(runner.run(&alpha, &RunnerCommand::Interactive).is_err());
    runner.create(&alpha, &init(None, true)).unwrap();
    runner.run(&alpha, &RunnerCommand::Interactive).unwrap();
    let exec_ok = RunnerCommand::Exec(vec![String::from("true")], true);
    runner.run(&alpha, &exec_ok).unwrap();
    let exec_bad = RunnerCommand::Exec(vec![String::from("false")], false);
    assert!(runner.run(&alpha, &exec_bad).is_err());
}

#[test]
fn new_empty_environment() {
    let mut program = program();
    let alpha = env("alpha");
    assert_eq!(program.runner.exists_state(&alpha), EnvironmentExists::NoEnvironment);
    program.new_environment(&alpha, None).unwrap();
    assert_eq!(program.runner.exists_state(&alpha), EnvironmentExists::FullyExists);
    assert!(program.get_environment_names().iter().any(|n| n == &alpha));
    let content = program.runner.copy_out_from_work(&alpha, "packages.txt").unwrap();
    assert_eq!(content.as_str(), "default\n");
}

#[test]
fn new_environment_rejects_existing() {
    let mut program = program();
    let alpha = env("alpha");
    program.new_environment(&alpha, None).unwrap();
    let err = program.new_environment(&alpha, None).unwrap_err();
    assert_eq!(
        err.full_message(),
        "environment alpha already exists (did you mean reset?)"
    );
    assert_eq!(err.error_kind(), cubicle::error::ErrorKind::InconsistentState);
}

#[test]
fn reset_names_missing_environment() {
    let mut program = program();
    let err = program.reset_environment(&env("ghost"), None).unwrap_err();
    assert_eq!(
        err.full_message(),
        "environment ghost does not exist (did you mean new?)"
    );
    assert_eq!(err.error_kind(), cubicle::error::ErrorKind::MissingObject);
}

#[test]
fn reset_reads_package_list_from_environment() {
    let mut program = program();
    let alpha = env("alpha");
    program.new_environment(&alpha, None).unwrap();
    program.reset_environment(&alpha, None).unwrap();
    let content = program.runner.copy_out_from_work(&alpha, "packages.txt").unwrap();
    assert_eq!(content.as_str(), "default\n");
}

#[test]
fn purge_environment_flow() {
    let mut program = program();
    let alpha = env("alpha");
    program.new_environment(&alpha, None).unwrap();
    program.purge_environment(&alpha, Quiet(false)).unwrap();
    assert_eq!(program.runner.exists_state(&alpha), EnvironmentExists::NoEnvironment);
    assert!(program.warnings.is_empty());
    // purging what does not exist succeeds but warns, unless asked to be quiet
    program.purge_environment(&alpha, Quiet(false)).unwrap();
    assert_eq!(
        program.warnings.last().map(|w| w.as_str()),
        Some("environment alpha does not exist (nothing to purge)")
    );
    program.purge_environment(&alpha, Quiet(true)).unwrap();
    assert_eq!(program.warnings.len(), 1);
}

#[test]
fn enter_rejects_missing_or_broken() {
    let mut program = program();
    let alpha = env("alpha");
    let missing = program.enter_environment(&alpha).unwrap_err();
    assert_eq!(missing.error_kind(), cubicle::error::ErrorKind::MissingObject);
    program.runner.envs.push(EnvState {
        name: env("broken"),
        has_home: true,
        has_work: false,
        has_instance: false,
        has_provides: false,
        packages_txt: None,
    });
    let broken = env("broken");
    let err = program.enter_environment(&broken).unwrap_err();
    assert_eq!(err.error_kind(), cubicle::error::ErrorKind::InconsistentState);
}

#[test]
fn tmp_environment_flow() {
    let mut program = program();
    assert!(program.create_enter_tmp_environment("cubx", None).is_err());
    program.create_enter_tmp_environment("otter", None).unwrap();
    let tmp = env("tmp-otter");
    assert_eq!(program.runner.exists_state(&tmp), EnvironmentExists::FullyExists);
    // the same word cannot be used twice
    assert!(program.create_enter_tmp_environment("otter", None).is_err());
}

#[test]
fn failed_env_init_reports_subprocess_error() {
    let mut program = program();
    program.env_init_outcomes.push((String::from("alpha"), false));
    let alpha = env("alpha");
    let err = program.new_environment(&alpha, None).unwrap_err();
    assert_eq!(err.error_kind(), cubicle::error::ErrorKind::Subprocess);
    // the storage was still allocated before the script ran
    assert_eq!(program.runner.exists_state(&alpha), EnvironmentExists::FullyExists);
}

#[test]
fn stale_cache_mtime_is_tolerated() {
    let mut program = program();
    program.now = 10;
    program.cache.entries.push(CacheEntry {
        key: String::from("default"),
        tar_mtime: Some(3),
        tar_size: None,
        testing_mtime: None,
        failed: false,
    });
    let alpha = env("alpha");
    program.new_environment(&alpha, None).unwrap();
}
