//! Package scanning, dependency resolution, and the update loop.

use cubicle::cache::CacheEntry;
use cubicle::cubicle::{Config, Cubicle, RunnerKind, ShouldPackageUpdate, UpdatePackagesConditions};
use cubicle::names::{FullPackageName, PackageName, PackageNamespace};
use cubicle::paths::HostPath;
use cubicle::registry::{DiscoveredPackage, Manifest};

fn host_path(s: &str) -> HostPath {
    HostPath::from_string(String::from(s))
}

fn config() -> Config {
    Config {
        runner: RunnerKind::Bubblewrap,
        auto_update: None,
        docker_bind_mounts: false,
        docker_strict_debian_packages: true,
        docker_prefix: String::from("cub-"),
        docker_slim: false,
    }
}

fn package(name: &str, depends: &[&str], has_update: bool) -> DiscoveredPackage {
    DiscoveredPackage {
        name: PackageName::from_str(name).unwrap(),
        manifest: Manifest {
            package_manager: false,
            depends: depends
                .iter()
                .map(|d| FullPackageName::from_str(d).unwrap())
                .collect(),
            build_depends: Vec::new(),
        },
        dir: host_path(&format!("/src/{name}")),
        origin: String::from("built-in"),
        has_update,
        has_test: false,
        last_modified: 1,
    }
}

fn program(discovered: Vec<DiscoveredPackage>) -> Cubicle {
    Cubicle::new(
        config(),
        String::from("/bin/sh"),
        String::from("cub"),
        host_path("/opt/cub"),
        None,
        host_path("/home/user"),
        String::from("user"),
        host_path("/home/user/.cache/cubicle/packages"),
        discovered,
    )
}

fn if_stale() -> UpdatePackagesConditions {
    UpdatePackagesConditions {
        dependencies: ShouldPackageUpdate::IfStale,
        named: ShouldPackageUpdate::IfStale,
    }
}

fn full(name: &str) -> FullPackageName {
    FullPackageName::from_str(name).unwrap()
}

#[test]
fn update_builds_dependency_before_dependent() {
    // the package with one dependency: B depends on A
    let mut program = program(vec![
        package("auto", &[], true),
        package("a", &[], true),
        package("b", &["a"], true),
    ]);
    let specs = program.scan_packages().unwrap();
    let targets = vec![full("b")];
    program.update_packages(&targets, &specs, &if_stale()).unwrap();

    let built_a = program.cache.last_built("a").expect("a should have an artifact");
    let built_b = program.cache.last_built("b").expect("b should have an artifact");
    assert!(built_a <= built_b, "a must be finished before b");
    assert!(!program.cache.build_failed("a"));
    assert!(!program.cache.build_failed("b"));
}

#[test]
fn update_success_leaves_artifact_and_no_marker() {
    let mut program = program(vec![package("auto", &[], true), package("p", &[], true)]);
    let specs = program.scan_packages().unwrap();
    let targets = vec![full("p")];
    program.update_packages(&targets, &specs, &if_stale()).unwrap();
    assert!(program.cache.last_built("p").is_some());
    assert!(!program.cache.build_failed("p"));
    assert!(program.cache.last_built("auto").is_some());
}

#[test]
fn update_unsatisfiable_dependencies() {
    let mut program = program(vec![
        package("auto", &[], true),
        package("x", &["missing"], true),
    ]);
    let specs = program.scan_packages().unwrap();
    let targets = vec![full("x")];
    let err = program.update_packages(&targets, &specs, &if_stale()).unwrap_err();
    let message = err.full_message();
    assert!(message.as_str().contains("unsatisfiable"), "message was: {message}");
    assert!(message.as_str().contains("x"), "message was: {message}");
    assert_eq!(err.error_kind(), cubicle::error::ErrorKind::MissingObject);
}

#[test]
fn update_stale_fallback_keeps_old_artifact() {
    let mut program = program(vec![package("auto", &[], true), package("p", &[], true)]);
    program.now = 10;
    program.cache.entries.push(CacheEntry {
        key: String::from("p"),
        tar_mtime: Some(5),
        tar_size: None,
        testing_mtime: None,
        failed: false,
    });
    program.build_outcomes.push((String::from("p"), false));
    let specs = program.scan_packages().unwrap();
    let targets = vec![full("p")];
    let conditions = UpdatePackagesConditions {
        dependencies: ShouldPackageUpdate::IfStale,
        named: ShouldPackageUpdate::Always,
    };
    program.update_packages(&targets, &specs, &conditions).unwrap();
    assert!(program.cache.build_failed("p"), "the failure marker must be left");
    assert_eq!(program.cache.last_built("p"), Some(5), "the old artifact must survive");
    assert!(
        program.warnings.iter().any(|w| w.as_str() == "using stale version of p"),
        "the fallback must be announced"
    );
}

#[test]
fn update_failure_without_artifact_propagates() {
    let mut program = program(vec![package("auto", &[], true), package("p", &[], true)]);
    program.build_outcomes.push((String::from("p"), false));
    let specs = program.scan_packages().unwrap();
    let targets = vec![full("p")];
    let err = program.update_packages(&targets, &specs, &if_stale());
    assert!(err.is_err());
    assert!(program.cache.build_failed("p"));
    assert!(program.cache.last_built("p").is_none());
}

#[test]
fn update_if_required_skips_existing_artifact() {
    let mut program = program(vec![package("auto", &[], true), package("p", &[], true)]);
    program.now = 10;
    program.cache.entries.push(CacheEntry {
        key: String::from("p"),
        tar_mtime: Some(5),
        tar_size: None,
        testing_mtime: None,
        failed: false,
    });
    program.cache.entries.push(CacheEntry {
        key: String::from("auto"),
        tar_mtime: Some(5),
        tar_size: None,
        testing_mtime: None,
        failed: false,
    });
    let specs = program.scan_packages().unwrap();
    let targets = vec![full("p")];
    let conditions = UpdatePackagesConditions {
        dependencies: ShouldPackageUpdate::IfRequired,
        named: ShouldPackageUpdate::IfRequired,
    };
    program.update_packages(&targets, &specs, &conditions).unwrap();
    assert_eq!(program.cache.last_built("p"), Some(5), "nothing to rebuild");
}

#[test]
fn auto_is_a_dependency_outside_its_own_closure() {
    // auto needs x to build, so x (and auto itself) lose the implicit edge,
    // while y keeps it
    let mut auto = package("auto", &["x"], true);
    auto.manifest.depends = vec![FullPackageName::from_str("x").unwrap()];
    let discovered = vec![auto, package("x", &[], true), package("y", &[], true)];
    let program = program(discovered);
    let specs = program.scan_packages().unwrap();

    let depends_of = |name: &str| -> Vec<String> {
        specs
            .get(name)
            .unwrap()
            .manifest
            .depends
            .iter()
            .map(|d| d.unquoted())
            .collect()
    };
    assert!(depends_of("y").contains(&String::from("auto")));
    assert!(!depends_of("x").contains(&String::from("auto")));
    assert!(!depends_of("auto").contains(&String::from("auto")));
}

#[test]
fn scan_prefers_first_discovery() {
    let first = package("p", &[], true);
    let mut second = package("p", &[], false);
    second.origin = String::from("user");
    let program = program(vec![package("auto", &[], true), first, second]);
    let specs = program.scan_packages().unwrap();
    assert_eq!(specs.get("p").unwrap().origin.as_str(), "built-in");
}

#[test]
fn package_is_stale_on_newer_dependency() {
    let mut program = program(vec![
        package("auto", &[], true),
        package("a", &[], true),
        package("b", &["a"], true),
    ]);
    program.now = 100;
    program.cache.entries.push(CacheEntry {
        key: String::from("b"),
        tar_mtime: Some(10),
        tar_size: None,
        testing_mtime: None,
        failed: false,
    });
    program.cache.entries.push(CacheEntry {
        key: String::from("a"),
        tar_mtime: Some(50),
        tar_size: None,
        testing_mtime: None,
        failed: false,
    });
    let specs = program.scan_packages().unwrap();
    let b = full("b");
    assert!(program.package_is_stale(&b, specs.get("b").unwrap()));
    let a = full("a");
    assert!(!program.package_is_stale(&a, specs.get("a").unwrap()));
}

#[test]
fn package_names_listing() {
    let mut program = program(vec![package("auto", &[], true), package("p", &[], true)]);
    program.cache.entries.push(CacheEntry {
        key: String::from("debian.curl"),
        tar_mtime: Some(0),
        tar_size: None,
        testing_mtime: None,
        failed: false,
    });
    let names: Vec<String> = program
        .get_package_names()
        .iter()
        .map(|n| n.unquoted())
        .collect();
    assert_eq!(names, vec!["auto", "debian.curl", "p"]);
}

#[test]
fn managed_namespace_requires_package_manager() {
    let mut manager = package("pyenv", &[], true);
    manager.manifest.package_manager = false;
    let mut program = program(vec![package("auto", &[], true), manager]);
    let specs = program.scan_packages().unwrap();
    let targets = vec![full("pyenv.numpy")];
    let err = program.update_packages(&targets, &specs, &if_stale()).unwrap_err();
    assert!(err.full_message().as_str().contains("not a package manager"));
    assert_eq!(err.error_kind(), cubicle::error::ErrorKind::DependencyGraph);
}

#[test]
fn package_details_reflect_cache_state() {
    let mut program = program(vec![package("auto", &[], true), package("p", &["debian.curl"], true)]);
    program.now = 10;
    program.cache.entries.push(CacheEntry {
        key: String::from("p"),
        tar_mtime: Some(4),
        tar_size: Some(2048),
        testing_mtime: None,
        failed: true,
    });
    program.cache.entries.push(CacheEntry {
        key: String::from("debian.curl"),
        tar_mtime: Some(2),
        tar_size: None,
        testing_mtime: None,
        failed: false,
    });
    let details = program.get_packages().unwrap();
    let find = |name: &str| {
        details
            .iter()
            .find(|(n, _)| n.unquoted() == name)
            .map(|(_, d)| d)
            .unwrap()
    };
    let p = find("p");
    assert_eq!(p.built, Some(4));
    assert_eq!(p.size, Some(2048));
    assert!(p.last_build_failed);
    assert_eq!(p.origin.as_str(), "built-in");
    assert!(!p.package_manager);
    assert_eq!(p.dir.as_ref().unwrap().as_str(), "/src/p");
    assert_eq!(p.edited, Some(1));
    assert!(p.depends.contains(&String::from("debian.curl")));
    assert!(p.depends.contains(&String::from("auto")));
    let curl = find("debian.curl");
    assert_eq!(curl.built, Some(2));
    assert_eq!(curl.size, None);
    assert!(!curl.last_build_failed);
    assert_eq!(curl.origin.as_str(), "N/A");
    assert!(curl.depends.is_empty());
    assert!(curl.build_depends.is_empty());
    assert!(curl.dir.is_none());
    assert!(curl.edited.is_none());
    assert!(!curl.package_manager);
}
