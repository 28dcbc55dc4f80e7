//! Name validation, parsing, display and ordering.

use cubicle::names::{EnvironmentName, FullPackageName, PackageName, PackageNamespace};
use cubicle::sets::sort_names;

fn parse(s: &str) -> FullPackageName {
    FullPackageName::from_str(s).unwrap()
}

#[test]
fn full_package_name_ord() {
    let names = ["d", "c.x", "c", "b", "b.a"]
        .into_iter()
        .map(|s| FullPackageName::from_str(s).unwrap())
        .collect::<Vec<_>>();
    let sorted = sort_names(names);

    assert_eq!(
        "b b.a c c.x d",
        sorted.iter().map(|name| name.unquoted()).collect::<Vec<_>>().join(" ")
    );
}

#[test]
fn full_package_name_sort_by_cmp() {
    let mut names = ["d", "c.x", "c", "b", "b.a"]
        .into_iter()
        .map(|s| FullPackageName::from_str(s).unwrap())
        .collect::<Vec<_>>();
    names.sort_by(|a, b| a.cmp(b));
    assert_eq!(
        "b b.a c c.x d",
        names.iter().map(|name| name.unquoted()).collect::<Vec<_>>().join(" ")
    );
}

#[test]
fn full_package_name_parsing() {
    let x = parse("x");
    assert!(matches!(x.0, PackageNamespace::Root));
    assert_eq!(x.1.as_str(), "x");

    let curl = parse("debian.curl");
    assert!(matches!(curl.0, PackageNamespace::Debian));
    assert_eq!(curl.1.as_str(), "curl");

    let y = parse("cubicle.y");
    assert!(matches!(y.0, PackageNamespace::Root));
    assert_eq!(y.1.as_str(), "y");

    let numpy = parse("pyenv.numpy");
    match &numpy.0 {
        PackageNamespace::Managed(m) => assert_eq!(m.as_str(), "pyenv"),
        _ => panic!("expected a managed namespace"),
    }
    assert_eq!(numpy.1.as_str(), "numpy");
}

#[test]
fn full_package_name_display_round_trips() {
    for s in ["x", "debian.curl", "cubicle.y", "pyenv.numpy"] {
        let name = parse(s);
        let shown = name.unquoted();
        let again = parse(&shown);
        assert_eq!(again.unquoted(), shown);
        assert!(again == name);
    }
}

#[test]
fn environment_name_rejects_bad_input() {
    assert!(EnvironmentName::from_str("").is_err());
    assert!(EnvironmentName::from_str("   ").is_err());
    assert!(EnvironmentName::from_str("a b").is_err());
    assert!(EnvironmentName::from_str("a/b").is_err());
    assert!(EnvironmentName::from_str(".").is_err());
    assert!(EnvironmentName::from_str("..").is_err());
    assert!(EnvironmentName::from_str("a.b").is_err());
    assert!(EnvironmentName::from_str("a\u{7}b").is_err());
    assert!(EnvironmentName::from_str("tab\tname").is_err());
}

#[test]
fn environment_name_accepts_ordinary_names() {
    assert_eq!(EnvironmentName::from_str("alpha").unwrap().as_str(), "alpha");
    assert_eq!(EnvironmentName::from_str("a-b_c9").unwrap().as_str(), "a-b_c9");
    assert_eq!(EnvironmentName::from_str("  padded  ").unwrap().as_str(), "padded");
}

#[test]
fn package_name_rejects_bad_input() {
    assert!(PackageName::from_str("").is_err());
    assert!(PackageName::from_str("  ").is_err());
    assert!(PackageName::from_str("a b").is_err());
    assert!(PackageName::from_str("a/b").is_err());
    assert!(PackageName::from_str("a\u{1}b").is_err());
}

#[test]
fn package_name_accepts_dots_dashes_underscores() {
    assert_eq!(PackageName::from_str("a.b").unwrap().as_str(), "a.b");
    assert_eq!(PackageName::from_str("a-b").unwrap().as_str(), "a-b");
    assert_eq!(PackageName::from_str("a_b").unwrap().as_str(), "a_b");
    assert_eq!(PackageName::from_str(" auto ").unwrap().as_str(), "auto");
}

#[test]
fn builder_environment_names() {
    let p = parse("rust");
    let env = EnvironmentName::for_builder_package(&p).unwrap();
    assert_eq!(env.as_str(), "package-rust");

    let namespaced = parse("pyenv.numpy");
    assert!(EnvironmentName::for_builder_package(&namespaced).is_err());
}
