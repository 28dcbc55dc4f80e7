//! Seed archives: the package-list tar and concatenated-seed semantics.

use std::io::Read;

use cubicle::archive::write_package_list_tar;
use cubicle::error::{Context, Error, ErrorKind};
use cubicle::names::FullPackageName;

fn names(list: &[&str]) -> Vec<FullPackageName> {
    list.iter().map(|s| FullPackageName::from_str(s).unwrap()).collect()
}

fn read_entries(bytes: &[u8], ignore_zeros: bool) -> Vec<(String, Vec<u8>)> {
    let mut archive = tar::Archive::new(bytes);
    archive.set_ignore_zeros(ignore_zeros);
    let mut out = Vec::new();
    for entry in archive.entries().unwrap() {
        let mut entry = entry.unwrap();
        let path = entry.path().unwrap().to_string_lossy().into_owned();
        let mut content = Vec::new();
        entry.read_to_end(&mut content).unwrap();
        out.push((path, content));
    }
    out
}

#[test]
fn package_list_tar_holds_one_sorted_list() {
    let bytes = write_package_list_tar(&names(&["d", "b", "debian.curl"]), 7).unwrap();
    let entries = read_entries(&bytes, false);
    assert_eq!(entries.len(), 1);
    assert_eq!(entries[0].0, "w/packages.txt");
    assert_eq!(entries[0].1, b"b\nd\ndebian.curl\n");
}

#[test]
fn package_list_tar_is_deterministic() {
    let a = write_package_list_tar(&names(&["x", "y"]), 3).unwrap();
    let b = write_package_list_tar(&names(&["y", "x"]), 3).unwrap();
    assert_eq!(a, b);
}

#[test]
fn concatenated_seeds_extract_as_one_sequence() {
    // two whole archives back to back, zero padding between them: with
    // ignore-zero semantics both entries come out; without, only the first
    let first = write_package_list_tar(&names(&["a"]), 1).unwrap();
    let second = {
        let content = b"hello".to_vec();
        let mut header = tar::Header::new_gnu();
        header.set_mtime(2);
        header.set_uid(0);
        header.set_gid(0);
        header.set_mode(0o644);
        header.set_size(content.len() as u64);
        let mut builder = tar::Builder::new(Vec::new());
        builder.append_data(&mut header, "w/hello.txt", content.as_slice()).unwrap();
        builder.into_inner().unwrap()
    };
    let mut joined = first.clone();
    joined.extend_from_slice(&second);

    let all = read_entries(&joined, true);
    assert_eq!(all.len(), 2);
    assert_eq!(all[0].0, "w/packages.txt");
    assert_eq!(all[0].1, b"a\n");
    assert_eq!(all[1].0, "w/hello.txt");
    assert_eq!(all[1].1, b"hello");

    let stops_early = read_entries(&joined, false);
    assert_eq!(stops_early.len(), 1);
}

#[test]
fn error_full_message_reads_outermost_first() {
    let inner: Result<(), Error> = Err(Error::new(
        ErrorKind::Io,
        String::from("file not found: packages.txt"),
    ));
    let wrapped = inner.context(String::from("failed to read package list")).unwrap_err();
    assert_eq!(
        wrapped.full_message().as_str(),
        "failed to read package list: file not found: packages.txt"
    );
    assert_eq!(wrapped.message().as_str(), "file not found: packages.txt");
    assert_eq!(wrapped.error_kind(), ErrorKind::Io);
}

#[test]
fn package_list_tar_drops_duplicates() {
    let once = write_package_list_tar(&names(&["a", "b"]), 3).unwrap();
    let twice = write_package_list_tar(&names(&["b", "a", "b", "a"]), 3).unwrap();
    assert_eq!(once, twice);
}
