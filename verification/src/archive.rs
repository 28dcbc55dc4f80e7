//! Seed-archive framing, through the `tar` crate.
//!
//! The one archive this library writes itself is the package-list seed: a
//! stream whose single entry is `w/packages.txt`. The exact bytes of a tar
//! stream are a function of the entry name, content and metadata alone;
//! they are named ([`tar_archive_of`]) rather than restated.

use vstd::prelude::*;
use crate::error::{Error, ErrorKind};
use crate::names::{FullPackageName, NamespaceView};
use crate::registry::{contains_full, views_of};
use crate::sets::{sort_names, sorted_by_display};

verus! {

/// The bytes of a tar stream holding one file with this name, content and
/// modification time (written with fixed ownership and mode).
pub uninterp spec fn tar_archive_of(name: Seq<char>, content: Seq<u8>, mtime: u64) -> Seq<u8>;

/// An entry name tar's header accepts outright: short enough for the plain
/// name field, ASCII (so valid Unicode and free of nul bytes), relative,
/// with no empty trailing component and no component starting with a dot
/// (so neither `.` nor `..`).
pub open spec fn simple_tar_name(s: Seq<char>) -> bool {
    &&& 0 < s.len() < 100
    &&& forall|i: int|
        0 <= i < s.len() ==> (crate::text::is_ascii_alnum(#[trigger] s[i]) || s[i] == '/' || s[i]
            == '.' || s[i] == '_' || s[i] == '-')
    &&& s[0] != '/'
    &&& s.last() != '/'
    &&& forall|i: int| 0 <= i < s.len() && (i == 0 || s[i - 1] == '/') ==> #[trigger] s[i] != '.'
}

/// Writes a tar stream holding one file.
///
/// Relies on tar's `Builder` and `Header`: appending one data entry and
/// finishing produces a well-formed stream, a deterministic function of the
/// entry's name, content and header fields (set here to the given
/// modification time, ownership zero and mode `0o644`). For a
/// [`simple_tar_name`] the call succeeds: the header's `set_path` accepts
/// such a name directly, and writing into an in-memory buffer cannot fail.
#[verifier::external_body]
fn tar_single_file(name: &str, content: &Vec<u8>, mtime: u64) -> (r: Result<Vec<u8>, Error>)
    ensures
        r matches Ok(bytes) ==> bytes@ == tar_archive_of(name@, content@, mtime),
        r matches Err(e) ==> e.kind == ErrorKind::Io,
        simple_tar_name(name@) ==> r is Ok,
{
    let mut header = tar::Header::new_gnu();
    header.set_mtime(mtime);
    header.set_uid(0);
    header.set_gid(0);
    header.set_mode(0o644);
    header.set_size(content.len() as u64);
    let mut builder = tar::Builder::new(std::vec::Vec::new());
    if let Err(e) = builder.append_data(&mut header, name, content.as_slice()) {
        return Err(Error::new(ErrorKind::Io, e.to_string()));
    }
    match builder.into_inner() {
        Ok(bytes) => Ok(bytes),
        Err(e) => Err(Error::new(ErrorKind::Io, e.to_string())),
    }
}

/// The given names with repeats dropped: each distinct name once, in first
/// appearance order.
fn unique_names(v: Vec<FullPackageName>) -> (r: Vec<FullPackageName>)
    ensures
        views_of(r@).no_duplicates(),
        views_of(r@).to_set() == views_of(v@).to_set(),
{
    let mut out: Vec<FullPackageName> = Vec::new();
    let mut i: usize = 0;
    while i < v.len()
        invariant
            i <= v@.len(),
            views_of(out@).no_duplicates(),
            views_of(out@).to_set() == views_of(v@.take(i as int)).to_set(),
        decreases v@.len() - i,
    {
        let x = v[i].clone();
        let ghost before = views_of(out@);
        if !contains_full(&out, &x) {
            out.push(x);
            proof {
                assert(views_of(out@) =~= before.push(v@[i as int]@));
                assert(views_of(out@).no_duplicates()) by {
                    assert forall|a: int, b: int|
                        0 <= a < b < views_of(out@).len() implies views_of(out@)[a] != views_of(
                        out@,
                    )[b] by {
                        if b == before.len() {
                            assert(views_of(out@)[a] == before[a]);
                            if before[a] == v@[i as int]@ {
                                assert(before.contains(before[a]));
                            }
                        }
                    }
                }
            }
        }
        proof {
            assert(views_of(v@.take(i + 1)) =~= views_of(v@.take(i as int)).push(v@[i as int]@));
            assert(views_of(out@).to_set() =~= views_of(v@.take(i + 1)).to_set()) by {
                assert forall|q: (NamespaceView, Seq<char>)| #[trigger]
                    views_of(out@).contains(q) implies views_of(v@.take(i + 1)).contains(q) by {
                    if q != v@[i as int]@ {
                        assert(views_of(v@.take(i as int)).to_set().contains(q));
                        let k = choose|k: int|
                            0 <= k < views_of(v@.take(i as int)).len() && views_of(
                                v@.take(i as int),
                            )[k] == q;
                        assert(views_of(v@.take(i + 1))[k] == q);
                    } else {
                        assert(views_of(v@.take(i + 1)).last() == q);
                    }
                }
                assert forall|q: (NamespaceView, Seq<char>)| #[trigger]
                    views_of(v@.take(i + 1)).contains(q) implies views_of(out@).contains(q) by {
                    let k = choose|k: int|
                        0 <= k < views_of(v@.take(i + 1)).len() && (#[trigger] views_of(
                            v@.take(i + 1),
                        )[k]) == q;
                    if k < i {
                        assert(views_of(v@.take(i as int))[k] == q);
                        assert(views_of(v@.take(i as int)).to_set().contains(q));
                        assert(before.contains(q));
                        let m = choose|m: int| 0 <= m < before.len() && before[m] == q;
                        assert(views_of(out@)[m] == q);
                    } else {
                        assert(q == v@[i as int]@);
                        if before.contains(q) {
                            let m = choose|m: int| 0 <= m < before.len() && before[m] == q;
                            assert(views_of(out@)[m] == q);
                        } else {
                            assert(views_of(out@).last() == q);
                        }
                    }
                }
            }
        }
        i += 1;
    }
    proof {
        assert(v@.take(v@.len() as int) =~= v@);
    }
    out
}

/// Writes the package-list seed: a tar stream whose single entry,
/// `w/packages.txt`, lists the given packages' distinct display names,
/// sorted, one per line; a name given twice appears once.
pub fn write_package_list_tar(packages: &Vec<FullPackageName>, mtime: u64) -> (r: Result<
    Vec<u8>,
    Error,
>)
    ensures
        r is Ok,
        r matches Ok(bytes) ==> (exists|t: Seq<(NamespaceView, Seq<char>)>|
            #[trigger] sorted_by_display(t) && t.no_duplicates() && t.to_set() == views_of(
                packages@,
            ).to_set() && bytes@ == tar_archive_of(
                "w/packages.txt"@,
                vstd::utf8::encode_utf8(crate::cubicle::lines_of_names(t)),
                mtime,
            )),
{
    let unique = unique_names(crate::registry::clone_names(packages));
    let ghost uv = views_of(unique@);
    let sorted = sort_names(unique);
    let content = crate::cubicle::package_list_content(&sorted);
    let bytes = content.as_str().as_bytes_vec();
    proof {
        reveal_strlit("w/packages.txt");
        assert(simple_tar_name("w/packages.txt"@));
    }
    let r = tar_single_file("w/packages.txt", &bytes, mtime);
    proof {
        broadcast use vstd::seq_lib::to_multiset_contains;

        if r is Ok {
            let t = views_of(sorted@);
            uv.lemma_multiset_has_no_duplicates();
            assert forall|x: (NamespaceView, Seq<char>)| t.to_multiset().contains(x) implies t
                .to_multiset().count(x) == 1 by {
                assert(uv.to_multiset().contains(x));
            }
            t.lemma_multiset_has_no_duplicates_conv();
            assert(t.to_set() =~= views_of(packages@).to_set()) by {
                assert forall|x: (NamespaceView, Seq<char>)|
                    t.contains(x) == uv.contains(x) by {
                    assert(t.contains(x) == (t.to_multiset().count(x) > 0));
                    assert(uv.contains(x) == (uv.to_multiset().count(x) > 0));
                }
            }
            assert(sorted_by_display(t) && t.no_duplicates() && t.to_set() == views_of(
                packages@,
            ).to_set() && r->Ok_0@ == tar_archive_of(
                "w/packages.txt"@,
                vstd::utf8::encode_utf8(crate::cubicle::lines_of_names(t)),
                mtime,
            ));
        }
    }
    r
}

} // verus!
