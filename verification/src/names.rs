//! Validated identifiers: package names, package namespaces, fully-qualified
//! package names, and environment names.
//!
//! A package name is a non-empty string of ASCII alphanumerics plus `-`, `_`
//! and `.` (plus non-ASCII characters that are neither control characters nor
//! whitespace). An environment name or namespace name is the same but without
//! `.`. Inside a [`PackageName`] a `.` is an ordinary character; only the
//! string form of a [`FullPackageName`] uses `.` to separate the namespace
//! from the name.

use vstd::prelude::*;
use core::cmp::Ordering;
use crate::error::{Error, ErrorKind};
use crate::text::{
    ascii_alnum, concat3, find_char, is_ascii_alnum, is_control_char, is_space_char, lex_cmp_of,
    space_char, str_equal, str_lex_cmp, trim, trim_of, find_char_of,
};

verus! {

/// Characters allowed in environment names and namespace names.
pub open spec fn is_name_char(c: char) -> bool {
    ||| is_ascii_alnum(c)
    ||| c == '-'
    ||| c == '_'
    ||| ((c as u32) >= 0x80 && !is_control_char(c) && !is_space_char(c))
}

/// Characters allowed in package names: name characters plus `.`.
pub open spec fn is_package_char(c: char) -> bool {
    is_name_char(c) || c == '.'
}

/// A valid environment or namespace name: non-empty, name characters only.
pub open spec fn valid_name(s: Seq<char>) -> bool {
    s.len() > 0 && forall|i: int| 0 <= i < s.len() ==> is_name_char(#[trigger] s[i])
}

/// A valid package name: non-empty, package characters only.
pub open spec fn valid_package_name(s: Seq<char>) -> bool {
    s.len() > 0 && forall|i: int| 0 <= i < s.len() ==> is_package_char(#[trigger] s[i])
}

/// Whether `c` is allowed in environment and namespace names.
pub fn name_char(c: char) -> (r: bool)
    ensures
        r == is_name_char(c),
{
    ascii_alnum(c) || c == '-' || c == '_' || ((c as u32) >= 0x80 && !control_or_space(c))
}

fn control_or_space(c: char) -> (r: bool)
    ensures
        r == (is_control_char(c) || is_space_char(c)),
{
    crate::text::control_char(c) || space_char(c)
}

/// Whether every character of `s` is a name character.
fn all_name_chars(s: &str) -> (r: bool)
    ensures
        r == forall|i: int| 0 <= i < s@.len() ==> is_name_char(#[trigger] s@[i]),
{
    let len = s.unicode_len();
    let mut i: usize = 0;
    while i < len
        invariant
            len == s@.len(),
            i <= len,
            forall|k: int| 0 <= k < i ==> is_name_char(#[trigger] s@[k]),
        decreases len - i,
    {
        if !name_char(s.get_char(i)) {
            return false;
        }
        i += 1;
    }
    true
}

/// Whether every character of `s` is a package character.
fn all_package_chars(s: &str) -> (r: bool)
    ensures
        r == forall|i: int| 0 <= i < s@.len() ==> is_package_char(#[trigger] s@[i]),
{
    let len = s.unicode_len();
    let mut i: usize = 0;
    while i < len
        invariant
            len == s@.len(),
            i <= len,
            forall|k: int| 0 <= k < i ==> is_package_char(#[trigger] s@[k]),
        decreases len - i,
    {
        let c = s.get_char(i);
        if !(name_char(c) || c == '.') {
            return false;
        }
        i += 1;
    }
    true
}

/// Valid names contain no whitespace, so trimming them changes nothing.
pub proof fn lemma_trim_of_valid(s: Seq<char>)
    requires
        forall|i: int| 0 <= i < s.len() ==> is_package_char(#[trigger] s[i]),
    ensures
        trim_of(s) == s,
{
    assert(forall|i: int| 0 <= i < s.len() ==> !is_space_char(#[trigger] s[i]));
    if s.len() > 0 {
        assert(!is_space_char(s[0]));
    }
    assert(crate::text::trim_front_of(s) == s);
    if s.len() > 0 {
        assert(!is_space_char(s.last()));
    }
    assert(crate::text::trim_back_of(s) == s);
}

/// The name of a potential package.
///
/// Other than `-`, `_`, `.` and some non-ASCII characters, values of this
/// type may not contain whitespace or special characters.
#[derive(Debug)]
pub struct PackageName(String);

impl View for PackageName {
    type V = Seq<char>;

    closed spec fn view(&self) -> Seq<char> {
        self.0@
    }
}

impl Clone for PackageName {
    fn clone(&self) -> (r: Self)
        ensures
            r@ == self@,
    {
        PackageName(self.0.clone())
    }
}

impl PackageName {
    /// Well-formedness: the characters pass package-name validation.
    pub open spec fn wf(&self) -> bool {
        valid_package_name(self@)
    }

    /// Returns a string slice representing the package name.
    pub fn as_str(&self) -> (r: &str)
        ensures
            r@ == self@,
    {
        self.0.as_str()
    }

    /// Parses a package name, trimming surrounding whitespace first.
    ///
    /// Returns `Ok` exactly when the trimmed input is a valid package name.
    pub fn from_str(s: &str) -> (r: Result<PackageName, Error>)
        ensures
            r is Ok <==> valid_package_name(trim_of(s@)),
            r matches Ok(name) ==> name@ == trim_of(s@) && name.wf(),
            r matches Err(e) ==> e.kind == ErrorKind::InvalidInput,
    {
        let t = trim(s);
        if t.unicode_len() == 0 {
            return Err(
                Error::new(
                    ErrorKind::InvalidInput,
                    String::from_str("package name cannot be empty"),
                ),
            );
        }
        if !all_package_chars(t) {
            return Err(
                Error::new(
                    ErrorKind::InvalidInput,
                    String::from_str("package name cannot contain special characters"),
                ),
            );
        }
        Ok(PackageName(String::from_str(t)))
    }
}

/// A namespace for packages. See [`FullPackageName`].
#[derive(Debug)]
pub enum PackageNamespace {
    /// Top-level, normal packages live here.
    Root,
    /// OS-level packages provided by Debian.
    Debian,
    /// A special package that acts as a package manager to install other
    /// packages.
    Managed(PackageName),
}

/// The mathematical model of a [`PackageNamespace`].
pub enum NamespaceView {
    /// Model of [`PackageNamespace::Root`].
    Root,
    /// Model of [`PackageNamespace::Debian`].
    Debian,
    /// Model of [`PackageNamespace::Managed`], holding the manager's name.
    Managed(Seq<char>),
}

impl View for PackageNamespace {
    type V = NamespaceView;

    open spec fn view(&self) -> NamespaceView {
        match *self {
            PackageNamespace::Root => NamespaceView::Root,
            PackageNamespace::Debian => NamespaceView::Debian,
            PackageNamespace::Managed(ref m) => NamespaceView::Managed(m@),
        }
    }
}

impl Clone for PackageNamespace {
    fn clone(&self) -> (r: Self)
        ensures
            r@ == self@,
    {
        match self {
            PackageNamespace::Root => PackageNamespace::Root,
            PackageNamespace::Debian => PackageNamespace::Debian,
            PackageNamespace::Managed(m) => PackageNamespace::Managed(m.clone()),
        }
    }
}

/// The string form of a namespace, as [`PackageNamespace::as_str`] returns
/// it. Note that the root namespace renders as `root` here, although its
/// canonical input form is `cubicle`.
pub open spec fn ns_str_of(ns: NamespaceView) -> Seq<char> {
    match ns {
        NamespaceView::Root => "root"@,
        NamespaceView::Debian => "debian"@,
        NamespaceView::Managed(m) => m,
    }
}

impl PackageNamespace {
    /// Well-formedness: a managed namespace holds a valid name without `.`,
    /// and not one of the reserved spellings that parse to `Root` or
    /// `Debian`.
    pub open spec fn wf(&self) -> bool {
        match self@ {
            NamespaceView::Root => true,
            NamespaceView::Debian => true,
            NamespaceView::Managed(m) => valid_name(m) && m != "cubicle"@ && m != "debian"@,
        }
    }

    /// Returns the namespace as a string.
    ///
    /// Note that this may be surprising to users for the `Root` namespace.
    pub fn as_str(&self) -> (r: &str)
        ensures
            r@ == ns_str_of(self@),
    {
        match self {
            PackageNamespace::Root => "root",
            PackageNamespace::Debian => "debian",
            PackageNamespace::Managed(m) => m.as_str(),
        }
    }

    /// Parses a namespace, trimming surrounding whitespace first.
    ///
    /// `cubicle` means the root namespace and `debian` the Debian namespace;
    /// every other valid name is a package-manager namespace. Returns `Ok`
    /// exactly when the trimmed input is a valid (dot-free) name.
    pub fn from_str(s: &str) -> (r: Result<PackageNamespace, Error>)
        ensures
            r is Ok <==> valid_name(trim_of(s@)),
            r matches Ok(ns) ==> ns.wf() && ns@ == ns_parse_of(trim_of(s@)),
            r matches Err(e) ==> e.kind == ErrorKind::InvalidInput,
    {
        let t = trim(s);
        if t.unicode_len() == 0 {
            return Err(
                Error::new(
                    ErrorKind::InvalidInput,
                    String::from_str("package namespace cannot be empty"),
                ),
            );
        }
        if !all_name_chars(t) {
            return Err(
                Error::new(
                    ErrorKind::InvalidInput,
                    String::from_str("package namespace cannot contain special characters"),
                ),
            );
        }
        if str_equal(t, "cubicle") {
            Ok(PackageNamespace::Root)
        } else if str_equal(t, "debian") {
            Ok(PackageNamespace::Debian)
        } else {
            proof {
                assert(valid_package_name(t@)) by {
                    assert(forall|i: int|
                        0 <= i < t@.len() ==> is_package_char(#[trigger] t@[i]));
                }
            }
            Ok(PackageNamespace::Managed(PackageName(String::from_str(t))))
        }
    }
}

/// What a valid (dot-free) name means as a namespace.
pub open spec fn ns_parse_of(s: Seq<char>) -> NamespaceView {
    if s == "cubicle"@ {
        NamespaceView::Root
    } else if s == "debian"@ {
        NamespaceView::Debian
    } else {
        NamespaceView::Managed(s)
    }
}

/// A fully-qualified package name.
#[derive(Debug)]
pub struct FullPackageName(pub PackageNamespace, pub PackageName);

impl View for FullPackageName {
    type V = (NamespaceView, Seq<char>);

    open spec fn view(&self) -> (NamespaceView, Seq<char>) {
        (self.0@, self.1@)
    }
}

impl Clone for FullPackageName {
    fn clone(&self) -> (r: Self)
        ensures
            r@ == self@,
    {
        FullPackageName(self.0.clone(), self.1.clone())
    }
}

/// The display form of a fully-qualified package name: the bare name for the
/// root namespace, `namespace.name` for every other namespace.
pub open spec fn full_display_of(p: (NamespaceView, Seq<char>)) -> Seq<char> {
    match p.0 {
        NamespaceView::Root => p.1,
        _ => ns_str_of(p.0) + "."@ + p.1,
    }
}

/// What a string means as a fully-qualified package name: everything before
/// the first `.` (if any) names the namespace, the rest names the package.
/// `None` when the input is not a valid name.
pub open spec fn full_parse_of(s: Seq<char>) -> Option<(NamespaceView, Seq<char>)> {
    let t = trim_of(s);
    match find_char_of(t, '.') {
        None => if valid_package_name(t) {
            Some((NamespaceView::Root, t))
        } else {
            None
        },
        Some(i) => {
            let nss = trim_of(t.take(i));
            let names = trim_of(t.skip(i + 1));
            if valid_name(nss) && valid_package_name(names) {
                Some((ns_parse_of(nss), names))
            } else {
                None
            }
        },
    }
}

impl FullPackageName {
    /// Well-formedness of both components.
    pub open spec fn wf(&self) -> bool {
        self.0.wf() && self.1.wf()
    }

    /// Returns a string representation of the name that a human can probably
    /// decipher when standing alone.
    pub fn unquoted(&self) -> (r: String)
        ensures
            r@ == full_display_of(self@),
    {
        match &self.0 {
            PackageNamespace::Root => String::from_str(self.1.as_str()),
            _ => concat3(self.0.as_str(), ".", self.1.as_str()),
        }
    }

    /// The display form, used as the stem of cache file names.
    pub fn as_filename_component(&self) -> (r: String)
        ensures
            r@ == full_display_of(self@),
    {
        self.unquoted()
    }

    /// Parses a fully-qualified package name.
    ///
    /// Returns `Ok` exactly when the input parses; see [`full_parse_of`].
    pub fn from_str(s: &str) -> (r: Result<FullPackageName, Error>)
        ensures
            r is Ok <==> full_parse_of(s@) is Some,
            r matches Ok(p) ==> Some(p@) == full_parse_of(s@) && p.wf(),
            r matches Err(e) ==> e.kind == ErrorKind::InvalidInput,
    {
        let t = trim(s);
        proof {
            crate::text::lemma_trim_idempotent(s@);
        }
        match find_char(t, '.') {
            None => {
                match PackageName::from_str(t) {
                    Ok(name) => Ok(FullPackageName(PackageNamespace::Root, name)),
                    Err(e) => Err(e),
                }
            },
            Some(i) => {
                let len = t.unicode_len();
                proof {
                    crate::text::lemma_find_char_of(t@, '.');
                }
                let ns_part = t.substring_char(0, i);
                let name_part = t.substring_char(i + 1, len);
                proof {
                    assert(ns_part@ =~= trim_of(s@).take(i as int));
                    assert(name_part@ =~= trim_of(s@).skip(i + 1));
                }
                match (PackageNamespace::from_str(ns_part), PackageName::from_str(name_part)) {
                    (Ok(ns), Ok(name)) => Ok(FullPackageName(ns, name)),
                    (Err(e), _) => Err(e),
                    (_, Err(e)) => Err(e),
                }
            },
        }
    }

    /// Compares two names by their display form, in lexicographic order of
    /// code points. This is the library's ordering on package names.
    pub fn cmp(&self, other: &FullPackageName) -> (r: Ordering)
        ensures
            r == lex_cmp_of(full_display_of(self@), full_display_of(other@)),
    {
        let a = self.unquoted();
        let b = other.unquoted();
        str_lex_cmp(a.as_str(), b.as_str())
    }
}

impl PartialEq for FullPackageName {
    fn eq(&self, other: &Self) -> (r: bool) {
        let ns_eq = match (&self.0, &other.0) {
            (PackageNamespace::Root, PackageNamespace::Root) => true,
            (PackageNamespace::Debian, PackageNamespace::Debian) => true,
            (PackageNamespace::Managed(a), PackageNamespace::Managed(b)) => str_equal(
                a.as_str(),
                b.as_str(),
            ),
            _ => false,
        };
        ns_eq && str_equal(self.1.as_str(), other.1.as_str())
    }
}

impl vstd::std_specs::cmp::PartialEqSpecImpl for FullPackageName {
    open spec fn obeys_eq_spec() -> bool {
        true
    }

    open spec fn eq_spec(&self, other: &Self) -> bool {
        self@ == other@
    }
}

impl PartialOrd for FullPackageName {
    fn partial_cmp(&self, other: &Self) -> (r: Option<Ordering>) {
        Some(self.cmp(other))
    }
}

impl vstd::std_specs::cmp::PartialOrdSpecImpl for FullPackageName {
    open spec fn obeys_partial_cmp_spec() -> bool {
        true
    }

    open spec fn partial_cmp_spec(&self, other: &Self) -> Option<Ordering> {
        Some(lex_cmp_of(full_display_of(self@), full_display_of(other@)))
    }
}

/// The ordering law: comparing two names, by [`FullPackageName::cmp`] or
/// through `<` and `partial_cmp`, is exactly the lexicographic comparison of
/// their display forms.
pub proof fn lemma_order_is_display_order(a: FullPackageName, b: FullPackageName)
    ensures
        vstd::std_specs::cmp::PartialOrdSpec::partial_cmp_spec(&a, &b) == Some(
            lex_cmp_of(full_display_of(a@), full_display_of(b@)),
        ),
        (lex_cmp_of(full_display_of(a@), full_display_of(b@)) == Ordering::Equal) == (
        full_display_of(a@) == full_display_of(b@)),
{
    crate::text::lemma_lex_cmp_equal(full_display_of(a@), full_display_of(b@));
}

/// Parsing the display form of a well-formed name gives the name back.
///
/// The one family of names left out: a root-namespace package whose name
/// contains a `.` displays as `ns.rest`, which parses as a namespaced name
/// rather than the original.
pub proof fn lemma_display_round_trip(p: (NamespaceView, Seq<char>))
    requires
        valid_package_name(p.1),
        p.0 is Root ==> !p.1.contains('.'),
        p.0 matches NamespaceView::Managed(m) ==> valid_name(m) && m != "cubicle"@ && m
            != "debian"@,
    ensures
        full_parse_of(full_display_of(p)) == Some(p),
{
    reveal_strlit(".");
    reveal_strlit("debian");
    reveal_strlit("cubicle");
    let d = full_display_of(p);
    match p.0 {
        NamespaceView::Root => {
            assert(d == p.1);
            lemma_trim_of_valid(d);
            crate::text::lemma_find_char_of(d, '.');
            match find_char_of(d, '.') {
                Some(j) => {
                    assert(p.1.contains('.')) by {
                        assert(d[j] == '.');
                    }
                },
                None => {},
            }
            assert(full_parse_of(d) == Some((NamespaceView::Root, p.1)));
        },
        NamespaceView::Debian => {
            let ns = "debian"@;
            assert(ns.len() == 6);
            assert(d == ns + "."@ + p.1);
            assert(d.len() == 7 + p.1.len());
            assert(forall|i: int| 0 <= i < 6 ==> is_name_char(#[trigger] ns[i]));
            assert(forall|i: int| 0 <= i < d.len() ==> is_package_char(#[trigger] d[i])) by {
                assert(forall|i: int| 0 <= i < 6 ==> d[i] == ns[i]);
                assert(d[6] == '.');
                assert(forall|i: int| 7 <= i < d.len() ==> d[i] == p.1[i - 7]);
            }
            lemma_trim_of_valid(d);
            assert(forall|i: int| 0 <= i < 6 ==> d[i] != '.');
            crate::text::lemma_find_char_unique(d, '.', 6);
            assert(d.take(6) =~= ns);
            assert(d.skip(7) =~= p.1);
            lemma_trim_of_valid(d.take(6));
            lemma_trim_of_valid(d.skip(7));
            assert(ns != "cubicle"@) by {
                assert(ns.len() != "cubicle"@.len());
            }
            assert(ns_parse_of(ns) == NamespaceView::Debian);
        },
        NamespaceView::Managed(m) => {
            let mlen = m.len() as int;
            assert(d == m + "."@ + p.1);
            assert(d.len() == mlen + 1 + p.1.len());
            assert(forall|i: int| 0 <= i < d.len() ==> is_package_char(#[trigger] d[i])) by {
                assert(forall|i: int| 0 <= i < mlen ==> d[i] == m[i]);
                assert(d[mlen] == '.');
                assert(forall|i: int| mlen + 1 <= i < d.len() ==> d[i] == p.1[i - mlen - 1]);
            }
            lemma_trim_of_valid(d);
            assert(forall|i: int| 0 <= i < mlen ==> d[i] != '.') by {
                assert(forall|i: int| 0 <= i < mlen ==> is_name_char(#[trigger] m[i]));
            }
            crate::text::lemma_find_char_unique(d, '.', mlen);
            assert(d.take(mlen) =~= m);
            assert(d.skip(mlen + 1) =~= p.1);
            lemma_trim_of_valid(d.take(mlen));
            lemma_trim_of_valid(d.skip(mlen + 1));
            assert(ns_parse_of(m) == NamespaceView::Managed(m));
        },
    }
}

/// The views of a sequence of environment names.
pub open spec fn env_views_of(v: Seq<EnvironmentName>) -> Seq<Seq<char>> {
    v.map_values(|e: EnvironmentName| e@)
}

/// The name of a potential sandbox/isolation environment.
///
/// Other than `-`, `_` and some non-ASCII characters, values of this type may
/// not contain whitespace or special characters; in particular no `/` and no
/// `.`, so a value is always usable as a single path component.
#[derive(Debug)]
pub struct EnvironmentName(String);

impl View for EnvironmentName {
    type V = Seq<char>;

    closed spec fn view(&self) -> Seq<char> {
        self.0@
    }
}

impl Clone for EnvironmentName {
    fn clone(&self) -> (r: Self)
        ensures
            r@ == self@,
    {
        EnvironmentName(self.0.clone())
    }
}

impl PartialEq for EnvironmentName {
    fn eq(&self, other: &Self) -> (r: bool) {
        str_equal(self.0.as_str(), other.0.as_str())
    }
}

impl vstd::std_specs::cmp::PartialEqSpecImpl for EnvironmentName {
    open spec fn obeys_eq_spec() -> bool {
        true
    }

    open spec fn eq_spec(&self, other: &Self) -> bool {
        self@ == other@
    }
}

impl EnvironmentName {
    /// Well-formedness: the characters pass environment-name validation.
    pub open spec fn wf(&self) -> bool {
        valid_name(self@)
    }

    /// The name as a string slice.
    pub fn as_str(&self) -> (r: &str)
        ensures
            r@ == self@,
    {
        self.0.as_str()
    }

    /// Parses an environment name, trimming surrounding whitespace first.
    ///
    /// Returns `Ok` exactly when the trimmed input is a valid (dot-free)
    /// name.
    pub fn from_str(s: &str) -> (r: Result<EnvironmentName, Error>)
        ensures
            r is Ok <==> valid_name(trim_of(s@)),
            r matches Ok(name) ==> name@ == trim_of(s@) && name.wf(),
            r matches Err(e) ==> e.kind == ErrorKind::InvalidInput,
    {
        let t = trim(s);
        if t.unicode_len() == 0 {
            return Err(
                Error::new(
                    ErrorKind::InvalidInput,
                    String::from_str("environment name cannot be empty"),
                ),
            );
        }
        if !all_name_chars(t) {
            return Err(
                Error::new(
                    ErrorKind::InvalidInput,
                    String::from_str("environment name cannot contain special characters"),
                ),
            );
        }
        Ok(EnvironmentName(String::from_str(t)))
    }

    /// The name of the builder environment for a package:
    /// `package-<display-name>`.
    ///
    /// Fails when the display form holds a character (such as `.`) that an
    /// environment name may not carry. A namespaced package's display always
    /// holds a dot, so no builder environment can be named for it: such a
    /// package cannot be built through a builder environment, and callers
    /// surface this as an error rather than panicking.
    pub fn for_builder_package(package: &FullPackageName) -> (r: Result<EnvironmentName, Error>)
        ensures
            r is Ok <==> valid_name("package-"@ + full_display_of(package@)),
            r matches Ok(name) ==> name@ == "package-"@ + full_display_of(package@) && name.wf(),
            r matches Err(e) ==> e.kind == ErrorKind::InvalidInput,
    {
        let d = package.unquoted();
        let joined = crate::text::concat2("package-", d.as_str());
        if all_name_chars(joined.as_str()) {
            proof {
                assert(joined@.len() > 0) by {
                    reveal_strlit("package-");
                }
            }
            Ok(EnvironmentName(joined))
        } else {
            Err(
                Error::new(
                    ErrorKind::InvalidInput,
                    String::from_str("package display name cannot name an environment"),
                ),
            )
        }
    }
}

} // verus!
