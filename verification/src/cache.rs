//! The package-artifact cache model.
//!
//! One entry per display name: an optional committed artifact
//! (`<name>.tar`, with its modification time), an optional in-progress
//! artifact (`<name>.testing.tar`), and a failure marker (`<name>.failed`).
//! Committing renames the in-progress artifact over the committed one and
//! clears the failure marker, mirroring the atomic staging the store uses.

use vstd::prelude::*;
use crate::error::{Error, ErrorKind};
use crate::text::{concat2, str_equal};

verus! {

/// The cached state for one display name.
#[derive(Debug)]
pub struct CacheEntry {
    /// The display name the files are keyed by.
    pub key: String,
    /// Modification time of `<key>.tar`, when the artifact exists.
    pub tar_mtime: Option<u64>,
    /// Byte size of `<key>.tar` as the store last reported it; `None` for
    /// an artifact committed here that the store has not been asked about.
    pub tar_size: Option<u64>,
    /// Modification time of `<key>.testing.tar`, when present.
    pub testing_mtime: Option<u64>,
    /// Whether `<key>.failed` exists.
    pub failed: bool,
}

/// The mathematical model of a [`CacheEntry`].
#[verifier::ext_equal]
pub struct CacheEntryView {
    /// Model of the key.
    pub key: Seq<char>,
    /// Model of the committed artifact's modification time.
    pub tar_mtime: Option<u64>,
    /// Model of the committed artifact's reported byte size.
    pub tar_size: Option<u64>,
    /// Model of the in-progress artifact's modification time.
    pub testing_mtime: Option<u64>,
    /// Model of the failure marker.
    pub failed: bool,
}

impl View for CacheEntry {
    type V = CacheEntryView;

    open spec fn view(&self) -> CacheEntryView {
        CacheEntryView {
            key: self.key@,
            tar_mtime: self.tar_mtime,
            tar_size: self.tar_size,
            testing_mtime: self.testing_mtime,
            failed: self.failed,
        }
    }
}

/// The package cache: one entry per key.
#[derive(Debug)]
pub struct PackageCache {
    /// The entries, keys distinct.
    pub entries: Vec<CacheEntry>,
}

impl View for PackageCache {
    type V = Seq<CacheEntryView>;

    open spec fn view(&self) -> Seq<CacheEntryView> {
        self.entries@.map_values(|e: CacheEntry| e@)
    }
}

/// Well-formedness: distinct keys.
pub open spec fn cache_wf(cv: Seq<CacheEntryView>) -> bool {
    forall|i: int, j: int| 0 <= i < j < cv.len() ==> cv[i].key != cv[j].key
}

/// The first entry with this key, if any.
pub open spec fn find_cache(cv: Seq<CacheEntryView>, key: Seq<char>) -> Option<CacheEntryView>
    decreases cv.len(),
{
    if cv.len() == 0 {
        None
    } else if cv[0].key == key {
        Some(cv[0])
    } else {
        find_cache(cv.drop_first(), key)
    }
}

/// The committed artifact's modification time under this key, if any.
pub open spec fn artifact_mtime(cv: Seq<CacheEntryView>, key: Seq<char>) -> Option<u64> {
    match find_cache(cv, key) {
        None => None,
        Some(e) => e.tar_mtime,
    }
}

/// The committed artifact's reported byte size under this key, if known.
pub open spec fn artifact_size(cv: Seq<CacheEntryView>, key: Seq<char>) -> Option<u64> {
    match find_cache(cv, key) {
        None => None,
        Some(e) => e.tar_size,
    }
}

/// Whether `<key>.failed` exists.
pub open spec fn has_failed_marker(cv: Seq<CacheEntryView>, key: Seq<char>) -> bool {
    match find_cache(cv, key) {
        None => false,
        Some(e) => e.failed,
    }
}

/// Every modification time recorded anywhere in the cache is at most `now`.
pub open spec fn mtimes_bounded(cv: Seq<CacheEntryView>, now: u64) -> bool {
    forall|i: int|
        0 <= i < cv.len() ==> ((#[trigger] cv[i]).tar_mtime matches Some(m) ==> m <= now)
            && (cv[i].testing_mtime matches Some(m) ==> m <= now)
}

proof fn lemma_find_cache_skip(cv: Seq<CacheEntryView>, key: Seq<char>, i: int)
    requires
        0 <= i <= cv.len(),
        forall|k: int| 0 <= k < i ==> cv[k].key != key,
    ensures
        find_cache(cv, key) == find_cache(cv.skip(i), key),
    decreases i,
{
    if i > 0 {
        lemma_find_cache_skip(cv.drop_first(), key, i - 1);
        assert(cv.drop_first().skip(i - 1) =~= cv.skip(i));
    } else {
        assert(cv.skip(0) =~= cv);
    }
}

proof fn lemma_cache_member_found(cv: Seq<CacheEntryView>, i: int)
    requires
        0 <= i < cv.len(),
        cache_wf(cv),
    ensures
        find_cache(cv, cv[i].key) == Some(cv[i]),
{
    lemma_find_cache_skip(cv, cv[i].key, i);
    assert(cv.skip(i)[0] == cv[i]);
}

proof fn lemma_find_cache_agree(a: Seq<CacheEntryView>, b: Seq<CacheEntryView>, key: Seq<char>)
    requires
        a.len() == b.len(),
        forall|k: int| 0 <= k < a.len() ==> (#[trigger] a[k]).key == b[k].key,
        forall|k: int| 0 <= k < a.len() && (#[trigger] a[k]).key == key ==> a[k] == b[k],
    ensures
        find_cache(a, key) == find_cache(b, key),
    decreases a.len(),
{
    if a.len() > 0 {
        if a[0].key != key {
            lemma_find_cache_agree(a.drop_first(), b.drop_first(), key);
            assert(forall|k: int|
                0 <= k < a.drop_first().len() ==> a.drop_first()[k] == a[k + 1]
                    && b.drop_first()[k] == b[k + 1]);
        }
    }
}

proof fn lemma_find_cache_push(cv: Seq<CacheEntryView>, x: CacheEntryView, key: Seq<char>)
    ensures
        find_cache(cv.push(x), key) == match find_cache(cv, key) {
            Some(e) => Some(e),
            None => if x.key == key {
                Some(x)
            } else {
                None
            },
        },
    decreases cv.len(),
{
    if cv.len() == 0 {
        assert(cv.push(x)[0] == x);
        assert(cv.push(x).drop_first() =~= Seq::<CacheEntryView>::empty());
        assert(find_cache(Seq::<CacheEntryView>::empty(), key) is None);
        assert(find_cache(cv, key) is None);
    } else {
        assert(cv.push(x)[0] == cv[0]);
        if cv[0].key != key {
            lemma_find_cache_push(cv.drop_first(), x, key);
            assert(cv.push(x).drop_first() =~= cv.drop_first().push(x));
        } else {
            assert(find_cache(cv.push(x), key) == Some(cv[0]));
            assert(find_cache(cv, key) == Some(cv[0]));
        }
    }
}

/// A found entry is one of the members.
pub proof fn lemma_find_cache_member(cv: Seq<CacheEntryView>, key: Seq<char>)
    ensures
        find_cache(cv, key) matches Some(e) ==> cv.contains(e),
    decreases cv.len(),
{
    if cv.len() > 0 {
        if cv[0].key == key {
            assert(cv.contains(cv[0]));
        } else {
            lemma_find_cache_member(cv.drop_first(), key);
            if find_cache(cv, key) is Some {
                let e = find_cache(cv, key)->Some_0;
                assert(cv.drop_first().contains(e));
                let j = choose|j: int|
                    0 <= j < cv.drop_first().len() && cv.drop_first()[j] == e;
                assert(cv[j + 1] == e);
            }
        }
    }
}

impl PackageCache {
    /// An empty cache.
    pub fn new() -> (r: PackageCache)
        ensures
            r@ =~= Seq::<CacheEntryView>::empty(),
    {
        PackageCache { entries: Vec::new() }
    }

    fn index_of(&self, key: &str) -> (r: Option<usize>)
        ensures
            match r {
                Some(i) => i < self@.len() && self@[i as int].key == key@ && find_cache(
                    self@,
                    key@,
                ) == Some(self@[i as int]),
                None => find_cache(self@, key@) is None,
            },
    {
        let mut i: usize = 0;
        while i < self.entries.len()
            invariant
                i <= self.entries@.len(),
                forall|k: int| 0 <= k < i ==> #[trigger] self.entries@[k]@.key != key@,
            decreases self.entries@.len() - i,
        {
            if str_equal(self.entries[i].key.as_str(), key) {
                proof {
                    lemma_find_cache_skip(self@, key@, i as int);
                    assert(self@.skip(i as int)[0] == self@[i as int]);
                }
                return Some(i);
            }
            i += 1;
        }
        proof {
            lemma_find_cache_skip(self@, key@, self@.len() as int);
            assert(self@.skip(self@.len() as int) =~= Seq::<CacheEntryView>::empty());
        }
        None
    }

    fn set_entry(&mut self, i: usize, e: CacheEntry)
        requires
            i < old(self)@.len(),
        ensures
            final(self)@ =~= old(self)@.update(i as int, e@),
    {
        let ghost before = self.entries@;
        let _ = self.entries.remove(i);
        self.entries.insert(i, e);
        proof {
            assert forall|k: int| 0 <= k < self@.len() implies self@[k] == old(self)@.update(
                i as int,
                e@,
            )[k] by {
                if k < i as int {
                    assert(self.entries@[k] == before.remove(i as int)[k]);
                    assert(before.remove(i as int)[k] == before[k]);
                } else if k > i as int {
                    assert(self.entries@[k] == before.remove(i as int)[k - 1]);
                    assert(before.remove(i as int)[k - 1] == before[k]);
                }
            }
        }
    }

    /// When the artifact under this key was last committed, if ever.
    pub fn last_built(&self, key: &str) -> (r: Option<u64>)
        ensures
            r == artifact_mtime(self@, key@),
    {
        match self.index_of(key) {
            None => None,
            Some(i) => self.entries[i].tar_mtime,
        }
    }

    /// The committed artifact's reported byte size under this key, if known.
    pub fn last_size(&self, key: &str) -> (r: Option<u64>)
        ensures
            r == artifact_size(self@, key@),
    {
        match self.index_of(key) {
            None => None,
            Some(i) => self.entries[i].tar_size,
        }
    }

    /// Whether the last completed build under this key failed.
    pub fn build_failed(&self, key: &str) -> (r: bool)
        ensures
            r == has_failed_marker(self@, key@),
    {
        match self.index_of(key) {
            None => false,
            Some(i) => self.entries[i].failed,
        }
    }

    /// Records a fresh in-progress artifact (`<key>.testing.tar`).
    pub fn write_testing(&mut self, key: &str, mtime: u64)
        requires
            cache_wf(old(self)@),
        ensures
            cache_wf(final(self)@),
            find_cache(final(self)@, key@) matches Some(v) && v == (CacheEntryView {
                key: key@,
                tar_mtime: artifact_mtime(old(self)@, key@),
                tar_size: artifact_size(old(self)@, key@),
                testing_mtime: Some(mtime),
                failed: has_failed_marker(old(self)@, key@),
            }),
            forall|k: Seq<char>|
                k != key@ ==> find_cache(final(self)@, k) == find_cache(old(self)@, k),
            forall|m: u64|
                mtimes_bounded(old(self)@, m) && mtime <= m ==> #[trigger] mtimes_bounded(
                    final(self)@,
                    m,
                ),
    {
        let ghost before = self@;
        match self.index_of(key) {
            Some(i) => {
                let entry = CacheEntry {
                    key: self.entries[i].key.clone(),
                    tar_mtime: self.entries[i].tar_mtime,
                    tar_size: self.entries[i].tar_size,
                    testing_mtime: Some(mtime),
                    failed: self.entries[i].failed,
                };
                let ghost entry_v = entry@;
                self.set_entry(i, entry);
                proof {
                    lemma_cache_member_found(before, i as int);
                    self.lemma_after_update(before, i as int, entry_v, key@);
                }
            },
            None => {
                let entry = CacheEntry {
                    key: String::from_str(key),
                    tar_mtime: None,
                    tar_size: None,
                    testing_mtime: Some(mtime),
                    failed: false,
                };
                let ghost entry_v = entry@;
                self.entries.push(entry);
                proof {
                    self.lemma_after_push(before, entry_v, key@);
                }
            },
        }
    }

    /// Leaves a failure marker (`<key>.failed`).
    pub fn mark_failed(&mut self, key: &str)
        requires
            cache_wf(old(self)@),
        ensures
            cache_wf(final(self)@),
            find_cache(final(self)@, key@) matches Some(v) && v == (CacheEntryView {
                key: key@,
                tar_mtime: artifact_mtime(old(self)@, key@),
                tar_size: artifact_size(old(self)@, key@),
                testing_mtime: match find_cache(old(self)@, key@) {
                    Some(e) => e.testing_mtime,
                    None => None,
                },
                failed: true,
            }),
            forall|k: Seq<char>|
                k != key@ ==> find_cache(final(self)@, k) == find_cache(old(self)@, k),
            forall|m: u64|
                mtimes_bounded(old(self)@, m) ==> #[trigger] mtimes_bounded(final(self)@, m),
    {
        let ghost before = self@;
        match self.index_of(key) {
            Some(i) => {
                let entry = CacheEntry {
                    key: self.entries[i].key.clone(),
                    tar_mtime: self.entries[i].tar_mtime,
                    tar_size: self.entries[i].tar_size,
                    testing_mtime: self.entries[i].testing_mtime,
                    failed: true,
                };
                let ghost entry_v = entry@;
                self.set_entry(i, entry);
                proof {
                    lemma_cache_member_found(before, i as int);
                    self.lemma_after_update(before, i as int, entry_v, key@);
                }
            },
            None => {
                let entry = CacheEntry {
                    key: String::from_str(key),
                    tar_mtime: None,
                    tar_size: None,
                    testing_mtime: None,
                    failed: true,
                };
                let ghost entry_v = entry@;
                self.entries.push(entry);
                proof {
                    self.lemma_after_push(before, entry_v, key@);
                }
            },
        }
    }

    /// Commits the in-progress artifact: renames `<key>.testing.tar` over
    /// `<key>.tar` and removes the failure marker.
    ///
    /// Fails when no in-progress artifact exists (the build produced
    /// nothing to commit).
    pub fn commit(&mut self, key: &str) -> (r: Result<(), Error>)
        requires
            cache_wf(old(self)@),
        ensures
            cache_wf(final(self)@),
            forall|k: Seq<char>|
                k != key@ ==> find_cache(final(self)@, k) == find_cache(old(self)@, k),
            (r is Ok <==> (find_cache(old(self)@, key@) matches Some(e) && e.testing_mtime
                is Some)),
            r is Ok ==> (find_cache(final(self)@, key@) matches Some(v) && v == (CacheEntryView {
                key: key@,
                tar_mtime: find_cache(old(self)@, key@)->Some_0.testing_mtime,
                tar_size: None,
                testing_mtime: None,
                failed: false,
            })),
            r is Err ==> final(self)@ == old(self)@,
            r matches Err(e) ==> e.kind == ErrorKind::InconsistentState,
            forall|m: u64|
                mtimes_bounded(old(self)@, m) ==> #[trigger] mtimes_bounded(final(self)@, m),
    {
        let ghost before = self@;
        match self.index_of(key) {
            Some(i) => {
                if self.entries[i].testing_mtime.is_some() {
                    let entry = CacheEntry {
                        key: self.entries[i].key.clone(),
                        tar_mtime: self.entries[i].testing_mtime,
                        tar_size: None,
                        testing_mtime: None,
                        failed: false,
                    };
                    let ghost entry_v = entry@;
                    self.set_entry(i, entry);
                    proof {
                        lemma_cache_member_found(before, i as int);
                        self.lemma_after_update(before, i as int, entry_v, key@);
                    }
                    Ok(())
                } else {
                    Err(
                        Error::new(
                            ErrorKind::InconsistentState,
                            concat2("build produced no artifact for ", key),
                        ),
                    )
                }
            },
            None => Err(
                Error::new(
                    ErrorKind::InconsistentState,
                    concat2("build produced no artifact for ", key),
                ),
            ),
        }
    }

    /// After an in-place update of the entry at `i` (same key), that key
    /// finds the new entry and every other key is untouched.
    proof fn lemma_after_update(
        &self,
        before: Seq<CacheEntryView>,
        i: int,
        entry_v: CacheEntryView,
        key: Seq<char>,
    )
        requires
            cache_wf(before),
            0 <= i < before.len(),
            before[i].key == key,
            entry_v.key == key,
            self@ =~= before.update(i, entry_v),
        ensures
            cache_wf(self@),
            find_cache(self@, key) == Some(entry_v),
            forall|k: Seq<char>| k != key ==> find_cache(self@, k) == find_cache(before, k),
            forall|j: int|
                0 <= j < self@.len() ==> #[trigger] self@[j] == if j == i {
                    entry_v
                } else {
                    before[j]
                },
    {
        lemma_find_cache_skip(self@, key, i);
        assert forall|k: int| 0 <= k < i implies (#[trigger] self@[k]).key != key by {
            assert(before[k].key == self@[k].key);
        }
        assert(self@.skip(i)[0] == entry_v);
        assert forall|k: Seq<char>| k != key implies find_cache(self@, k) == find_cache(
            before,
            k,
        ) by {
            lemma_find_cache_agree(before, self@, k);
        }
    }

    /// After appending an entry for a key that was absent, that key finds
    /// the new entry and every other key is untouched.
    proof fn lemma_after_push(
        &self,
        before: Seq<CacheEntryView>,
        entry_v: CacheEntryView,
        key: Seq<char>,
    )
        requires
            cache_wf(before),
            find_cache(before, key) is None,
            entry_v.key == key,
            self@ =~= before.push(entry_v),
        ensures
            cache_wf(self@),
            find_cache(self@, key) == Some(entry_v),
            forall|k: Seq<char>| k != key ==> find_cache(self@, k) == find_cache(before, k),
            forall|j: int|
                0 <= j < self@.len() ==> #[trigger] self@[j] == if j == before.len() {
                    entry_v
                } else {
                    before[j]
                },
    {
        lemma_find_cache_push(before, entry_v, key);
        assert forall|k: Seq<char>| k != key implies find_cache(self@, k) == find_cache(
            before,
            k,
        ) by {
            lemma_find_cache_push(before, entry_v, k);
        }
        assert(cache_wf(self@)) by {
            assert forall|a: int, b: int| 0 <= a < b < self@.len() implies (
            #[trigger] self@[a]).key != (#[trigger] self@[b]).key by {
                if b == before.len() {
                    if self@[a].key == key {
                        lemma_cache_member_found(before, a);
                    }
                }
            }
        }
    }
}

} // verus!
