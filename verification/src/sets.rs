//! Lists used as sets, and sorting, for package and string collections.
//!
//! A set of fully-qualified package names is a list without duplicate views;
//! insertion keeps it that way. Sorting is by the display form, in
//! lexicographic order of code points, matching the ordering the name types
//! define.

use vstd::prelude::*;
use vstd::multiset::Multiset;
use core::cmp::Ordering;
use crate::names::{FullPackageName, NamespaceView, full_display_of};
use crate::registry::views_of;
use crate::text::{
    lemma_lex_cmp_flip, lemma_lex_cmp_trans, lex_cmp_of, str_lex_cmp, str_equal,
};

verus! {

broadcast use vstd::seq_lib::group_to_multiset_ensures;

/// The views of a sequence of strings.
pub open spec fn strs_of(v: Seq<String>) -> Seq<Seq<char>> {
    v.map_values(|t: String| t@)
}

/// Non-strict display order on package-name views.
pub open spec fn le_display(a: (NamespaceView, Seq<char>), b: (NamespaceView, Seq<char>)) -> bool {
    lex_cmp_of(full_display_of(a), full_display_of(b)) != Ordering::Greater
}

/// A sequence of views sorted by display form.
pub open spec fn sorted_by_display(s: Seq<(NamespaceView, Seq<char>)>) -> bool {
    forall|i: int, j: int| 0 <= i < j < s.len() ==> le_display(s[i], s[j])
}

/// Adds a name to a list-as-set unless an equal one is already present.
pub fn insert_name(v: &mut Vec<FullPackageName>, p: FullPackageName)
    ensures
        views_of(final(v)@) =~= if views_of(old(v)@).contains(p@) {
            views_of(old(v)@)
        } else {
            views_of(old(v)@).push(p@)
        },
{
    if !crate::registry::contains_full(v, &p) {
        v.push(p);
        proof {
            assert(views_of(v@) =~= views_of(old(v)@).push(p@));
        }
    }
}

/// Sorts a list of names by display form.
///
/// The result is sorted and holds the same names, with multiplicity, as the
/// input.
pub fn sort_names(v: Vec<FullPackageName>) -> (r: Vec<FullPackageName>)
    ensures
        sorted_by_display(views_of(r@)),
        views_of(r@).to_multiset() == views_of(v@).to_multiset(),
{
    let mut rest = v;
    let mut out: Vec<FullPackageName> = Vec::new();
    while rest.len() > 0
        invariant
            sorted_by_display(views_of(out@)),
            forall|i: int, j: int|
                0 <= i < out@.len() && 0 <= j < rest@.len() ==> le_display(
                    #[trigger] views_of(out@)[i],
                    #[trigger] views_of(rest@)[j],
                ),
            views_of(out@).to_multiset().add(views_of(rest@).to_multiset()) == views_of(
                v@,
            ).to_multiset(),
        decreases rest@.len(),
    {
        let mut min: usize = 0;
        let mut i: usize = 1;
        proof {
            lemma_le_display_refl(views_of(rest@)[0]);
        }
        while i < rest.len()
            invariant
                min < i <= rest@.len(),
                rest@.len() > 0,
                forall|k: int|
                    0 <= k < i ==> le_display(
                        views_of(rest@)[min as int],
                        #[trigger] views_of(rest@)[k],
                    ),
            decreases rest@.len() - i,
        {
            let a = rest[i].unquoted();
            let b = rest[min].unquoted();
            let c = str_lex_cmp(a.as_str(), b.as_str());
            if matches!(c, Ordering::Less) {
                proof {
                    lemma_lex_cmp_flip(views_of(rest@)[min as int].1, views_of(rest@)[i as int].1);
                    assert forall|k: int| 0 <= k < i + 1 implies le_display(
                        views_of(rest@)[i as int],
                        #[trigger] views_of(rest@)[k],
                    ) by {
                        if k < i {
                            lemma_le_display_from_less(
                                views_of(rest@)[i as int],
                                views_of(rest@)[min as int],
                                views_of(rest@)[k],
                            );
                        } else {
                            lemma_le_display_refl(views_of(rest@)[i as int]);
                        }
                    }
                }
                min = i;
            } else {
                proof {
                    lemma_lex_cmp_flip(
                        full_display_of(views_of(rest@)[i as int]),
                        full_display_of(views_of(rest@)[min as int]),
                    );
                }
            }
            i += 1;
        }
        let ghost old_out = out@;
        let ghost old_rest = rest@;
        let x = rest.remove(min);
        let ghost xv = x@;
        out.push(x);
        proof {
            assert(views_of(old_rest)[min as int] == xv);
            assert(views_of(out@) =~= views_of(old_out).push(xv));
            assert(views_of(rest@) =~= views_of(old_rest).remove(min as int));
            assert(views_of(out@).to_multiset().add(views_of(rest@).to_multiset()) =~= views_of(
                old_out,
            ).to_multiset().add(views_of(old_rest).to_multiset()));
            assert forall|i2: int, j2: int|
                0 <= i2 < j2 < views_of(out@).len() implies le_display(
                    views_of(out@)[i2],
                    views_of(out@)[j2],
                ) by {
                if j2 < views_of(old_out).len() {
                    assert(le_display(views_of(old_out)[i2], views_of(old_out)[j2]));
                } else {
                    assert(views_of(out@)[j2] == xv);
                    assert(le_display(views_of(old_out)[i2], views_of(old_rest)[min as int]));
                }
            }
            assert forall|i2: int, j2: int|
                0 <= i2 < views_of(out@).len() && 0 <= j2 < views_of(rest@).len() implies
                le_display(
                    #[trigger] views_of(out@)[i2],
                    #[trigger] views_of(rest@)[j2],
                ) by {
                let j3 = if j2 < min as int {
                    j2
                } else {
                    j2 + 1
                };
                assert(views_of(rest@)[j2] == views_of(old_rest)[j3]);
                if i2 < views_of(old_out).len() {
                    assert(le_display(views_of(old_out)[i2], views_of(old_rest)[j3]));
                } else {
                    assert(views_of(out@)[i2] == xv);
                    assert(le_display(views_of(old_rest)[min as int], views_of(old_rest)[j3]));
                }
            }
        }
    }
    proof {
        assert(views_of(rest@).to_multiset() =~= Multiset::<(NamespaceView, Seq<char>)>::empty())
            by {
            assert(views_of(rest@).len() == 0);
        }
        assert(views_of(out@).to_multiset() =~= views_of(v@).to_multiset());
    }
    out
}

/// The order is reflexive.
proof fn lemma_le_display_refl(a: (NamespaceView, Seq<char>))
    ensures
        le_display(a, a),
{
    crate::text::lemma_lex_cmp_equal(full_display_of(a), full_display_of(a));
}

/// A strictly smaller element is below everything the old minimum was below.
proof fn lemma_le_display_from_less(
    a: (NamespaceView, Seq<char>),
    b: (NamespaceView, Seq<char>),
    c: (NamespaceView, Seq<char>),
)
    requires
        lex_cmp_of(full_display_of(a), full_display_of(b)) == Ordering::Less,
        le_display(b, c),
    ensures
        le_display(a, c),
{
    lemma_lex_cmp_trans(full_display_of(a), full_display_of(b), full_display_of(c));
}

/// Adds an environment name to a list-as-set unless an equal one is
/// present.
pub fn insert_env_name(v: &mut Vec<crate::names::EnvironmentName>, n: crate::names::EnvironmentName)
    ensures
        crate::names::env_views_of(final(v)@) =~= if crate::names::env_views_of(
            old(v)@,
        ).contains(n@) {
            crate::names::env_views_of(old(v)@)
        } else {
            crate::names::env_views_of(old(v)@).push(n@)
        },
        forall|k: int|
            0 <= k < final(v)@.len() ==> (#[trigger] final(v)@[k]).wf() == if k < old(v)@.len() {
                old(v)@[k].wf()
            } else {
                n.wf()
            },
{
    let mut i: usize = 0;
    while i < v.len()
        invariant
            i <= v@.len(),
            v@ == old(v)@,
            forall|k: int| 0 <= k < i ==> v@[k]@ != n@,
        decreases v@.len() - i,
    {
        if v[i].eq(&n) {
            proof {
                assert(crate::names::env_views_of(v@)[i as int] == n@);
            }
            return ;
        }
        i += 1;
    }
    proof {
        if crate::names::env_views_of(v@).contains(n@) {
            let k = choose|k: int|
                0 <= k < crate::names::env_views_of(v@).len() && crate::names::env_views_of(v@)[k]
                    == n@;
            assert(v@[k]@ == n@);
        }
    }
    v.push(n);
    proof {
        assert(crate::names::env_views_of(v@) =~= crate::names::env_views_of(old(v)@).push(n@));
    }
}

/// Whether a list of strings holds one with these characters.
pub fn contains_string(v: &Vec<String>, s: &str) -> (r: bool)
    ensures
        r == strs_of(v@).contains(s@),
{
    let mut i: usize = 0;
    while i < v.len()
        invariant
            i <= v@.len(),
            forall|k: int| 0 <= k < i ==> v@[k]@ != s@,
        decreases v@.len() - i,
    {
        if str_equal(v[i].as_str(), s) {
            proof {
                assert(strs_of(v@)[i as int] == s@);
            }
            return true;
        }
        i += 1;
    }
    proof {
        let mv = strs_of(v@);
        if mv.contains(s@) {
            let k = choose|k: int| 0 <= k < mv.len() && (#[trigger] mv[k]) == s@;
            assert(v@[k]@ == s@);
        }
    }
    false
}

/// A sequence of environment-name views sorted lexicographically.
pub open spec fn sorted_env_names(s: Seq<Seq<char>>) -> bool {
    forall|i: int, j: int|
        0 <= i < j < s.len() ==> lex_cmp_of(s[i], s[j]) != Ordering::Greater
}

/// Sorts a list of environment names lexicographically by code point.
pub fn sort_env_names(v: Vec<crate::names::EnvironmentName>) -> (r: Vec<
    crate::names::EnvironmentName,
>)
    ensures
        sorted_env_names(crate::names::env_views_of(r@)),
        crate::names::env_views_of(r@).to_multiset() == crate::names::env_views_of(
            v@,
        ).to_multiset(),
{
    let mut rest = v;
    let mut out: Vec<crate::names::EnvironmentName> = Vec::new();
    while rest.len() > 0
        invariant
            sorted_env_names(crate::names::env_views_of(out@)),
            forall|i: int, j: int|
                0 <= i < out@.len() && 0 <= j < rest@.len() ==> lex_cmp_of(
                    #[trigger] crate::names::env_views_of(out@)[i],
                    #[trigger] crate::names::env_views_of(rest@)[j],
                ) != Ordering::Greater,
            crate::names::env_views_of(out@).to_multiset().add(
                crate::names::env_views_of(rest@).to_multiset(),
            ) == crate::names::env_views_of(v@).to_multiset(),
        decreases rest@.len(),
    {
        let mut min: usize = 0;
        let mut i: usize = 1;
        proof {
            crate::text::lemma_lex_cmp_equal(
                crate::names::env_views_of(rest@)[0],
                crate::names::env_views_of(rest@)[0],
            );
        }
        while i < rest.len()
            invariant
                min < i <= rest@.len(),
                rest@.len() > 0,
                forall|k: int|
                    0 <= k < i ==> lex_cmp_of(
                        crate::names::env_views_of(rest@)[min as int],
                        #[trigger] crate::names::env_views_of(rest@)[k],
                    ) != Ordering::Greater,
            decreases rest@.len() - i,
        {
            let c = str_lex_cmp(rest[i].as_str(), rest[min].as_str());
            if matches!(c, Ordering::Less) {
                proof {
                    let rv = crate::names::env_views_of(rest@);
                    lemma_lex_cmp_flip(rv[min as int], rv[i as int]);
                    assert forall|k: int| 0 <= k < i + 1 implies lex_cmp_of(
                        rv[i as int],
                        #[trigger] rv[k],
                    ) != Ordering::Greater by {
                        if k < i {
                            lemma_lex_cmp_trans(rv[i as int], rv[min as int], rv[k]);
                        } else {
                            crate::text::lemma_lex_cmp_equal(rv[i as int], rv[i as int]);
                        }
                    }
                }
                min = i;
            } else {
                proof {
                    let rv = crate::names::env_views_of(rest@);
                    lemma_lex_cmp_flip(rv[i as int], rv[min as int]);
                }
            }
            i += 1;
        }
        let ghost old_out = out@;
        let ghost old_rest = rest@;
        let x = rest.remove(min);
        let ghost xv = x@;
        out.push(x);
        proof {
            let oov = crate::names::env_views_of(old_out);
            let orv = crate::names::env_views_of(old_rest);
            let ov = crate::names::env_views_of(out@);
            let rv = crate::names::env_views_of(rest@);
            assert(orv[min as int] == xv);
            assert(ov =~= oov.push(xv));
            assert(rv =~= orv.remove(min as int));
            assert(ov.to_multiset().add(rv.to_multiset()) =~= oov.to_multiset().add(
                orv.to_multiset(),
            ));
            assert forall|i2: int, j2: int| 0 <= i2 < j2 < ov.len() implies lex_cmp_of(
                ov[i2],
                ov[j2],
            ) != Ordering::Greater by {
                if j2 < oov.len() {
                    assert(lex_cmp_of(oov[i2], oov[j2]) != Ordering::Greater);
                } else {
                    assert(ov[j2] == xv);
                    assert(lex_cmp_of(oov[i2], orv[min as int]) != Ordering::Greater);
                }
            }
            assert forall|i2: int, j2: int|
                0 <= i2 < ov.len() && 0 <= j2 < rv.len() implies lex_cmp_of(
                    #[trigger] ov[i2],
                    #[trigger] rv[j2],
                ) != Ordering::Greater by {
                let j3 = if j2 < min as int {
                    j2
                } else {
                    j2 + 1
                };
                assert(rv[j2] == orv[j3]);
                if i2 < oov.len() {
                    assert(lex_cmp_of(oov[i2], orv[j3]) != Ordering::Greater);
                } else {
                    assert(ov[i2] == xv);
                    assert(lex_cmp_of(orv[min as int], orv[j3]) != Ordering::Greater);
                }
            }
        }
    }
    proof {
        assert(crate::names::env_views_of(rest@).to_multiset() =~= Multiset::<
            Seq<char>,
        >::empty()) by {
            assert(crate::names::env_views_of(rest@).len() == 0);
        }
        assert(crate::names::env_views_of(out@).to_multiset() =~= crate::names::env_views_of(
            v@,
        ).to_multiset());
    }
    out
}

/// A sequence of strings sorted lexicographically.
pub open spec fn sorted_strings(s: Seq<Seq<char>>) -> bool {
    forall|i: int, j: int|
        0 <= i < j < s.len() ==> lex_cmp_of(s[i], s[j]) != Ordering::Greater
}

/// Sorts a list of strings lexicographically by code point.
pub fn sort_strings(v: Vec<String>) -> (r: Vec<String>)
    ensures
        sorted_strings(strs_of(r@)),
        strs_of(r@).to_multiset() == strs_of(v@).to_multiset(),
{
    let ghost f = |t: String| t@;
    let mut rest = v;
    let mut out: Vec<String> = Vec::new();
    while rest.len() > 0
        invariant
            sorted_strings(strs_of(out@)),
            forall|i: int, j: int|
                0 <= i < out@.len() && 0 <= j < rest@.len() ==> lex_cmp_of(
                    #[trigger] strs_of(out@)[i],
                    #[trigger] strs_of(rest@)[j],
                ) != Ordering::Greater,
            strs_of(out@).to_multiset().add(
                strs_of(rest@).to_multiset(),
            ) == strs_of(v@).to_multiset(),
        decreases rest@.len(),
    {
        let mut min: usize = 0;
        let mut i: usize = 1;
        proof {
            crate::text::lemma_lex_cmp_equal(strs_of(rest@)[0], strs_of(rest@)[0]);
        }
        while i < rest.len()
            invariant
                min < i <= rest@.len(),
                rest@.len() > 0,
                forall|k: int|
                    0 <= k < i ==> lex_cmp_of(
                        strs_of(rest@)[min as int],
                        #[trigger] strs_of(rest@)[k],
                    ) != Ordering::Greater,
            decreases rest@.len() - i,
        {
            let c = str_lex_cmp(rest[i].as_str(), rest[min].as_str());
            if matches!(c, Ordering::Less) {
                proof {
                    let rv = strs_of(rest@);
                    lemma_lex_cmp_flip(rv[min as int], rv[i as int]);
                    assert forall|k: int| 0 <= k < i + 1 implies lex_cmp_of(
                        rv[i as int],
                        #[trigger] rv[k],
                    ) != Ordering::Greater by {
                        if k < i {
                            lemma_lex_cmp_trans(rv[i as int], rv[min as int], rv[k]);
                        } else {
                            crate::text::lemma_lex_cmp_equal(rv[i as int], rv[i as int]);
                        }
                    }
                }
                min = i;
            } else {
                proof {
                    let rv = strs_of(rest@);
                    lemma_lex_cmp_flip(rv[i as int], rv[min as int]);
                }
            }
            i += 1;
        }
        let ghost old_out = out@;
        let ghost old_rest = rest@;
        let x = rest.remove(min);
        let ghost xv = x@;
        out.push(x);
        proof {
            assert(strs_of(old_rest)[min as int] == xv);
            assert(strs_of(out@) =~= strs_of(old_out).push(
                xv,
            ));
            assert(strs_of(rest@) =~= strs_of(old_rest).remove(min as int));
            assert(strs_of(out@).to_multiset().add(
                strs_of(rest@).to_multiset(),
            ) =~= strs_of(old_out).to_multiset().add(
                strs_of(old_rest).to_multiset(),
            ));
            let ov = strs_of(out@);
            let oov = strs_of(old_out);
            let orv = strs_of(old_rest);
            let rv = strs_of(rest@);
            assert forall|i2: int, j2: int| 0 <= i2 < j2 < ov.len() implies lex_cmp_of(
                ov[i2],
                ov[j2],
            ) != Ordering::Greater by {
                if j2 < oov.len() {
                    assert(lex_cmp_of(oov[i2], oov[j2]) != Ordering::Greater);
                } else {
                    assert(ov[j2] == xv);
                    assert(lex_cmp_of(oov[i2], orv[min as int]) != Ordering::Greater);
                }
            }
            assert forall|i2: int, j2: int|
                0 <= i2 < ov.len() && 0 <= j2 < rv.len() implies lex_cmp_of(
                    #[trigger] ov[i2],
                    #[trigger] rv[j2],
                ) != Ordering::Greater by {
                let j3 = if j2 < min as int {
                    j2
                } else {
                    j2 + 1
                };
                assert(rv[j2] == orv[j3]);
                if i2 < oov.len() {
                    assert(lex_cmp_of(oov[i2], orv[j3]) != Ordering::Greater);
                } else {
                    assert(ov[i2] == xv);
                    assert(lex_cmp_of(orv[min as int], orv[j3]) != Ordering::Greater);
                }
            }
        }
    }
    proof {
        assert(strs_of(rest@).to_multiset() =~= Multiset::<
            Seq<char>,
        >::empty()) by {
            assert(strs_of(rest@).len() == 0);
        }
        assert(strs_of(out@).to_multiset() =~= v@.map_values(
            |t: String| t@,
        ).to_multiset());
    }
    out
}

} // verus!
