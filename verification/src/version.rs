//! Package-version ordering.
//!
//! Version strings are compared with the package manager's ordering
//! (epoch, upstream version, release) — never lexicographically. The
//! comparison itself comes from the `deb_version` crate; this module gives
//! its result a name, `version_cmp`, and builds the descending sort that
//! the version matrix needs on top of it. Package version strings are
//! ASCII by construction (digits, letters, `.+-~:`); the comparison is
//! only stated for ASCII input, since `deb_version` indexes by character
//! position and a multi-byte character could make it panic.

use crate::strutil::lemma_seq_insert_multiset;
use crate::strutil::lemma_seq_views_index;
use crate::strutil::lemma_seq_views_len;
use crate::strutil::seq_views;
use vstd::prelude::*;

verus! {

/// What `deb_version::compare_versions(a, b)` returns, as an integer:
/// negative when `a` orders below `b`, zero when they order equally,
/// positive when above.
pub uninterp spec fn version_cmp(a: Seq<char>, b: Seq<char>) -> int;

/// All strings in `s` are ASCII.
pub open spec fn all_ascii(s: Seq<String>) -> bool {
    forall|i: int| 0 <= i < s.len() ==> vstd::utf8::is_ascii_chars(#[trigger] s[i]@)
}

/// Relies on deb_version::compare_versions: package-version ordering, a
/// pure function of the two strings. The source returns `Equal` for equal
/// strings and mirrors every branch under argument exchange, so the result
/// is antisymmetric.
#[verifier::external_body]
fn compare_versions_raw(a: &str, b: &str) -> (r: i8)
    requires
        a.is_ascii(),
        b.is_ascii(),
    ensures
        r as int == version_cmp(a@, b@),
        version_cmp(b@, a@) == -(r as int),
        -1 <= r as int <= 1,
        a@ == b@ ==> r == 0,
{
    match deb_version::compare_versions(a, b) {
        std::cmp::Ordering::Less => -1,
        std::cmp::Ordering::Equal => 0,
        std::cmp::Ordering::Greater => 1,
    }
}

/// How a packaged version relates to the declared one: `-1` behind (or no
/// package at all), `0` equal, `1` ahead.
pub fn dpkg_version_status(latest: &str, fullver: &str) -> (r: i32)
    requires
        latest.is_ascii(),
        fullver.is_ascii(),
    ensures
        latest@.len() == 0 ==> r == -1,
        latest@.len() > 0 ==> r as int == version_cmp(latest@, fullver@) && -1 <= r <= 1,
{
    if latest.is_empty() {
        -1
    } else {
        compare_versions_raw(latest, fullver) as i32
    }
}

/// Neighbouring entries never order upward.
pub open spec fn sorted_desc_adjacent(s: Seq<Seq<char>>) -> bool {
    forall|i: int| 0 <= i < s.len() - 1 ==> version_cmp(#[trigger] s[i], s[i + 1]) >= 0
}

/// Sort version strings into descending package-version order.
///
/// The result holds exactly the input strings; each entry orders at or
/// above its successor. Entries that compare equal keep their relative
/// input order.
pub fn sort_versions_desc(vers: &Vec<String>) -> (r: Vec<String>)
    requires
        all_ascii(vers@),
    ensures
        seq_views(r@).to_multiset() == seq_views(vers@).to_multiset(),
        sorted_desc_adjacent(seq_views(r@)),
        all_ascii(r@),
{
    broadcast use vstd::seq_lib::group_to_multiset_ensures;

    let mut r: Vec<String> = Vec::new();
    let mut i: usize = 0;
    proof {
        lemma_seq_views_len(r@);
        assert(seq_views(vers@.take(0)) =~= Seq::<Seq<char>>::empty());
        assert(seq_views(r@) =~= Seq::<Seq<char>>::empty());
    }
    while i < vers.len()
        invariant
            i <= vers@.len(),
            all_ascii(vers@),
            all_ascii(r@),
            seq_views(r@).to_multiset() == seq_views(vers@.take(i as int)).to_multiset(),
            sorted_desc_adjacent(seq_views(r@)),
        decreases vers@.len() - i,
    {
        broadcast use vstd::seq_lib::group_to_multiset_ensures;

        let x = vers[i].clone();
        let ghost old_r = r@;
        // find the first place whose entry orders strictly below `x`
        let mut k: usize = 0;
        let mut found = false;
        while k < r.len() && !found
            invariant
                k <= r@.len(),
                r@ == old_r,
                all_ascii(r@),
                vstd::utf8::is_ascii_chars(x@),
                forall|j: int|
                    0 <= j < k ==> version_cmp(#[trigger] seq_views(r@)[j], x@) >= 0,
                found ==> k < r@.len() && version_cmp(x@, seq_views(r@)[k as int]) > 0,
            decreases r@.len() - k + (if found {
                0int
            } else {
                1int
            }),
        {
            proof {
                lemma_seq_views_index(r@, k as int);
            }
            let c = compare_versions_raw(x.as_str(), r[k].as_str());
            if c > 0 {
                found = true;
            } else {
                proof {
                    assert(version_cmp(seq_views(r@)[k as int], x@) >= 0);
                }
                k = k + 1;
            }
        }
        r.insert(k, x);
        proof {
            lemma_seq_views_len(old_r);
            lemma_seq_views_len(r@);
            assert(seq_views(r@) =~= seq_views(old_r).insert(k as int, x@)) by {
                assert forall|j: int| 0 <= j < r@.len() implies seq_views(r@)[j] == seq_views(
                    old_r,
                ).insert(k as int, x@)[j] by {
                    lemma_seq_views_index(r@, j);
                    if j < k {
                        lemma_seq_views_index(old_r, j);
                    } else if j > k {
                        lemma_seq_views_index(old_r, j - 1);
                    }
                }
            }
            lemma_seq_insert_multiset(seq_views(old_r), k as int, x@);
            assert(seq_views(vers@.take(i as int + 1)) =~= seq_views(vers@.take(i as int)).push(
                vers@[i as int]@,
            ));
            assert(seq_views(r@).to_multiset() == seq_views(
                vers@.take(i as int + 1),
            ).to_multiset());
            assert(sorted_desc_adjacent(seq_views(r@))) by {
                let s = seq_views(r@);
                let olds = seq_views(old_r);
                assert forall|j: int| 0 <= j < s.len() - 1 implies version_cmp(
                    #[trigger] s[j],
                    s[j + 1],
                ) >= 0 by {
                    if j + 1 < k {
                        assert(s[j] == olds[j] && s[j + 1] == olds[j + 1]);
                    } else if j + 1 == k {
                        assert(s[j] == olds[j] && s[j + 1] == x@);
                    } else if j == k {
                        assert(s[j] == x@ && s[j + 1] == olds[j]);
                    } else {
                        assert(s[j] == olds[j - 1] && s[j + 1] == olds[j]);
                    }
                }
            }
            assert(all_ascii(r@)) by {
                assert forall|j: int|
                    0 <= j < r@.len() implies vstd::utf8::is_ascii_chars(#[trigger] r@[j]@) by {
                    lemma_seq_views_index(r@, j);
                    if j < k {
                        lemma_seq_views_index(old_r, j);
                    } else if j > k {
                        lemma_seq_views_index(old_r, j - 1);
                    }
                }
            }
        }
        i = i + 1;
    }
    proof {
        assert(vers@.take(vers@.len() as int) =~= vers@);
    }
    r
}

} // verus!
