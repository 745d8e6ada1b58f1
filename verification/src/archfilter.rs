//! The fail-architecture mini-language and its resolver.
//!
//! A package may carry a compact spec naming the architectures it is not
//! expected to build on. The spec is either a plain list — `arch` or
//! `(a|b|c)` — naming architectures known to fail, which are therefore
//! dropped (the historically named "include" variant), or the same list
//! behind a leading `!`, meaning the package fails everywhere else, so only
//! the listed architectures are kept. Resolution filters the full
//! repository list by the package's tree category, drops the synthetic
//! `noarch` entry, applies the variant, and returns the surviving real
//! names deduplicated in ascending order.

use crate::model::Repo;
use crate::strutil::contains_string;
use crate::strutil::dedup_first;
use crate::strutil::lemma_dedup_first_membership;
use crate::strutil::seq_views;
use crate::strutil::sort_lex;
use crate::strutil::sorted_strict_asc;
use crate::strutil::sorted_unique_strings;
use crate::strutil::split_char;
use crate::strutil::split_string;
use crate::strutil::str_eq;
use vstd::prelude::*;

verus! {

/// The parsed fail-architecture spec. `Include` lists architectures that
/// fail (and are removed); `Exclude` lists the only ones that do not.
#[derive(Debug)]
pub enum FailArch {
    Include(Vec<String>),
    Exclude(Vec<String>),
}

/// The one failure this component can raise: a malformed spec.
#[derive(Debug)]
pub struct FailArchError {}

impl FailArchError {
    /// The user-visible description of the failure.
    pub fn message(&self) -> (r: String)
        ensures
            r@ == "invalid FAIL_ARCH format"@,
    {
        String::from_str("invalid FAIL_ARCH format")
    }
}

/// The negation marker and name list of a parsed spec.
pub open spec fn fail_arch_view(fa: FailArch) -> (bool, Seq<Seq<char>>) {
    match fa {
        FailArch::Include(v) => (false, seq_views(v@)),
        FailArch::Exclude(v) => (true, seq_views(v@)),
    }
}

/// An architecture name: nonempty, free of the marker characters.
pub open spec fn valid_arch_name(s: Seq<char>) -> bool {
    s.len() > 0 && forall|i: int|
        0 <= i < s.len() ==> s[i] != '(' && s[i] != ')' && s[i] != '|' && s[i] != '!'
}

pub open spec fn all_valid_names(ns: Seq<Seq<char>>) -> bool {
    forall|i: int| 0 <= i < ns.len() ==> valid_arch_name(#[trigger] ns[i])
}

/// The name list of a spec body: a parenthesised `|`-separated list, or a
/// single bare name.
pub open spec fn spec_parse_body(b: Seq<char>) -> Option<Seq<Seq<char>>> {
    if b.len() >= 2 && b[0] == '(' && b[b.len() - 1] == ')' {
        let ns = split_char(b.subrange(1, b.len() - 1), '|');
        if all_valid_names(ns) {
            Some(ns)
        } else {
            None
        }
    } else if valid_arch_name(b) {
        Some(seq![b])
    } else {
        None
    }
}

/// A whole spec: an optional leading `!`, then the body.
pub open spec fn spec_parse_fail_arch(s: Seq<char>) -> Option<(bool, Seq<Seq<char>>)> {
    if s.len() > 0 && s[0] == '!' {
        match spec_parse_body(s.skip(1)) {
            Some(ns) => Some((true, ns)),
            None => None,
        }
    } else {
        match spec_parse_body(s) {
            Some(ns) => Some((false, ns)),
            None => None,
        }
    }
}

/// Whether a repository survives the filter: right category, not the
/// synthetic `noarch` entry, and let through by the variant.
pub open spec fn repo_survives(
    r: Repo,
    cat: Seq<char>,
    exclude: bool,
    names: Seq<Seq<char>>,
) -> bool {
    r.category@ == cat && r.realname@ != "noarch"@ && (if exclude {
        names.contains(r.realname@)
    } else {
        !names.contains(r.realname@)
    })
}

/// Real names of the surviving repositories, in input order.
pub open spec fn filtered_realnames(
    repos: Seq<Repo>,
    cat: Seq<char>,
    exclude: bool,
    names: Seq<Seq<char>>,
) -> Seq<Seq<char>>
    decreases repos.len(),
{
    if repos.len() == 0 {
        Seq::empty()
    } else {
        let rest = filtered_realnames(repos.drop_last(), cat, exclude, names);
        if repo_survives(repos.last(), cat, exclude, names) {
            rest.push(repos.last().realname@)
        } else {
            rest
        }
    }
}

/// Every filtered name is the real name of some surviving input repository.
proof fn lemma_filtered_membership(
    repos: Seq<Repo>,
    cat: Seq<char>,
    exclude: bool,
    names: Seq<Seq<char>>,
    x: Seq<char>,
)
    requires
        filtered_realnames(repos, cat, exclude, names).contains(x),
    ensures
        exists|i: int|
            0 <= i < repos.len() && repos[i].realname@ == x && repo_survives(
                #[trigger] repos[i],
                cat,
                exclude,
                names,
            ),
    decreases repos.len(),
{
    if repos.len() != 0 {
        let f = filtered_realnames(repos, cat, exclude, names);
        let rest = filtered_realnames(repos.drop_last(), cat, exclude, names);
        if repo_survives(repos.last(), cat, exclude, names) {
            let j = choose|j: int| 0 <= j < f.len() && f[j] == x;
            if j < rest.len() {
                assert(rest[j] == x);
                lemma_filtered_membership(repos.drop_last(), cat, exclude, names, x);
                let i = choose|i: int|
                    0 <= i < repos.drop_last().len() && repos.drop_last()[i].realname@ == x
                        && repo_survives(repos.drop_last()[i], cat, exclude, names);
                assert(repos[i] == repos.drop_last()[i]);
            } else {
                assert(repos[repos.len() - 1] == repos.last());
            }
        } else {
            lemma_filtered_membership(repos.drop_last(), cat, exclude, names, x);
            let i = choose|i: int|
                0 <= i < repos.drop_last().len() && repos.drop_last()[i].realname@ == x
                    && repo_survives(repos.drop_last()[i], cat, exclude, names);
            assert(repos[i] == repos.drop_last()[i]);
        }
    }
}

/// Whether every character of `s` may appear in an architecture name.
fn check_arch_name(s: &str) -> (r: bool)
    ensures
        r == valid_arch_name(s@),
{
    let len = s.unicode_len();
    if len == 0 {
        return false;
    }
    let mut i: usize = 0;
    while i < len
        invariant
            i <= len,
            len == s@.len(),
            forall|k: int|
                0 <= k < i ==> s@[k] != '(' && s@[k] != ')' && s@[k] != '|' && s@[k] != '!',
        decreases len - i,
    {
        let c = s.get_char(i);
        if c == '(' || c == ')' || c == '|' || c == '!' {
            return false;
        }
        i = i + 1;
    }
    true
}

/// Parse the body of a spec into its name list.
fn parse_body(b: &str) -> (r: Option<Vec<String>>)
    ensures
        match r {
            Some(v) => spec_parse_body(b@) == Some(seq_views(v@)),
            None => spec_parse_body(b@) is None,
        },
{
    let n = b.unicode_len();
    if n >= 2 && b.get_char(0) == '(' && b.get_char(n - 1) == ')' {
        let inner = b.substring_char(1, n - 1);
        let ns = split_string(inner, '|');
        let mut i: usize = 0;
        while i < ns.len()
            invariant
                i <= ns@.len(),
                b@.len() >= 2 && b@[0] == '(' && b@[b@.len() - 1] == ')',
                seq_views(ns@) == split_char(b@.subrange(1, b@.len() - 1), '|'),
                forall|k: int| 0 <= k < i ==> valid_arch_name(#[trigger] seq_views(ns@)[k]),
            decreases ns@.len() - i,
        {
            proof {
                crate::strutil::lemma_seq_views_index(ns@, i as int);
            }
            if !check_arch_name(ns[i].as_str()) {
                assert(!valid_arch_name(seq_views(ns@)[i as int]));
                assert(!all_valid_names(seq_views(ns@)));
                return None;
            }
            i = i + 1;
        }
        proof {
            crate::strutil::lemma_seq_views_len(ns@);
            assert(all_valid_names(seq_views(ns@)));
        }
        Some(ns)
    } else if check_arch_name(b) {
        let mut v: Vec<String> = Vec::new();
        v.push(b.to_owned());
        assert(seq_views(v@) =~= seq![b@]);
        Some(v)
    } else {
        None
    }
}

/// Parse a fail-architecture spec; a malformed spec is an error, never a
/// silent default.
pub fn parse_fail_arch(s: &str) -> (r: Result<FailArch, FailArchError>)
    ensures
        match r {
            Ok(fa) => spec_parse_fail_arch(s@) == Some(fail_arch_view(fa)),
            Err(_) => spec_parse_fail_arch(s@) is None,
        },
{
    let len = s.unicode_len();
    if len > 0 && s.get_char(0) == '!' {
        let body = s.substring_char(1, len);
        match parse_body(body) {
            Some(ns) => Ok(FailArch::Exclude(ns)),
            None => Err(FailArchError {}),
        }
    } else {
        let body = s.substring_char(0, len);
        assert(body@ =~= s@);
        match parse_body(body) {
            Some(ns) => Ok(FailArch::Include(ns)),
            None => Err(FailArchError {}),
        }
    }
}

/// Resolve a fail-architecture spec against the full repository list.
///
/// Returns the real names of the repositories of the package's tree
/// category that the spec leaves in, never `noarch`, deduplicated and in
/// ascending order; a malformed spec is the only error.
pub fn resolve(spec: &str, tree_category: &str, all_repos: &Vec<Repo>) -> (r: Result<
    Vec<String>,
    FailArchError,
>)
    ensures
        (r is Ok) == (spec_parse_fail_arch(spec@) is Some),
        match r {
            Ok(v) => {
                let fa = spec_parse_fail_arch(spec@).unwrap();
                &&& seq_views(v@) == sort_lex(
                    dedup_first(filtered_realnames(all_repos@, tree_category@, fa.0, fa.1)),
                )
                &&& sorted_strict_asc(seq_views(v@))
                &&& forall|x: Seq<char>| #[trigger] seq_views(v@).contains(x) ==> x != "noarch"@
                &&& forall|x: Seq<char>| #[trigger]
                    seq_views(v@).contains(x) ==> exists|i: int|
                        0 <= i < all_repos@.len() && all_repos@[i].realname@ == x
            },
            Err(_) => true,
        },
{
    let fa = match parse_fail_arch(spec) {
        Ok(fa) => fa,
        Err(e) => {
            return Err(e);
        },
    };
    let (exclude, names) = match &fa {
        FailArch::Include(v) => (false, v),
        FailArch::Exclude(v) => (true, v),
    };
    let ghost gexclude = fail_arch_view(fa).0;
    let ghost gnames = fail_arch_view(fa).1;
    assert(gexclude == exclude && gnames == seq_views(names@));
    let mut matched: Vec<String> = Vec::new();
    let mut i: usize = 0;
    assert(seq_views(matched@) =~= filtered_realnames(
        all_repos@.take(0),
        tree_category@,
        gexclude,
        gnames,
    ));
    while i < all_repos.len()
        invariant
            i <= all_repos@.len(),
            gexclude == exclude,
            gnames == seq_views(names@),
            seq_views(matched@) == filtered_realnames(
                all_repos@.take(i as int),
                tree_category@,
                gexclude,
                gnames,
            ),
        decreases all_repos@.len() - i,
    {
        proof {
            assert(all_repos@.take(i as int + 1).drop_last() =~= all_repos@.take(i as int));
            assert(all_repos@.take(i as int + 1).last() == all_repos@[i as int]);
        }
        let keep_cat = str_eq(all_repos[i].category.as_str(), tree_category);
        let is_noarch = str_eq(all_repos[i].realname.as_str(), "noarch");
        let listed = contains_string(names, all_repos[i].realname.as_str());
        let flag = if exclude {
            listed
        } else {
            !listed
        };
        if keep_cat && !is_noarch && flag {
            matched.push(all_repos[i].realname.clone());
            assert(seq_views(matched@) =~= filtered_realnames(
                all_repos@.take(i as int + 1),
                tree_category@,
                gexclude,
                gnames,
            ));
        } else {
            assert(seq_views(matched@) =~= filtered_realnames(
                all_repos@.take(i as int + 1),
                tree_category@,
                gexclude,
                gnames,
            ));
        }
        i = i + 1;
    }
    assert(all_repos@.take(all_repos@.len() as int) =~= all_repos@);
    let out = sorted_unique_strings(&matched);
    proof {
        let filt = filtered_realnames(all_repos@, tree_category@, gexclude, gnames);
        assert forall|x: Seq<char>| #[trigger] seq_views(out@).contains(x) implies x != "noarch"@
            && exists|i: int|
            0 <= i < all_repos@.len() && all_repos@[i].realname@ == x by {
            assert(seq_views(matched@).contains(x));
            lemma_filtered_membership(all_repos@, tree_category@, gexclude, gnames, x);
        }
    }
    Ok(out)
}

} // verus!
