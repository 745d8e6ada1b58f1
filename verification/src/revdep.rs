//! The reverse-dependency view's grouping pass.
//!
//! The data store hands one row per (dependent package, architecture,
//! relationship). Rows are grouped by relationship — of the four kinds the
//! view shows, in fixed order — taking, as a map built from consecutive
//! runs would, the last run of each kind. Within a kind, each dependent
//! package's consecutive rows collapse to its single all-architectures
//! row when one exists; otherwise every architecture-specific row stays.

use crate::strutil::str_eq;
use vstd::prelude::*;

verus! {

/// One reverse-dependency row.
#[derive(Debug)]
pub struct RevDep {
    pub package: String,
    pub version: String,
    pub relationship: String,
    pub architecture: String,
}

/// One relationship's collapsed rows.
#[derive(Debug)]
pub struct RevDepGroup {
    pub description: String,
    pub deps: Vec<RevDep>,
}

pub type RevDepView = (Seq<char>, Seq<char>, Seq<char>, Seq<char>);

pub open spec fn rd_view(r: RevDep) -> RevDepView {
    (r.package@, r.version@, r.relationship@, r.architecture@)
}

pub open spec fn rd_views(s: Seq<RevDep>) -> Seq<RevDepView> {
    s.map_values(|r: RevDep| rd_view(r))
}

proof fn lemma_rd_views_index(s: Seq<RevDep>, i: int)
    requires
        0 <= i < s.len(),
    ensures
        rd_views(s).len() == s.len(),
        rd_views(s)[i] == rd_view(s[i]),
{
}

proof fn lemma_rd_views_len(s: Seq<RevDep>)
    ensures
        rd_views(s).len() == s.len(),
{
}

pub open spec fn group_view(g: RevDepGroup) -> (Seq<char>, Seq<RevDepView>) {
    (g.description@, rd_views(g.deps@))
}

pub open spec fn group_views(s: Seq<RevDepGroup>) -> Seq<(Seq<char>, Seq<RevDepView>)> {
    s.map_values(|g: RevDepGroup| group_view(g))
}

/// The longest suffix of rows all of relationship `k`.
pub open spec fn suffix_run(rs: Seq<RevDepView>, k: Seq<char>) -> Seq<RevDepView>
    decreases rs.len(),
{
    if rs.len() == 0 || rs.last().2 != k {
        Seq::empty()
    } else {
        suffix_run(rs.drop_last(), k).push(rs.last())
    }
}

/// The last consecutive run of rows of relationship `k`.
pub open spec fn last_run_with_kind(rs: Seq<RevDepView>, k: Seq<char>) -> Seq<RevDepView>
    decreases rs.len(),
{
    if rs.len() == 0 {
        Seq::empty()
    } else if rs.last().2 == k {
        suffix_run(rs, k)
    } else {
        last_run_with_kind(rs.drop_last(), k)
    }
}

/// How many leading rows share the package name `p`.
pub open spec fn run_len2(rs: Seq<RevDepView>, p: Seq<char>) -> nat
    decreases rs.len(),
{
    if rs.len() > 0 && rs[0].0 == p {
        (1 + run_len2(rs.skip(1), p)) as nat
    } else {
        0
    }
}

/// Index of the first row with an empty architecture, or -1.
pub open spec fn first_empty_arch(grp: Seq<RevDepView>) -> int
    decreases grp.len(),
{
    if grp.len() == 0 {
        -1
    } else if grp[0].3.len() == 0 {
        0
    } else {
        let r = first_empty_arch(grp.skip(1));
        if r < 0 {
            -1
        } else {
            r + 1
        }
    }
}

/// Collapse each package's consecutive rows: its all-architectures row
/// alone when one exists, else all of them.
pub open spec fn collapse_runs(rs: Seq<RevDepView>) -> Seq<RevDepView>
    decreases rs.len(),
{
    if rs.len() == 0 {
        Seq::empty()
    } else {
        let n = run_len2(rs, rs[0].0);
        let m = if n <= rs.len() {
            n as int
        } else {
            rs.len() as int
        };
        let grp = rs.take(m);
        let picked = if first_empty_arch(grp) >= 0 {
            seq![grp[first_empty_arch(grp)]]
        } else {
            grp
        };
        picked + collapse_runs(rs.skip(m))
    }
}

/// One kind's group, when the kind occurs at all.
pub open spec fn group_for_kind(rs: Seq<RevDepView>, k: Seq<char>, d: Seq<char>) -> Seq<
    (Seq<char>, Seq<RevDepView>),
> {
    if last_run_with_kind(rs, k).len() == 0 {
        Seq::empty()
    } else {
        seq![(d, collapse_runs(last_run_with_kind(rs, k)))]
    }
}

/// The reverse-dependency view's groups, in display order.
pub open spec fn spec_rev_groups(rs: Seq<RevDepView>) -> Seq<(Seq<char>, Seq<RevDepView>)> {
    group_for_kind(rs, "PKGDEP"@, "Depended by"@) + group_for_kind(
        rs,
        "BUILDDEP"@,
        "Depended by (build)"@,
    ) + group_for_kind(rs, "PKGRECOM"@, "Recommended by"@) + group_for_kind(
        rs,
        "PKGSUG"@,
        "Suggested by"@,
    )
}

fn clone_rev_dep(r: &RevDep) -> (c: RevDep)
    ensures
        rd_view(c) == rd_view(*r),
{
    RevDep {
        package: r.package.clone(),
        version: r.version.clone(),
        relationship: r.relationship.clone(),
        architecture: r.architecture.clone(),
    }
}

/// A block of same-kind rows ending at the end is the whole suffix run.
proof fn lemma_suffix_run_block(rs: Seq<RevDepView>, k: Seq<char>, b: int)
    requires
        0 <= b <= rs.len(),
        forall|m: int| b <= m < rs.len() ==> (#[trigger] rs[m]).2 == k,
        b > 0 ==> rs[b - 1].2 != k,
    ensures
        suffix_run(rs, k) == rs.skip(b),
    decreases rs.len(),
{
    if rs.len() == 0 {
        assert(rs.skip(b) =~= Seq::<RevDepView>::empty());
    } else if b == rs.len() {
        assert(rs.skip(b) =~= Seq::<RevDepView>::empty());
        if b > 0 {
            assert(rs.last().2 != k) by {
                assert(rs[rs.len() - 1] == rs.last());
            }
        }
    } else {
        assert(rs[rs.len() - 1] == rs.last());
        assert(rs.last().2 == k);
        if b == rs.len() {
        } else {
            assert forall|m: int| b <= m < rs.drop_last().len() implies (#[trigger] rs.drop_last()[m]).2 == k by {
                assert(rs.drop_last()[m] == rs[m]);
            }
            if b > 0 {
                assert(rs.drop_last()[b - 1] == rs[b - 1]);
            }
            lemma_suffix_run_block(rs.drop_last(), k, b);
            assert(rs.drop_last().skip(b).push(rs.last()) =~= rs.skip(b));
        }
    }
}

/// After the last row of kind `k`, the last run is the block that ends
/// there.
proof fn lemma_last_run_at(rs: Seq<RevDepView>, k: Seq<char>, j: int)
    requires
        0 <= j < rs.len(),
        rs[j].2 == k,
        forall|m: int| j < m < rs.len() ==> (#[trigger] rs[m]).2 != k,
    ensures
        last_run_with_kind(rs, k) == suffix_run(rs.take(j + 1), k),
    decreases rs.len(),
{
    if j == rs.len() - 1 {
        assert(rs.take(j + 1) =~= rs);
        assert(rs[rs.len() - 1] == rs.last());
    } else {
        assert(rs[rs.len() - 1] == rs.last());
        assert(rs.last().2 != k);
        assert forall|m: int| j < m < rs.drop_last().len() implies (#[trigger] rs.drop_last()[m]).2 != k by {
            assert(rs.drop_last()[m] == rs[m]);
        }
        assert(rs.drop_last()[j] == rs[j]);
        lemma_last_run_at(rs.drop_last(), k, j);
        assert(rs.drop_last().take(j + 1) =~= rs.take(j + 1));
    }
}

/// When no row has kind `k`, there is no run.
proof fn lemma_last_run_none(rs: Seq<RevDepView>, k: Seq<char>)
    requires
        forall|m: int| 0 <= m < rs.len() ==> (#[trigger] rs[m]).2 != k,
    ensures
        last_run_with_kind(rs, k).len() == 0,
    decreases rs.len(),
{
    if rs.len() != 0 {
        assert(rs[rs.len() - 1] == rs.last());
        assert forall|m: int| 0 <= m < rs.drop_last().len() implies (#[trigger] rs.drop_last()[m]).2 != k by {
            assert(rs.drop_last()[m] == rs[m]);
        }
        lemma_last_run_none(rs.drop_last(), k);
    }
}

/// The last consecutive run of rows of relationship `kind`.
fn last_run(deps: &Vec<RevDep>, kind: &str) -> (r: Vec<RevDep>)
    ensures
        rd_views(r@) == last_run_with_kind(rd_views(deps@), kind@),
{
    let ghost all = rd_views(deps@);
    proof {
        lemma_rd_views_len(deps@);
    }
    // find the last row of this kind
    let mut j: usize = deps.len();
    let mut found = false;
    while j > 0 && !found
        invariant
            j <= deps@.len(),
            all == rd_views(deps@),
            !found ==> forall|m: int| j <= m < all.len() ==> (#[trigger] all[m]).2 != kind@,
            found ==> j < all.len() && all[j as int].2 == kind@ && (forall|m: int|
                j < m < all.len() ==> (#[trigger] all[m]).2 != kind@),
        decreases j + (if found {
            0int
        } else {
            1int
        }),
    {
        proof {
            lemma_rd_views_index(deps@, j - 1);
        }
        if str_eq(deps[j - 1].relationship.as_str(), kind) {
            j = j - 1;
            found = true;
        } else {
            j = j - 1;
        }
    }
    if !found {
        proof {
            lemma_last_run_none(all, kind@);
        }
        let r: Vec<RevDep> = Vec::new();
        assert(rd_views(r@) =~= last_run_with_kind(all, kind@));
        return r;
    }
    // walk back to the start of that run
    let mut b: usize = j;
    let mut stop = false;
    while b > 0 && !stop
        invariant
            b <= j < all.len(),
            all == rd_views(deps@),
            all[j as int].2 == kind@,
            forall|m: int| b <= m <= j ==> (#[trigger] all[m]).2 == kind@,
            stop ==> b > 0 && all[b - 1].2 != kind@,
        decreases b + (if stop {
            0int
        } else {
            1int
        }),
    {
        proof {
            lemma_rd_views_index(deps@, b - 1);
        }
        if str_eq(deps[b - 1].relationship.as_str(), kind) {
            b = b - 1;
        } else {
            stop = true;
        }
    }
    proof {
        lemma_last_run_at(all, kind@, j as int);
        assert(b > 0 ==> all.take(j as int + 1)[b - 1] == all[b - 1]);
        assert forall|m: int| b <= m < all.take(j as int + 1).len() implies (#[trigger] all.take(
            j as int + 1,
        )[m]).2 == kind@ by {
            assert(all.take(j as int + 1)[m] == all[m]);
        }
        lemma_suffix_run_block(all.take(j as int + 1), kind@, b as int);
    }
    // copy out rows b ..= j
    let dlen = deps.len();
    let mut r: Vec<RevDep> = Vec::new();
    let mut i: usize = b;
    proof {
        lemma_rd_views_len(r@);
        assert(rd_views(r@) =~= all.take(j as int + 1).skip(b as int).take(0));
    }
    while i <= j
        invariant
            b <= i <= j + 1,
            j < dlen,
            dlen == deps@.len(),
            all == rd_views(deps@),
            rd_views(r@) == all.take(j as int + 1).skip(b as int).take(i - b),
        decreases j + 1 - i,
    {
        let ghost old_r = r@;
        r.push(clone_rev_dep(&deps[i]));
        proof {
            lemma_rd_views_len(old_r);
            lemma_rd_views_len(r@);
            lemma_rd_views_index(deps@, i as int);
            assert(rd_views(r@) =~= all.take(j as int + 1).skip(b as int).take(i - b + 1)) by {
                assert forall|m: int| 0 <= m < r@.len() implies rd_views(r@)[m] == all.take(
                    j as int + 1,
                ).skip(b as int).take(i as int - b + 1)[m] by {
                    lemma_rd_views_index(r@, m);
                    if m < old_r.len() {
                        lemma_rd_views_index(old_r, m);
                    }
                    assert(all.take(j as int + 1).skip(b as int)[m] == all[b + m]);
                }
            }
        }
        i = i + 1;
    }
    proof {
        assert(all.take(j as int + 1).skip(b as int).take(j + 1 - b) =~= all.take(
            j as int + 1,
        ).skip(b as int));
    }
    r
}

/// Leading rows of one package: exactly `j - i` of them.
proof fn lemma_run_len2_at(rs: Seq<RevDepView>, p: Seq<char>, n: int)
    requires
        0 <= n <= rs.len(),
        forall|m: int| 0 <= m < n ==> (#[trigger] rs[m]).0 == p,
        n < rs.len() ==> rs[n].0 != p,
    ensures
        run_len2(rs, p) == n,
    decreases n,
{
    if n == 0 {
    } else {
        assert(rs[0].0 == p);
        assert forall|m: int| 0 <= m < n - 1 implies (#[trigger] rs.skip(1)[m]).0 == p by {
            assert(rs.skip(1)[m] == rs[m + 1]);
        }
        if n - 1 < rs.skip(1).len() {
            assert(rs.skip(1)[n - 1] == rs[n]);
        }
        lemma_run_len2_at(rs.skip(1), p, n - 1);
    }
}

/// First empty architecture among the leading rows: a characterization.
proof fn lemma_first_empty_arch_at(grp: Seq<RevDepView>, e: int)
    requires
        0 <= e <= grp.len(),
        forall|m: int| 0 <= m < e ==> (#[trigger] grp[m]).3.len() != 0,
        e < grp.len() ==> grp[e].3.len() == 0,
    ensures
        e < grp.len() ==> first_empty_arch(grp) == e,
        e == grp.len() ==> first_empty_arch(grp) < 0,
    decreases e + 1,
{
    if grp.len() == 0 {
    } else if e == 0 {
    } else {
        assert(grp[0].3.len() != 0);
        assert forall|m: int| 0 <= m < e - 1 implies (#[trigger] grp.skip(1)[m]).3.len() != 0 by {
            assert(grp.skip(1)[m] == grp[m + 1]);
        }
        if e - 1 < grp.skip(1).len() {
            assert(grp.skip(1)[e - 1] == grp[e]);
        }
        lemma_first_empty_arch_at(grp.skip(1), e - 1);
    }
}

/// Collapse each package's consecutive rows.
fn collapse(run: &Vec<RevDep>) -> (r: Vec<RevDep>)
    ensures
        rd_views(r@) == collapse_runs(rd_views(run@)),
{
    let ghost all = rd_views(run@);
    proof {
        lemma_rd_views_len(run@);
    }
    let mut out: Vec<RevDep> = Vec::new();
    let mut i: usize = 0;
    proof {
        assert(all.skip(0) =~= all);
        assert(rd_views(out@) + collapse_runs(all.skip(0)) =~= collapse_runs(all)) by {
            assert(rd_views(out@) =~= Seq::<RevDepView>::empty());
        }
    }
    while i < run.len()
        invariant
            i <= run@.len(),
            all == rd_views(run@),
            rd_views(out@) + collapse_runs(all.skip(i as int)) == collapse_runs(all),
        decreases run@.len() - i,
    {
        let ghost rest = all.skip(i as int);
        // find the end of this package's run
        let mut j: usize = i + 1;
        let mut jstop = false;
        proof {
            lemma_rd_views_index(run@, i as int);
        }
        while j < run.len() && !jstop
            invariant
                i < j <= run@.len(),
                all == rd_views(run@),
                forall|m: int| i <= m < j ==> (#[trigger] all[m]).0 == all[i as int].0,
                jstop ==> j < run@.len() && all[j as int].0 != all[i as int].0,
            decreases run@.len() - j + (if jstop {
                0int
            } else {
                1int
            }),
        {
            proof {
                lemma_rd_views_index(run@, j as int);
            }
            if str_eq(run[j].package.as_str(), run[i].package.as_str()) {
                j = j + 1;
            } else {
                jstop = true;
            }
        }
        proof {
            assert forall|m: int| 0 <= m < j - i implies (#[trigger] rest[m]).0 == rest[0].0 by {
                assert(rest[m] == all[i + m]);
                assert(rest[0] == all[i as int]);
            }
            if j < run@.len() {
                lemma_rd_views_index(run@, j as int);
                assert(rest[j - i] == all[j as int]);
            }
            lemma_run_len2_at(rest, rest[0].0, j - i);
            assert(run_len2(rest, rest[0].0) == j - i);
        }
        // look for this package's all-architectures row
        let mut e: usize = i;
        let mut estop = false;
        while e < j && !estop
            invariant
                i <= e <= j <= run@.len(),
                all == rd_views(run@),
                forall|m: int| i <= m < e ==> (#[trigger] all[m]).3.len() != 0,
                estop ==> e < j && all[e as int].3.len() == 0,
            decreases j - e + (if estop {
                0int
            } else {
                1int
            }),
        {
            proof {
                lemma_rd_views_index(run@, e as int);
            }
            if !run[e].architecture.as_str().is_empty() {
                e = e + 1;
            } else {
                estop = true;
            }
        }
        let ghost grp = rest.take(j - i);
        proof {
            assert forall|m: int| 0 <= m < e - i implies (#[trigger] grp[m]).3.len() != 0 by {
                assert(grp[m] == all[i + m]);
            }
            if e < j {
                lemma_rd_views_index(run@, e as int);
                assert(grp[e - i] == all[e as int]);
            }
            lemma_first_empty_arch_at(grp, e - i);
        }
        let ghost out_old = out@;
        if e < j {
            // one row for every architecture
            out.push(clone_rev_dep(&run[e]));
            proof {
                lemma_rd_views_len(out_old);
                lemma_rd_views_len(out@);
                lemma_rd_views_index(run@, e as int);
                assert(first_empty_arch(grp) == e - i);
                assert(grp[e - i] == all[e as int]);
                assert(rd_views(out@) =~= rd_views(out_old) + seq![grp[first_empty_arch(grp)]])
                    by {
                    assert forall|m: int| 0 <= m < out@.len() implies rd_views(out@)[m] == (
                    rd_views(out_old) + seq![grp[first_empty_arch(grp)]])[m] by {
                        lemma_rd_views_index(out@, m);
                        if m < out_old.len() {
                            lemma_rd_views_index(out_old, m);
                        }
                    }
                }
            }
        } else {
            // keep each architecture-specific row
            let mut c: usize = i;
            while c < j
                invariant
                    i <= c <= j <= run@.len(),
                    all == rd_views(run@),
                    grp == all.skip(i as int).take(j - i),
                    rd_views(out@) == rd_views(out_old) + grp.take(c - i),
                decreases j - c,
            {
                let ghost out_prev = out@;
                out.push(clone_rev_dep(&run[c]));
                proof {
                    lemma_rd_views_len(out_prev);
                    lemma_rd_views_len(out@);
                    lemma_rd_views_index(run@, c as int);
                    assert(rd_views(out@) =~= rd_views(out_old) + grp.take(c - i + 1)) by {
                        assert(grp.take(c as int - i + 1) =~= grp.take(c - i).push(
                            all[c as int],
                        )) by {
                            assert(grp[c - i] == all[c as int]);
                        }
                        assert forall|m: int| 0 <= m < out@.len() implies rd_views(out@)[m] == (
                        rd_views(out_old) + grp.take(c as int - i + 1))[m] by {
                            lemma_rd_views_index(out@, m);
                            if m < out_prev.len() {
                                lemma_rd_views_index(out_prev, m);
                            }
                        }
                    }
                }
                c = c + 1;
            }
            proof {
                assert(grp.take(j - i) =~= grp);
                assert(rd_views(out@) == rd_views(out_old) + grp);
                assert(first_empty_arch(grp) < 0);
            }
        }
        proof {
            // one spec step of the collapse
            assert(rest.len() > 0);
            let n = run_len2(rest, rest[0].0);
            assert(n == j - i);
            let m = if n <= rest.len() {
                n as int
            } else {
                rest.len() as int
            };
            assert(m == j - i);
            assert(rest.take(m) == grp);
            assert(collapse_runs(rest) == (if first_empty_arch(grp) >= 0 {
                seq![grp[first_empty_arch(grp)]]
            } else {
                grp
            }) + collapse_runs(rest.skip(m)));
            assert(rest.skip(m) =~= all.skip(j as int));
            assert(rd_views(out@) + collapse_runs(all.skip(j as int)) =~= collapse_runs(all)) by {
                assert(rd_views(out_old) + collapse_runs(rest) =~= collapse_runs(all));
                assert(rd_views(out@) =~= rd_views(out_old) + (if first_empty_arch(grp) >= 0 {
                    seq![grp[first_empty_arch(grp)]]
                } else {
                    grp
                }));
            }
        }
        i = j;
    }
    proof {
        assert(all.skip(run@.len() as int) =~= Seq::<RevDepView>::empty());
        assert(collapse_runs(all.skip(run@.len() as int)) =~= Seq::<RevDepView>::empty());
        assert(rd_views(out@) =~= rd_views(out@) + Seq::<RevDepView>::empty());
    }
    out
}

/// Append one kind's group, when the kind occurs.
fn push_rev_group(out: &mut Vec<RevDepGroup>, deps: &Vec<RevDep>, kind: &str, display: &str)
    ensures
        group_views(final(out)@) == group_views(old(out)@) + group_for_kind(
            rd_views(deps@),
            kind@,
            display@,
        ),
{
    let lr = last_run(deps, kind);
    proof {
        lemma_rd_views_len(lr@);
    }
    if lr.len() == 0 {
        assert(group_views(out@) =~= group_views(out@) + group_for_kind(
            rd_views(deps@),
            kind@,
            display@,
        ));
        return ;
    }
    let collapsed = collapse(&lr);
    let g = RevDepGroup { description: display.to_owned(), deps: collapsed };
    let ghost gv = group_view(g);
    let ghost out_old = out@;
    out.push(g);
    proof {
        assert(gv == (display@, collapse_runs(last_run_with_kind(rd_views(deps@), kind@))));
        assert(group_views(out@) =~= group_views(out_old) + group_for_kind(
            rd_views(deps@),
            kind@,
            display@,
        )) by {
            assert forall|m: int| 0 <= m < out@.len() implies group_views(out@)[m] == (
            group_views(out_old) + group_for_kind(rd_views(deps@), kind@, display@))[m] by {
                if m < out_old.len() {
                    assert(out@[m] == out_old[m]);
                }
            }
        }
    }
}

/// Group reverse-dependency rows for display: the four shown kinds in
/// fixed order, each package collapsed to its all-architectures row when
/// one exists.
pub fn group_rev_deps(deps: &Vec<RevDep>) -> (r: Vec<RevDepGroup>)
    ensures
        group_views(r@) == spec_rev_groups(rd_views(deps@)),
{
    let mut out: Vec<RevDepGroup> = Vec::new();
    assert(group_views(out@) =~= Seq::<(Seq<char>, Seq<RevDepView>)>::empty());
    push_rev_group(&mut out, deps, "PKGDEP", "Depended by");
    push_rev_group(&mut out, deps, "BUILDDEP", "Depended by (build)");
    push_rev_group(&mut out, deps, "PKGRECOM", "Recommended by");
    push_rev_group(&mut out, deps, "PKGSUG", "Suggested by");
    proof {
        assert(group_views(out@) =~= spec_rev_groups(rd_views(deps@)));
    }
    out
}

} // verus!
