//! Layering of a shared-library break graph into rebuild waves.
//!
//! Each edge names a package hit by the break together with the packages it
//! is still blocked on. Rounds of Kahn's algorithm peel off the packages
//! whose blocking set is empty; whatever survives every round is a cycle.

use crate::strutil::contains_string;
use crate::strutil::dedup_first;
use crate::strutil::lemma_dedup_first_no_dups;
use crate::strutil::lemma_sort_lex_multiset;
use crate::strutil::lemma_sort_lex_sorted;
use crate::strutil::lemma_sorted_no_dups_strict;
use crate::strutil::seq_views;
use crate::strutil::sort_lex;
use crate::strutil::sort_strings;
use crate::strutil::sorted_strict_asc;
use crate::strutil::str_eq;
use vstd::multiset::Multiset;
use vstd::prelude::*;

verus! {

/// One node of the rebuild graph: a package hit by a shared-library break,
/// with the packages that must themselves be rebuilt before it.
#[derive(Debug)]
pub struct BreakEdge {
    pub package: String,
    pub deplist: Vec<String>,
}

pub open spec fn edge_view(e: BreakEdge) -> (Seq<char>, Seq<Seq<char>>) {
    (e.package@, seq_views(e.deplist@))
}

pub open spec fn edge_views(s: Seq<BreakEdge>) -> Seq<(Seq<char>, Seq<Seq<char>>)> {
    s.map_values(|e: BreakEdge| edge_view(e))
}

pub open spec fn assoc_keys(g: Seq<(Seq<char>, Seq<Seq<char>>)>) -> Seq<Seq<char>> {
    g.map_values(|p: (Seq<char>, Seq<Seq<char>>)| p.0)
}

/// Blocking set of the last entry named `k` (the data store may repeat a
/// name; the mapping keeps the last row, as a map built from rows would).
pub open spec fn last_value(g: Seq<(Seq<char>, Seq<Seq<char>>)>, k: Seq<char>) -> Seq<Seq<char>>
    decreases g.len(),
{
    if g.len() == 0 {
        Seq::empty()
    } else if g.last().0 == k {
        g.last().1
    } else {
        last_value(g.drop_last(), k)
    }
}

/// One entry per distinct name: first position, last blocking set.
pub open spec fn dedup_edges(g: Seq<(Seq<char>, Seq<Seq<char>>)>) -> Seq<
    (Seq<char>, Seq<Seq<char>>),
> {
    Seq::new(
        dedup_first(assoc_keys(g)).len(),
        |i: int| (dedup_first(assoc_keys(g))[i], last_value(g, dedup_first(assoc_keys(g))[i])),
    )
}

/// Names whose blocking set is empty, in entry order.
pub open spec fn ready_keys(g: Seq<(Seq<char>, Seq<Seq<char>>)>) -> Seq<Seq<char>>
    decreases g.len(),
{
    if g.len() == 0 {
        Seq::empty()
    } else {
        let rest = ready_keys(g.drop_last());
        if g.last().1.len() == 0 {
            rest.push(g.last().0)
        } else {
            rest
        }
    }
}

/// Drop from `d` every name that occurs in `names`.
pub open spec fn remove_names(d: Seq<Seq<char>>, names: Seq<Seq<char>>) -> Seq<Seq<char>>
    decreases d.len(),
{
    if d.len() == 0 {
        d
    } else {
        let rest = remove_names(d.drop_last(), names);
        if names.contains(d.last()) {
            rest
        } else {
            rest.push(d.last())
        }
    }
}

/// Remove the named entries and subtract the names from every blocking set.
pub open spec fn remove_ready(
    g: Seq<(Seq<char>, Seq<Seq<char>>)>,
    names: Seq<Seq<char>>,
) -> Seq<(Seq<char>, Seq<Seq<char>>)>
    decreases g.len(),
{
    if g.len() == 0 {
        g
    } else {
        let rest = remove_ready(g.drop_last(), names);
        if names.contains(g.last().0) {
            rest
        } else {
            rest.push((g.last().0, remove_names(g.last().1, names)))
        }
    }
}

/// State of the graph after `n` rounds of peeling the ready names.
pub open spec fn kahn_state(g: Seq<(Seq<char>, Seq<Seq<char>>)>, n: nat) -> Seq<
    (Seq<char>, Seq<Seq<char>>),
>
    decreases n,
{
    if n == 0 {
        g
    } else {
        let prev = kahn_state(g, (n - 1) as nat);
        remove_ready(prev, ready_keys(prev))
    }
}

proof fn lemma_edge_views_index(s: Seq<BreakEdge>, i: int)
    requires
        0 <= i < s.len(),
    ensures
        edge_views(s).len() == s.len(),
        edge_views(s)[i] == edge_view(s[i]),
{
}

proof fn lemma_assoc_keys_index(g: Seq<(Seq<char>, Seq<Seq<char>>)>, i: int)
    requires
        0 <= i < g.len(),
    ensures
        assoc_keys(g).len() == g.len(),
        assoc_keys(g)[i] == g[i].0,
{
}

/// A ready name always names an entry with an empty blocking set.
proof fn lemma_ready_membership(g: Seq<(Seq<char>, Seq<Seq<char>>)>, x: Seq<char>)
    ensures
        ready_keys(g).contains(x) <==> exists|i: int|
            0 <= i < g.len() && g[i].0 == x && g[i].1.len() == 0,
    decreases g.len(),
{
    if g.len() != 0 {
        lemma_ready_membership(g.drop_last(), x);
        let rest = ready_keys(g.drop_last());
        if ready_keys(g).contains(x) {
            if g.last().1.len() == 0 {
                assert(ready_keys(g) == rest.push(g.last().0));
                let j = choose|j: int| 0 <= j < ready_keys(g).len() && ready_keys(g)[j] == x;
                if j < rest.len() {
                    assert(rest[j] == x);
                    assert(rest.contains(x));
                    let i = choose|i: int|
                        0 <= i < g.drop_last().len() && g.drop_last()[i].0 == x
                            && g.drop_last()[i].1.len() == 0;
                    assert(g[i].0 == x && g[i].1.len() == 0);
                } else {
                    assert(g[g.len() - 1].0 == x && g[g.len() - 1].1.len() == 0);
                }
            } else {
                assert(ready_keys(g) == rest);
                let i = choose|i: int|
                    0 <= i < g.drop_last().len() && g.drop_last()[i].0 == x
                        && g.drop_last()[i].1.len() == 0;
                assert(g[i].0 == x && g[i].1.len() == 0);
            }
        }
        if exists|i: int| 0 <= i < g.len() && g[i].0 == x && g[i].1.len() == 0 {
            let i = choose|i: int| 0 <= i < g.len() && g[i].0 == x && g[i].1.len() == 0;
            if i == g.len() - 1 {
                assert(g.last().1.len() == 0 && g.last().0 == x);
                assert(ready_keys(g) == rest.push(g.last().0));
                assert(ready_keys(g)[ready_keys(g).len() - 1] == x);
                assert(ready_keys(g).contains(x));
            } else {
                assert(g.drop_last()[i].0 == x && g.drop_last()[i].1.len() == 0);
                assert(rest.contains(x));
                let j = choose|j: int| 0 <= j < rest.len() && rest[j] == x;
                if g.last().1.len() == 0 {
                    assert(ready_keys(g) == rest.push(g.last().0));
                    assert(ready_keys(g)[j] == x);
                } else {
                    assert(ready_keys(g) == rest);
                }
                assert(ready_keys(g).contains(x));
            }
        }
    }
}

/// Peeling never grows the graph, and removes every named entry.
proof fn lemma_remove_ready_len(g: Seq<(Seq<char>, Seq<Seq<char>>)>, names: Seq<Seq<char>>)
    ensures
        remove_ready(g, names).len() <= g.len(),
        (exists|i: int| 0 <= i < g.len() && names.contains(g[i].0)) ==> remove_ready(
            g,
            names,
        ).len() < g.len(),
    decreases g.len(),
{
    if g.len() != 0 {
        lemma_remove_ready_len(g.drop_last(), names);
        if exists|i: int| 0 <= i < g.len() && names.contains(g[i].0) {
            let i = choose|i: int| 0 <= i < g.len() && names.contains(g[i].0);
            if !names.contains(g.last().0) {
                assert(i < g.len() - 1);
                assert(g.drop_last()[i] == g[i]);
            }
        }
    }
}

/// Keys of the peeled graph: a sub-collection of the old keys.
proof fn lemma_remove_ready_keys(g: Seq<(Seq<char>, Seq<Seq<char>>)>, names: Seq<Seq<char>>)
    requires
        assoc_keys(g).no_duplicates(),
    ensures
        assoc_keys(remove_ready(g, names)).no_duplicates(),
        forall|x: Seq<char>| #[trigger]
            assoc_keys(remove_ready(g, names)).contains(x) ==> assoc_keys(g).contains(x)
                && !names.contains(x),
    decreases g.len(),
{
    if g.len() != 0 {
        assert(assoc_keys(g.drop_last()) =~= assoc_keys(g).drop_last());
        assert(assoc_keys(g).drop_last().no_duplicates());
        lemma_remove_ready_keys(g.drop_last(), names);
        let rest = remove_ready(g.drop_last(), names);
        if !names.contains(g.last().0) {
            let p = (g.last().0, remove_names(g.last().1, names));
            assert(assoc_keys(rest.push(p)) =~= assoc_keys(rest).push(g.last().0));
            assert(!assoc_keys(rest).contains(g.last().0)) by {
                if assoc_keys(rest).contains(g.last().0) {
                    assert(assoc_keys(g.drop_last()).contains(g.last().0));
                    let j = choose|j: int|
                        0 <= j < assoc_keys(g.drop_last()).len() && assoc_keys(g.drop_last())[j]
                            == g.last().0;
                    assert(assoc_keys(g)[j] == g.last().0);
                    assert(assoc_keys(g)[g.len() - 1] == g.last().0);
                }
            }
            assert forall|x: Seq<char>| #[trigger]
                assoc_keys(rest.push(p)).contains(x) implies assoc_keys(g).contains(x)
                && !names.contains(x) by {
                let j = choose|j: int|
                    0 <= j < assoc_keys(rest.push(p)).len() && assoc_keys(rest.push(p))[j] == x;
                if j < assoc_keys(rest).len() {
                    assert(assoc_keys(rest)[j] == x);
                    assert(assoc_keys(rest).contains(x));
                    assert(assoc_keys(g.drop_last()).contains(x));
                    let m = choose|m: int|
                        0 <= m < assoc_keys(g.drop_last()).len() && assoc_keys(g.drop_last())[m]
                            == x;
                    assert(assoc_keys(g)[m] == x);
                } else {
                    assert(x == g.last().0);
                    assert(assoc_keys(g)[g.len() - 1] == x);
                }
            }
            assert(assoc_keys(rest).push(g.last().0).no_duplicates());
        } else {
            assert forall|x: Seq<char>| #[trigger]
                assoc_keys(rest).contains(x) implies assoc_keys(g).contains(x) && !names.contains(
                x,
            ) by {
                assert(assoc_keys(g.drop_last()).contains(x));
                let m = choose|m: int|
                    0 <= m < assoc_keys(g.drop_last()).len() && assoc_keys(g.drop_last())[m] == x;
                assert(assoc_keys(g)[m] == x);
            }
        }
    }
}

/// Keys kept by `remove_ready` and keys handed out as ready partition the
/// keys of a duplicate-free graph.
proof fn lemma_round_partition(g: Seq<(Seq<char>, Seq<Seq<char>>)>)
    requires
        assoc_keys(g).no_duplicates(),
    ensures
        assoc_keys(g).to_multiset() == ready_keys(g).to_multiset().add(
            assoc_keys(remove_ready(g, ready_keys(g))).to_multiset(),
        ),
{
    assert forall|i: int| 0 <= i < g.len() implies (ready_keys(g).contains(#[trigger] g[i].0)
        <==> g[i].1.len() == 0) by {
        lemma_ready_membership(g, g[i].0);
        if ready_keys(g).contains(g[i].0) {
            let j = choose|j: int| 0 <= j < g.len() && g[j].0 == g[i].0 && g[j].1.len() == 0;
            assert(assoc_keys(g)[j] == g[j].0);
            assert(assoc_keys(g)[i] == g[i].0);
            if i != j {
                assert(false);
            }
        }
    }
    lemma_round_partition_rel(g, ready_keys(g));
}

/// As `lemma_round_partition`, for any name set that selects exactly the
/// entries with empty blocking sets.
proof fn lemma_round_partition_rel(g: Seq<(Seq<char>, Seq<Seq<char>>)>, names: Seq<Seq<char>>)
    requires
        forall|i: int| 0 <= i < g.len() ==> (names.contains(#[trigger] g[i].0) <==> g[i].1.len()
            == 0),
    ensures
        assoc_keys(g).to_multiset() == ready_keys(g).to_multiset().add(
            assoc_keys(remove_ready(g, names)).to_multiset(),
        ),
    decreases g.len(),
{
    broadcast use vstd::seq_lib::group_to_multiset_ensures;

    if g.len() == 0 {
        assert(assoc_keys(g) =~= Seq::<Seq<char>>::empty());
        assert(assoc_keys(g).to_multiset() =~= ready_keys(g).to_multiset().add(
            assoc_keys(remove_ready(g, names)).to_multiset(),
        ));
    } else {
        assert(forall|i: int|
            0 <= i < g.drop_last().len() ==> (names.contains(#[trigger] g.drop_last()[i].0)
                <==> g.drop_last()[i].1.len() == 0));
        lemma_round_partition_rel(g.drop_last(), names);
        assert(assoc_keys(g) =~= assoc_keys(g.drop_last()).push(g.last().0));
        assert(names.contains(g.last().0) <==> g.last().1.len() == 0) by {
            assert(g[g.len() - 1] == g.last());
        }
        if g.last().1.len() == 0 {
            assert(ready_keys(g) == ready_keys(g.drop_last()).push(g.last().0));
            assert(remove_ready(g, names) == remove_ready(g.drop_last(), names));
            assert(assoc_keys(g).to_multiset() =~= ready_keys(g).to_multiset().add(
                assoc_keys(remove_ready(g, names)).to_multiset(),
            ));
        } else {
            let p = (g.last().0, remove_names(g.last().1, names));
            assert(ready_keys(g) == ready_keys(g.drop_last()));
            assert(remove_ready(g, names) == remove_ready(g.drop_last(), names).push(p));
            assert(assoc_keys(remove_ready(g.drop_last(), names).push(p)) =~= assoc_keys(
                remove_ready(g.drop_last(), names),
            ).push(g.last().0));
            assert(assoc_keys(g).to_multiset() =~= ready_keys(g).to_multiset().add(
                assoc_keys(remove_ready(g, names)).to_multiset(),
            ));
        }
    }
}

/// The ready names of a duplicate-free graph are themselves duplicate-free.
proof fn lemma_ready_no_dups(g: Seq<(Seq<char>, Seq<Seq<char>>)>)
    requires
        assoc_keys(g).no_duplicates(),
    ensures
        ready_keys(g).no_duplicates(),
{
    broadcast use vstd::seq_lib::group_to_multiset_ensures;

    lemma_round_partition(g);
    assoc_keys(g).lemma_multiset_has_no_duplicates();
    assert forall|x: Seq<char>|
        ready_keys(g).to_multiset().contains(x) implies ready_keys(g).to_multiset().count(x)
        == 1 by {
        assert(assoc_keys(g).to_multiset().count(x) >= ready_keys(g).to_multiset().count(x));
        assert(assoc_keys(g).to_multiset().contains(x));
    }
    ready_keys(g).lemma_multiset_has_no_duplicates_conv();
}


/// The multiset of all names in a sequence of layers.
pub open spec fn names_multiset(s: Seq<Seq<Seq<char>>>) -> Multiset<Seq<char>>
    decreases s.len(),
{
    if s.len() == 0 {
        Multiset::empty()
    } else {
        names_multiset(s.drop_last()).add(s.last().to_multiset())
    }
}

pub open spec fn layer_views(ls: Seq<Vec<String>>) -> Seq<Seq<Seq<char>>> {
    ls.map_values(|v: Vec<String>| seq_views(v@))
}

/// Position of the entry named `key`, if any.
fn find_edge_index(g: &Vec<BreakEdge>, key: &str) -> (r: Option<usize>)
    ensures
        match r {
            Some(i) => i < g@.len() && g@[i as int].package@ == key@,
            None => forall|i: int| 0 <= i < g@.len() ==> g@[i].package@ != key@,
        },
{
    let mut i: usize = 0;
    while i < g.len()
        invariant
            i <= g@.len(),
            forall|k: int| 0 <= k < i ==> g@[k].package@ != key@,
        decreases g@.len() - i,
    {
        if str_eq(g[i].package.as_str(), key) {
            return Some(i);
        }
        i = i + 1;
    }
    None
}

/// Clone a vector of strings, value for value.
fn clone_string_vec(v: &Vec<String>) -> (r: Vec<String>)
    ensures
        r@ == v@,
{
    let r = v.clone();
    proof {
        assert forall|i: int| 0 <= i < v@.len() implies r@[i] == v@[i] by {
            assert(cloned::<String>(v[i], r[i]));
        }
        assert(r@ =~= v@);
    }
    r
}

/// Collapse repeated names: first position kept, last blocking set kept,
/// as a mapping built from the rows would.
fn dedup_break_edges(edges: &Vec<BreakEdge>) -> (r: Vec<BreakEdge>)
    ensures
        edge_views(r@) == dedup_edges(edge_views(edges@)),
{
    let ghost all = edge_views(edges@);
    let mut r: Vec<BreakEdge> = Vec::new();
    let mut i: usize = 0;
    assert(edge_views(r@) =~~= dedup_edges(all.take(0))) by {
        assert(assoc_keys(all.take(0)) =~= Seq::<Seq<char>>::empty());
    }
    while i < edges.len()
        invariant
            i <= edges@.len(),
            all == edge_views(edges@),
            edge_views(r@) == dedup_edges(all.take(i as int)),
        decreases edges@.len() - i,
    {
        let ghost prev = all.take(i as int);
        let ghost cur = all.take(i as int + 1);
        let ghost k = all[i as int].0;
        let ghost v = all[i as int].1;
        proof {
            assert(cur.drop_last() =~= prev);
            assert(cur.last() == all[i as int]);
            assert(assoc_keys(cur) =~= assoc_keys(prev).push(k));
            lemma_dedup_first_no_dups(assoc_keys(prev));
            assert forall|key: Seq<char>| #[trigger]
                last_value(cur, key) == (if key == k {
                    v
                } else {
                    last_value(prev, key)
                }) by {
                if key != k {
                    assert(last_value(cur, key) == last_value(cur.drop_last(), key));
                }
            }
            assert(dedup_first(assoc_keys(cur)) == (if dedup_first(assoc_keys(prev)).contains(k) {
                dedup_first(assoc_keys(prev))
            } else {
                dedup_first(assoc_keys(prev)).push(k)
            })) by {
                assert(assoc_keys(prev).push(k).drop_last() =~= assoc_keys(prev));
                assert(dedup_first(assoc_keys(cur)) == dedup_first(assoc_keys(prev).push(k)));
            }
        }
        let found = find_edge_index(&r, edges[i].package.as_str());
        let new_edge = BreakEdge {
            package: edges[i].package.clone(),
            deplist: clone_string_vec(&edges[i].deplist),
        };
        assert(edge_view(new_edge) == all[i as int]) by {
            assert(edge_views(edges@)[i as int] == edge_view(edges@[i as int]));
        }
        let ghost rv = r@;
        match found {
            Some(idx) => {
                proof {
                    let dprev = dedup_first(assoc_keys(prev));
                    assert(edge_views(rv)[idx as int] == edge_view(rv[idx as int]));
                    assert(rv[idx as int].package@ == k);
                    assert(edge_views(rv).len() == dedup_edges(prev).len());
                    assert(dedup_edges(prev)[idx as int].0 == dprev[idx as int]);
                    assert(dprev[idx as int] == k);
                    assert(dprev.contains(k));
                }
                r.set(idx, new_edge);
                proof {
                    let dprev = dedup_first(assoc_keys(prev));
                    let dcur = dedup_first(assoc_keys(cur));
                    assert(dcur == dprev);
                    assert forall|j: int|
                        0 <= j < dprev.len() implies edge_views(r@)[j] == dedup_edges(cur)[j] by {
                        assert(edge_views(r@)[j] == edge_view(r@[j]));
                        assert(dedup_edges(cur)[j] == (dcur[j], last_value(cur, dcur[j])));
                        if j == idx {
                            assert(r@[j] == new_edge);
                            assert(edge_view(new_edge) == (k, v));
                            assert(last_value(cur, k) == v);
                        } else {
                            assert(dprev[j] != k) by {
                                assert(dprev[idx as int] == k);
                            }
                            assert(r@[j] == rv[j]);
                            assert(edge_views(rv)[j] == edge_view(rv[j]));
                            assert(edge_views(rv)[j] == dedup_edges(prev)[j]);
                            assert(dedup_edges(prev)[j] == (dprev[j], last_value(prev, dprev[j])));
                            assert(last_value(cur, dprev[j]) == last_value(prev, dprev[j]));
                        }
                    }
                    assert(edge_views(r@).len() == dedup_edges(cur).len());
                    assert(edge_views(r@) =~= dedup_edges(cur));
                }
            },
            None => {
                proof {
                    let dprev = dedup_first(assoc_keys(prev));
                    assert(edge_views(rv).len() == rv.len());
                    assert(dedup_edges(prev).len() == dprev.len());
                    assert(rv.len() == dprev.len());
                    assert(!dprev.contains(k)) by {
                        if dprev.contains(k) {
                            let j = choose|j: int| 0 <= j < dprev.len() && dprev[j] == k;
                            assert(dedup_edges(prev)[j].0 == dprev[j]);
                            assert(edge_views(rv)[j] == edge_view(rv[j]));
                            assert(rv[j].package@ == k);
                        }
                    }
                }
                r.push(new_edge);
                proof {
                    let dprev = dedup_first(assoc_keys(prev));
                    let dcur = dedup_first(assoc_keys(cur));
                    assert(dcur == dprev.push(k));
                    assert(edge_views(rv).len() == rv.len());
                    assert(dedup_edges(prev).len() == dprev.len());
                    assert(rv.len() == dprev.len());
                    assert(edge_views(r@).len() == r@.len());
                    assert(dedup_edges(cur).len() == dcur.len());
                    assert(r@.len() == rv.len() + 1);
                    assert forall|j: int|
                        0 <= j < dcur.len() implies edge_views(r@)[j] == dedup_edges(cur)[j] by {
                        assert(edge_views(r@)[j] == edge_view(r@[j]));
                        assert(dedup_edges(cur)[j] == (dcur[j], last_value(cur, dcur[j])));
                        if j < dprev.len() {
                            assert(dcur[j] == dprev[j]);
                            assert(dprev[j] != k) by {
                                assert(dprev.contains(dprev[j]));
                            }
                            assert(r@[j] == rv[j]);
                            assert(edge_views(rv)[j] == edge_view(rv[j]));
                            assert(edge_views(rv)[j] == dedup_edges(prev)[j]);
                            assert(dedup_edges(prev)[j] == (dprev[j], last_value(prev, dprev[j])));
                            assert(last_value(cur, dprev[j]) == last_value(prev, dprev[j]));
                        } else {
                            assert(dcur[j] == k);
                            assert(r@[j] == new_edge);
                            assert(edge_view(new_edge) == (k, v));
                            assert(last_value(cur, k) == v);
                        }
                    }
                    assert(edge_views(r@).len() == dedup_edges(cur).len());
                    assert(edge_views(r@) =~= dedup_edges(cur));
                }
            },
        }
        i = i + 1;
    }
    assert(all.take(edges@.len() as int) =~= all);
    r
}

/// Names of the entries whose blocking set is empty, in entry order.
fn collect_ready(g: &Vec<BreakEdge>) -> (r: Vec<String>)
    ensures
        seq_views(r@) == ready_keys(edge_views(g@)),
{
    let ghost all = edge_views(g@);
    let mut r: Vec<String> = Vec::new();
    let mut i: usize = 0;
    assert(seq_views(r@) =~= ready_keys(all.take(0)));
    while i < g.len()
        invariant
            i <= g@.len(),
            all == edge_views(g@),
            seq_views(r@) == ready_keys(all.take(i as int)),
        decreases g@.len() - i,
    {
        proof {
            assert(all.take(i as int + 1).drop_last() =~= all.take(i as int));
            assert(all.take(i as int + 1).last() == all[i as int]);
            assert(all[i as int] == edge_view(g@[i as int]));
        }
        if g[i].deplist.len() == 0 {
            r.push(g[i].package.clone());
            assert(seq_views(r@) =~= ready_keys(all.take(i as int + 1)));
        } else {
            assert(seq_views(r@) =~= ready_keys(all.take(i as int + 1)));
        }
        i = i + 1;
    }
    assert(all.take(g@.len() as int) =~= all);
    r
}

/// All entry names, in entry order.
fn collect_keys(g: &Vec<BreakEdge>) -> (r: Vec<String>)
    ensures
        seq_views(r@) == assoc_keys(edge_views(g@)),
{
    let mut r: Vec<String> = Vec::new();
    let mut i: usize = 0;
    while i < g.len()
        invariant
            i <= g@.len(),
            seq_views(r@) =~= assoc_keys(edge_views(g@)).take(i as int),
        decreases g@.len() - i,
    {
        let ghost old_r = r@;
        r.push(g[i].package.clone());
        assert(seq_views(r@) =~= assoc_keys(edge_views(g@)).take(i as int + 1)) by {
            crate::strutil::lemma_seq_views_len(old_r);
            crate::strutil::lemma_seq_views_len(r@);
            assert(edge_views(g@)[i as int] == edge_view(g@[i as int]));
            assert(assoc_keys(edge_views(g@))[i as int] == g@[i as int].package@);
            assert forall|j: int| 0 <= j < r@.len() implies seq_views(r@)[j] == assoc_keys(
                edge_views(g@),
            ).take(i as int + 1)[j] by {
                crate::strutil::lemma_seq_views_index(r@, j);
                if j < old_r.len() {
                    crate::strutil::lemma_seq_views_index(old_r, j);
                }
            }
        }
        i = i + 1;
    }
    assert(assoc_keys(edge_views(g@)).take(g@.len() as int) =~= assoc_keys(edge_views(g@)));
    r
}

/// Drop from `d` every name in `names`.
fn subtract_names(d: &Vec<String>, names: &Vec<String>) -> (r: Vec<String>)
    ensures
        seq_views(r@) == remove_names(seq_views(d@), seq_views(names@)),
{
    let mut r: Vec<String> = Vec::new();
    let mut i: usize = 0;
    assert(seq_views(r@) =~= remove_names(seq_views(d@).take(0), seq_views(names@)));
    while i < d.len()
        invariant
            i <= d@.len(),
            seq_views(r@) == remove_names(seq_views(d@).take(i as int), seq_views(names@)),
        decreases d@.len() - i,
    {
        proof {
            assert(seq_views(d@).take(i as int + 1).drop_last() =~= seq_views(d@).take(i as int));
            assert(seq_views(d@).take(i as int + 1).last() == d@[i as int]@);
        }
        if !contains_string(names, d[i].as_str()) {
            r.push(d[i].clone());
        }
        assert(seq_views(r@) =~= remove_names(seq_views(d@).take(i as int + 1), seq_views(
            names@,
        )));
        i = i + 1;
    }
    assert(seq_views(d@).take(d@.len() as int) =~= seq_views(d@));
    r
}

/// Remove the ready entries and subtract their names everywhere else.
fn apply_round(g: &Vec<BreakEdge>, names: &Vec<String>) -> (r: Vec<BreakEdge>)
    ensures
        edge_views(r@) == remove_ready(edge_views(g@), seq_views(names@)),
{
    let ghost all = edge_views(g@);
    let ghost ns = seq_views(names@);
    let mut r: Vec<BreakEdge> = Vec::new();
    let mut i: usize = 0;
    assert(edge_views(r@) =~= remove_ready(all.take(0), ns));
    while i < g.len()
        invariant
            i <= g@.len(),
            all == edge_views(g@),
            ns == seq_views(names@),
            edge_views(r@) == remove_ready(all.take(i as int), ns),
        decreases g@.len() - i,
    {
        proof {
            assert(all.take(i as int + 1).drop_last() =~= all.take(i as int));
            assert(all.take(i as int + 1).last() == all[i as int]);
            assert(all[i as int] == edge_view(g@[i as int]));
        }
        if !contains_string(names, g[i].package.as_str()) {
            let nd = subtract_names(&g[i].deplist, names);
            let e = BreakEdge { package: g[i].package.clone(), deplist: nd };
            r.push(e);
        }
        assert(edge_views(r@) =~~= remove_ready(all.take(i as int + 1), ns));
        i = i + 1;
    }
    assert(all.take(g@.len() as int) =~= all);
    r
}

/// Order a shared-library break graph into rebuild waves.
///
/// Round `i` of `kahn_state` peels the packages whose blocking set is empty;
/// each returned layer is that round's ready set in ascending name order.
/// When no package is ready and some remain, the survivors are returned,
/// sorted, as the cycle. No input name is ever dropped or duplicated: the
/// names in the layers plus the cycle are exactly the distinct input names.
pub fn sort_break_graph(edges: &Vec<BreakEdge>) -> (r: (Vec<Vec<String>>, Vec<String>))
    ensures
        ({
            let g0 = dedup_edges(edge_views(edges@));
            let rounds = r.0@.len() as nat;
            &&& forall|i: int|
                0 <= i < r.0@.len() ==> seq_views(#[trigger] r.0@[i]@) == sort_lex(
                    ready_keys(kahn_state(g0, i as nat)),
                ) && ready_keys(kahn_state(g0, i as nat)).len() > 0
            &&& ready_keys(kahn_state(g0, rounds)).len() == 0
            &&& seq_views(r.1@) == sort_lex(assoc_keys(kahn_state(g0, rounds)))
            &&& names_multiset(layer_views(r.0@)).add(seq_views(r.1@).to_multiset())
                == dedup_first(assoc_keys(edge_views(edges@))).to_multiset()
            &&& forall|i: int| 0 <= i < r.0@.len() ==> sorted_strict_asc(
                seq_views(#[trigger] r.0@[i]@),
            )
            &&& sorted_strict_asc(seq_views(r.1@))
        }),
{
    let ghost g0 = dedup_edges(edge_views(edges@));
    let mut g = dedup_break_edges(edges);
    let mut layers: Vec<Vec<String>> = Vec::new();
    proof {
        lemma_dedup_first_no_dups(assoc_keys(edge_views(edges@)));
        assert(assoc_keys(g0) =~= dedup_first(assoc_keys(edge_views(edges@))));
        assert(names_multiset(layer_views(layers@)).add(assoc_keys(edge_views(g@)).to_multiset())
            =~= assoc_keys(g0).to_multiset()) by {
            assert(layer_views(layers@) =~= Seq::<Seq<Seq<char>>>::empty());
        }
    }
    loop
        invariant
            edge_views(g@) == kahn_state(g0, layers@.len() as nat),
            assoc_keys(edge_views(g@)).no_duplicates(),
            forall|i: int|
                0 <= i < layers@.len() ==> seq_views(#[trigger] layers@[i]@) == sort_lex(
                    ready_keys(kahn_state(g0, i as nat)),
                ) && ready_keys(kahn_state(g0, i as nat)).len() > 0,
            forall|i: int| 0 <= i < layers@.len() ==> sorted_strict_asc(
                seq_views(#[trigger] layers@[i]@),
            ),
            names_multiset(layer_views(layers@)).add(assoc_keys(edge_views(g@)).to_multiset())
                == assoc_keys(g0).to_multiset(),
        ensures
            ready_keys(edge_views(g@)).len() == 0,
            edge_views(g@) == kahn_state(g0, layers@.len() as nat),
            assoc_keys(edge_views(g@)).no_duplicates(),
            forall|i: int|
                0 <= i < layers@.len() ==> seq_views(#[trigger] layers@[i]@) == sort_lex(
                    ready_keys(kahn_state(g0, i as nat)),
                ) && ready_keys(kahn_state(g0, i as nat)).len() > 0,
            forall|i: int| 0 <= i < layers@.len() ==> sorted_strict_asc(
                seq_views(#[trigger] layers@[i]@),
            ),
            names_multiset(layer_views(layers@)).add(assoc_keys(edge_views(g@)).to_multiset())
                == assoc_keys(g0).to_multiset(),
        decreases g@.len(),
    {
        let ready = collect_ready(&g);
        if ready.len() == 0 {
            break;
        }
        let ghost prev = edge_views(g@);
        let ghost n = layers@.len() as nat;
        let sorted_ready = sort_strings(&ready);
        proof {
            lemma_ready_no_dups(prev);
            lemma_sort_lex_sorted(ready_keys(prev));
            lemma_sort_lex_multiset(ready_keys(prev));
            lemma_sorted_no_dups_strict(
                ready_keys(prev),
                sort_lex(ready_keys(prev)),
            );
        }
        let ghost layers_old = layers@;
        let ghost srv = seq_views(sorted_ready@);
        layers.push(sorted_ready);
        let next = apply_round(&g, &ready);
        proof {
            // the peeled state is the next round of the spec
            assert(edge_views(next@) == kahn_state(g0, (n + 1) as nat));
            lemma_remove_ready_keys(prev, ready_keys(prev));
            // accounting: the round moves the ready names into the layers
            lemma_round_partition(prev);
            assert(layers@ == layers_old.push(layers@.last()));
            assert(layer_views(layers@).drop_last() =~= layer_views(layers_old));
            assert(layer_views(layers@).last() == srv);
            assert(names_multiset(layer_views(layers@)) == names_multiset(
                layer_views(layers_old),
            ).add(srv.to_multiset()));
            assert(srv.to_multiset() == ready_keys(prev).to_multiset());
            assert(names_multiset(layer_views(layers@)).add(
                assoc_keys(edge_views(next@)).to_multiset(),
            ) =~= assoc_keys(g0).to_multiset());
            // termination: a ready name always removes its entry
            lemma_ready_membership(prev, ready_keys(prev)[0]);
            assert(ready_keys(prev).contains(ready_keys(prev)[0]));
            lemma_remove_ready_len(prev, ready_keys(prev));
            assert(edge_views(next@).len() < prev.len());
            assert(next@.len() < g@.len()) by {
                assert(edge_views(next@).len() == next@.len());
                assert(prev.len() == g@.len());
            }
        }
        g = next;
        proof {
            assert forall|i: int|
                0 <= i < layers@.len() implies seq_views(#[trigger] layers@[i]@) == sort_lex(
                ready_keys(kahn_state(g0, i as nat)),
            ) && ready_keys(kahn_state(g0, i as nat)).len() > 0 by {
                if i < layers@.len() - 1 {
                    assert(layers@[i] == layers@.drop_last()[i]);
                }
            }
        }
    }
    let keys = collect_keys(&g);
    let cycle = sort_strings(&keys);
    proof {
        let fin = edge_views(g@);
        lemma_sort_lex_sorted(assoc_keys(fin));
        lemma_sort_lex_multiset(assoc_keys(fin));
        lemma_sorted_no_dups_strict(
            assoc_keys(fin),
            sort_lex(assoc_keys(fin)),
        );
        assert(seq_views(cycle@).to_multiset() == assoc_keys(fin).to_multiset());
    }
    (layers, cycle)
}

} // verus!
