//! Small pure transforms of the listing views: splitting shared-object
//! rows into depends and provides, narrowing mirror-clean candidates to
//! the asked-for removal reasons, and showing a package's repositories.

use crate::model::Repo;
use crate::strutil::contains_string;
use crate::strutil::dedup_first;
use crate::strutil::lemma_seq_views_index;
use crate::strutil::lemma_seq_views_len;
use crate::strutil::seq_views;
use crate::strutil::sort_lex;
use crate::strutil::sorted_unique_strings;
use crate::strutil::split_char;
use crate::strutil::split_string;
use vstd::prelude::*;

verus! {

/// One shared-object row: whether it is a dependency, and its name when
/// the scan produced one.
#[derive(Debug)]
pub struct SoDep {
    pub depends: i32,
    pub soname: Option<String>,
}

pub open spec fn sodep_view(s: SoDep) -> (int, Option<Seq<char>>) {
    (
        s.depends as int,
        match s.soname {
            Some(n) => Some(n@),
            None => None,
        },
    )
}

/// The named rows with `depends` set, in order.
pub open spec fn spec_sodepends(rows: Seq<SoDep>) -> Seq<Seq<char>>
    decreases rows.len(),
{
    if rows.len() == 0 {
        Seq::empty()
    } else {
        let rest = spec_sodepends(rows.drop_last());
        match rows.last().soname {
            Some(n) => if rows.last().depends != 0 {
                rest.push(n@)
            } else {
                rest
            },
            None => rest,
        }
    }
}

/// The named rows without `depends`, in order.
pub open spec fn spec_soprovides(rows: Seq<SoDep>) -> Seq<Seq<char>>
    decreases rows.len(),
{
    if rows.len() == 0 {
        Seq::empty()
    } else {
        let rest = spec_soprovides(rows.drop_last());
        match rows.last().soname {
            Some(n) => if rows.last().depends == 0 {
                rest.push(n@)
            } else {
                rest
            },
            None => rest,
        }
    }
}

/// Split the shared-object rows of one package file into the names it
/// depends on and the names it provides; unnamed rows are dropped.
pub fn split_sodep(rows: Vec<SoDep>) -> (r: (Vec<String>, Vec<String>))
    ensures
        seq_views(r.0@) == spec_sodepends(rows@),
        seq_views(r.1@) == spec_soprovides(rows@),
{
    let mut sodepends: Vec<String> = Vec::new();
    let mut soprovides: Vec<String> = Vec::new();
    let mut i: usize = 0;
    proof {
        assert(seq_views(sodepends@) =~= spec_sodepends(rows@.take(0)));
        assert(seq_views(soprovides@) =~= spec_soprovides(rows@.take(0)));
    }
    while i < rows.len()
        invariant
            i <= rows@.len(),
            seq_views(sodepends@) == spec_sodepends(rows@.take(i as int)),
            seq_views(soprovides@) == spec_soprovides(rows@.take(i as int)),
        decreases rows@.len() - i,
    {
        proof {
            assert(rows@.take(i as int + 1).drop_last() =~= rows@.take(i as int));
            assert(rows@.take(i as int + 1).last() == rows@[i as int]);
        }
        match &rows[i].soname {
            Some(n) => {
                if rows[i].depends != 0 {
                    sodepends.push(n.clone());
                } else {
                    soprovides.push(n.clone());
                }
            },
            None => {},
        }
        proof {
            assert(seq_views(sodepends@) =~= spec_sodepends(rows@.take(i as int + 1)));
            assert(seq_views(soprovides@) =~= spec_soprovides(rows@.take(i as int + 1)));
        }
        i = i + 1;
    }
    proof {
        assert(rows@.take(rows@.len() as int) =~= rows@);
    }
    (sodepends, soprovides)
}

/// Pieces joined by `c` between them.
pub open spec fn join_char(pieces: Seq<Seq<char>>, c: char) -> Seq<char>
    decreases pieces.len(),
{
    if pieces.len() == 0 {
        Seq::empty()
    } else if pieces.len() == 1 {
        pieces[0]
    } else {
        pieces[0] + seq![c] + join_char(pieces.skip(1), c)
    }
}

/// Adding one piece appends a separator (except to the first) and it.
proof fn lemma_join_char_step(pieces: Seq<Seq<char>>, c: char, i: int)
    requires
        0 <= i < pieces.len(),
    ensures
        join_char(pieces.take(i + 1), c) == (if i == 0 {
            pieces[0]
        } else {
            join_char(pieces.take(i), c) + seq![c] + pieces[i]
        }),
    decreases i,
{
    if i == 0 {
        assert(pieces.take(1)[0] == pieces[0]);
        assert(join_char(pieces.take(1), c) == pieces.take(1)[0]);
    } else {
        lemma_join_char_step(pieces.skip(1), c, i - 1);
        assert(pieces.take(i + 1)[0] == pieces[0]);
        assert(pieces.take(i + 1).skip(1) =~= pieces.skip(1).take(i));
        assert(pieces.take(i)[0] == pieces[0]);
        assert(pieces.take(i).skip(1) =~= pieces.skip(1).take(i - 1));
        assert(pieces.skip(1)[i - 1] == pieces[i]);
        if i == 1 {
            assert(join_char(pieces.take(2), c) == pieces[0] + seq![c] + join_char(
                pieces.skip(1).take(1),
                c,
            ));
            assert(join_char(pieces.skip(1).take(1), c) == pieces[1]);
            assert(join_char(pieces.take(1), c) == pieces[0]);
        } else {
            assert(join_char(pieces.take(i + 1), c) == pieces[0] + seq![c] + join_char(
                pieces.skip(1).take(i),
                c,
            ));
            assert(join_char(pieces.take(i), c) == pieces[0] + seq![c] + join_char(
                pieces.skip(1).take(i - 1),
                c,
            ));
            assert(pieces[0] + seq![c] + (join_char(pieces.skip(1).take(i - 1), c) + seq![c]
                + pieces.skip(1)[i - 1]) =~= (pieces[0] + seq![c] + join_char(
                pieces.skip(1).take(i - 1),
                c,
            )) + seq![c] + pieces[i]);
        }
    }
}

/// Join strings with `,` between them.
fn join_comma(pieces: &Vec<String>) -> (r: String)
    ensures
        r@ == join_char(seq_views(pieces@), ','),
{
    let mut r = String::new();
    let mut i: usize = 0;
    proof {
        lemma_seq_views_len(pieces@);
        assert(r@ =~= join_char(seq_views(pieces@).take(0), ','));
    }
    while i < pieces.len()
        invariant
            i <= pieces@.len(),
            r@ == join_char(seq_views(pieces@).take(i as int), ','),
        decreases pieces@.len() - i,
    {
        proof {
            lemma_seq_views_index(pieces@, i as int);
            lemma_join_char_step(seq_views(pieces@), ',', i as int);
        }
        if i > 0 {
            r.append(",");
            proof {
                reveal_strlit(",");
                assert(","@ =~= seq![',']);
            }
        }
        r.append(pieces[i].as_str());
        proof {
            assert(r@ =~= join_char(seq_views(pieces@).take(i as int + 1), ','));
        }
        i = i + 1;
    }
    proof {
        assert(seq_views(pieces@).take(pieces@.len() as int) =~= seq_views(pieces@));
    }
    r
}

/// One mirror file with the reasons it may be removed for.
#[derive(Debug)]
pub struct CleanCandidate {
    pub filename: String,
    pub removereason: String,
}

pub open spec fn candidate_view(d: CleanCandidate) -> (Seq<char>, Seq<char>) {
    (d.filename@, d.removereason@)
}

pub open spec fn candidate_views(s: Seq<CleanCandidate>) -> Seq<(Seq<char>, Seq<char>)> {
    s.map_values(|d: CleanCandidate| candidate_view(d))
}

/// The comma-separated reasons of `r` that occur in `reasons`, in order.
pub open spec fn kept_reasons(r: Seq<char>, reasons: Seq<Seq<char>>) -> Seq<Seq<char>>
    decreases split_char(r, ',').len(),
{
    pieces_in(split_char(r, ','), reasons)
}

/// The pieces that occur in `reasons`, in order.
pub open spec fn pieces_in(pieces: Seq<Seq<char>>, reasons: Seq<Seq<char>>) -> Seq<Seq<char>>
    decreases pieces.len(),
{
    if pieces.len() == 0 {
        Seq::empty()
    } else {
        let rest = pieces_in(pieces.drop_last(), reasons);
        if reasons.contains(pieces.last()) {
            rest.push(pieces.last())
        } else {
            rest
        }
    }
}

/// The candidates narrowed to the asked-for reasons: a candidate with none
/// of them is dropped, the others keep only the asked-for reasons.
pub open spec fn spec_filter_candidates(
    debs: Seq<(Seq<char>, Seq<char>)>,
    reasons: Seq<Seq<char>>,
) -> Seq<(Seq<char>, Seq<char>)>
    decreases debs.len(),
{
    if debs.len() == 0 {
        Seq::empty()
    } else {
        let rest = spec_filter_candidates(debs.drop_last(), reasons);
        let kept = kept_reasons(debs.last().1, reasons);
        if kept.len() == 0 {
            rest
        } else {
            rest.push((debs.last().0, join_char(kept, ',')))
        }
    }
}

/// Narrow the mirror-clean listing to the asked-for removal reasons.
pub fn filter_clean_candidates(debs: &Vec<CleanCandidate>, reasons: &Vec<String>) -> (r: Vec<
    CleanCandidate,
>)
    ensures
        candidate_views(r@) == spec_filter_candidates(candidate_views(debs@), seq_views(reasons@)),
{
    let ghost dv = candidate_views(debs@);
    let ghost rv = seq_views(reasons@);
    let mut out: Vec<CleanCandidate> = Vec::new();
    let mut i: usize = 0;
    proof {
        assert(candidate_views(out@) =~= spec_filter_candidates(dv.take(0), rv));
    }
    while i < debs.len()
        invariant
            i <= debs@.len(),
            dv == candidate_views(debs@),
            rv == seq_views(reasons@),
            candidate_views(out@) == spec_filter_candidates(dv.take(i as int), rv),
        decreases debs@.len() - i,
    {
        proof {
            assert(dv.take(i as int + 1).drop_last() =~= dv.take(i as int));
            assert(dv.take(i as int + 1).last() == dv[i as int]);
            assert(dv[i as int] == candidate_view(debs@[i as int]));
        }
        let pieces = split_string(debs[i].removereason.as_str(), ',');
        let mut kept: Vec<String> = Vec::new();
        let mut p: usize = 0;
        proof {
            lemma_seq_views_len(pieces@);
            assert(seq_views(kept@) =~= pieces_in(seq_views(pieces@).take(0), rv));
        }
        while p < pieces.len()
            invariant
                p <= pieces@.len(),
                rv == seq_views(reasons@),
                seq_views(pieces@) == split_char(debs@[i as int].removereason@, ','),
                i < debs@.len(),
                seq_views(kept@) == pieces_in(seq_views(pieces@).take(p as int), rv),
            decreases pieces@.len() - p,
        {
            proof {
                lemma_seq_views_index(pieces@, p as int);
                assert(seq_views(pieces@).take(p as int + 1).drop_last() =~= seq_views(
                    pieces@,
                ).take(p as int));
                assert(seq_views(pieces@).take(p as int + 1).last() == seq_views(
                    pieces@,
                )[p as int]);
            }
            if contains_string(reasons, pieces[p].as_str()) {
                kept.push(pieces[p].clone());
            }
            assert(seq_views(kept@) =~= pieces_in(seq_views(pieces@).take(p as int + 1), rv));
            p = p + 1;
        }
        proof {
            assert(seq_views(pieces@).take(pieces@.len() as int) =~= seq_views(pieces@));
            assert(seq_views(kept@) == kept_reasons(dv[i as int].1, rv));
        }
        if kept.len() > 0 {
            let joined = join_comma(&kept);
            let cand = CleanCandidate { filename: debs[i].filename.clone(), removereason: joined };
            let ghost out_old = out@;
            out.push(cand);
            proof {
                lemma_seq_views_len(kept@);
                assert(candidate_views(out@) =~= spec_filter_candidates(dv.take(i as int + 1), rv))
                    by {
                    assert forall|m: int| 0 <= m < out@.len() implies candidate_views(out@)[m]
                        == spec_filter_candidates(dv.take(i as int + 1), rv)[m] by {
                        if m < out_old.len() {
                            assert(out@[m] == out_old[m]);
                        }
                    }
                }
            }
        } else {
            proof {
                lemma_seq_views_len(kept@);
                assert(candidate_views(out@) =~= spec_filter_candidates(
                    dv.take(i as int + 1),
                    rv,
                ));
            }
        }
        i = i + 1;
    }
    proof {
        assert(dv.take(debs@.len() as int) =~= dv);
    }
    out
}

/// The repositories a package's builds sit in, deduplicated, ascending,
/// joined for display with a comma and a space.
pub fn format_avail_repos(availrepos: &str) -> (r: String)
    ensures
        ({
            let sorted = sort_lex(dedup_first(split_char(availrepos@, ',')));
            r@ == spec_join_comma_space(sorted)
        }),
{
    let pieces = split_string(availrepos, ',');
    let sorted = sorted_unique_strings(&pieces);
    let mut r = String::new();
    let ghost sv = seq_views(sorted@);
    let mut i: usize = 0;
    proof {
        lemma_seq_views_len(sorted@);
        assert(r@ =~= spec_join_comma_space(sv.take(0)));
    }
    while i < sorted.len()
        invariant
            i <= sorted@.len(),
            sv == seq_views(sorted@),
            r@ == spec_join_comma_space(sv.take(i as int)),
        decreases sorted@.len() - i,
    {
        proof {
            lemma_seq_views_index(sorted@, i as int);
            lemma_join_comma_space_step(sv, i as int);
        }
        if i > 0 {
            r.append(", ");
            proof {
                reveal_strlit(", ");
                assert(", "@ =~= seq![',', ' ']);
            }
        }
        r.append(sorted[i].as_str());
        proof {
            assert(r@ =~= spec_join_comma_space(sv.take(i as int + 1)));
        }
        i = i + 1;
    }
    proof {
        assert(sv.take(sorted@.len() as int) =~= sv);
    }
    r
}

/// Pieces joined by `, ` between them.
pub open spec fn spec_join_comma_space(pieces: Seq<Seq<char>>) -> Seq<char>
    decreases pieces.len(),
{
    if pieces.len() == 0 {
        Seq::empty()
    } else if pieces.len() == 1 {
        pieces[0]
    } else {
        pieces[0] + seq![',', ' '] + spec_join_comma_space(pieces.skip(1))
    }
}

proof fn lemma_join_comma_space_step(pieces: Seq<Seq<char>>, i: int)
    requires
        0 <= i < pieces.len(),
    ensures
        spec_join_comma_space(pieces.take(i + 1)) == (if i == 0 {
            pieces[0]
        } else {
            spec_join_comma_space(pieces.take(i)) + seq![',', ' '] + pieces[i]
        }),
    decreases i,
{
    if i == 0 {
        assert(pieces.take(1)[0] == pieces[0]);
    } else {
        lemma_join_comma_space_step(pieces.skip(1), i - 1);
        assert(pieces.take(i + 1)[0] == pieces[0]);
        assert(pieces.take(i + 1).skip(1) =~= pieces.skip(1).take(i));
        assert(pieces.take(i)[0] == pieces[0]);
        assert(pieces.take(i).skip(1) =~= pieces.skip(1).take(i - 1));
        assert(pieces.skip(1)[i - 1] == pieces[i]);
        if i == 1 {
            assert(spec_join_comma_space(pieces.skip(1).take(1)) == pieces[1]);
            assert(spec_join_comma_space(pieces.take(1)) == pieces[0]);
        } else {
            assert(pieces[0] + seq![',', ' '] + (spec_join_comma_space(pieces.skip(1).take(i - 1))
                + seq![',', ' '] + pieces.skip(1)[i - 1]) =~= (pieces[0] + seq![',', ' ']
                + spec_join_comma_space(pieces.skip(1).take(i - 1))) + seq![',', ' '] + pieces[i]);
        }
    }
}


/// The repositories of one category, in input order.
pub open spec fn repos_with_category(repos: Seq<Repo>, cat: Seq<char>) -> Seq<int>
    decreases repos.len(),
{
    if repos.len() == 0 {
        Seq::empty()
    } else {
        let rest = repos_with_category(repos.drop_last(), cat);
        if repos.last().category@ == cat {
            rest.push(repos.len() - 1)
        } else {
            rest
        }
    }
}

/// The front page's repository table: one row per category, in the fixed
/// category order, holding the positions of that category's repositories.
pub fn repo_categories(repos: &Vec<Repo>) -> (r: Vec<(String, Vec<usize>)>)
    ensures
        r@.len() == 3,
        r@[0].0@ == ""@ && r@[1].0@ == "BSP"@ && r@[2].0@ == "Overlay"@,
        r@[0].1@.map_values(|u: usize| u as int) == repos_with_category(repos@, "base"@),
        r@[1].1@.map_values(|u: usize| u as int) == repos_with_category(repos@, "bsp"@),
        r@[2].1@.map_values(|u: usize| u as int) == repos_with_category(repos@, "overlay"@),
{
    let base = category_members(repos, "base");
    let bsp = category_members(repos, "bsp");
    let overlay = category_members(repos, "overlay");
    let mut r: Vec<(String, Vec<usize>)> = Vec::new();
    r.push((String::from_str(""), base));
    r.push((String::from_str("BSP"), bsp));
    r.push((String::from_str("Overlay"), overlay));
    r
}

/// Positions of the repositories of one category.
fn category_members(repos: &Vec<Repo>, cat: &str) -> (r: Vec<usize>)
    ensures
        r@.map_values(|u: usize| u as int) == repos_with_category(repos@, cat@),
{
    let mut out: Vec<usize> = Vec::new();
    let mut i: usize = 0;
    assert(out@.map_values(|u: usize| u as int) =~= repos_with_category(repos@.take(0), cat@));
    while i < repos.len()
        invariant
            i <= repos@.len(),
            out@.map_values(|u: usize| u as int) == repos_with_category(
                repos@.take(i as int),
                cat@,
            ),
        decreases repos@.len() - i,
    {
        proof {
            assert(repos@.take(i as int + 1).drop_last() =~= repos@.take(i as int));
            assert(repos@.take(i as int + 1).last() == repos@[i as int]);
        }
        if crate::strutil::str_eq(repos[i].category.as_str(), cat) {
            out.push(i);
        }
        assert(out@.map_values(|u: usize| u as int) =~= repos_with_category(
            repos@.take(i as int + 1),
            cat@,
        ));
        i = i + 1;
    }
    assert(repos@.take(repos@.len() as int) =~= repos@);
    out
}

/// The declared total of a sequence of source trees' package counts.
pub open spec fn sum_pkgcounts(trees: Seq<i64>) -> int
    decreases trees.len(),
{
    if trees.len() == 0 {
        0
    } else {
        sum_pkgcounts(trees.drop_last()) + trees.last()
    }
}

/// Total the per-tree package counts for the front page.
pub fn total_pkgcount(counts: &Vec<i64>) -> (r: i64)
    requires
        forall|i: int|
            0 <= i <= counts@.len() ==> i64::MIN <= sum_pkgcounts(#[trigger] counts@.take(i))
                <= i64::MAX,
    ensures
        r as int == sum_pkgcounts(counts@),
{
    let mut total: i64 = 0;
    let mut i: usize = 0;
    assert(counts@.take(0) =~= Seq::<i64>::empty());
    while i < counts.len()
        invariant
            i <= counts@.len(),
            total as int == sum_pkgcounts(counts@.take(i as int)),
            forall|j: int|
                0 <= j <= counts@.len() ==> i64::MIN <= sum_pkgcounts(#[trigger] counts@.take(j))
                    <= i64::MAX,
        decreases counts@.len() - i,
    {
        proof {
            assert(counts@.take(i as int + 1).drop_last() =~= counts@.take(i as int));
            assert(counts@.take(i as int + 1).last() == counts@[i as int]);
            assert(i64::MIN <= sum_pkgcounts(counts@.take(i as int + 1)) <= i64::MAX);
        }
        total = total + counts[i];
        i = i + 1;
    }
    assert(counts@.take(counts@.len() as int) =~= counts@);
    total
}

} // verus!
