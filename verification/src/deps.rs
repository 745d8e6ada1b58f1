//! Grouping of flattened dependency records.
//!
//! The data store hands one string per package: comma-separated records,
//! each of up to four `|`-separated fields — dependency name,
//! operator-plus-version, relationship kind, architecture qualifier.
//! Missing fields default to the empty string. Records are bucketed by
//! (relationship, architecture); only the eight known relationship kinds
//! are kept, in a fixed priority order; within a kind the architecture
//! buckets come in ascending order, and within a bucket the entries are
//! sorted by dependency name, ties keeping input order.

use crate::strutil::dedup_first;
use crate::strutil::lemma_seq_views_index;
use crate::strutil::lemma_seq_views_len;
use crate::strutil::seq_views;
use crate::strutil::sort_lex;
use crate::strutil::sorted_unique_strings;
use crate::strutil::split_char;
use crate::strutil::split_string;
use crate::strutil::str_eq;
use vstd::prelude::*;

verus! {

/// One dependency record: name, operator+version, relationship kind,
/// architecture qualifier.
pub type RecordView = (Seq<char>, Seq<char>, Seq<char>, Seq<char>);

/// One bucket of the grouped output.
#[derive(Debug)]
pub struct Dependency {
    pub relationship: String,
    pub arch: String,
    pub packages: Vec<(String, String)>,
}

struct Record {
    name: String,
    relop: String,
    relationship: String,
    arch: String,
}

spec fn rec_view(r: Record) -> RecordView {
    (r.name@, r.relop@, r.relationship@, r.arch@)
}

spec fn rec_views(s: Seq<Record>) -> Seq<RecordView> {
    s.map_values(|r: Record| rec_view(r))
}

proof fn lemma_rec_views_index(s: Seq<Record>, i: int)
    requires
        0 <= i < s.len(),
    ensures
        rec_views(s).len() == s.len(),
        rec_views(s)[i] == rec_view(s[i]),
{
}

proof fn lemma_rec_views_len(s: Seq<Record>)
    ensures
        rec_views(s).len() == s.len(),
{
}

/// The views of a sequence of string pairs.
pub open spec fn pair_views(s: Seq<(String, String)>) -> Seq<(Seq<char>, Seq<char>)> {
    s.map_values(|p: (String, String)| (p.0@, p.1@))
}

pub proof fn lemma_pair_views_len(s: Seq<(String, String)>)
    ensures
        pair_views(s).len() == s.len(),
{
}

pub proof fn lemma_pair_views_index(s: Seq<(String, String)>, i: int)
    requires
        0 <= i < s.len(),
    ensures
        pair_views(s).len() == s.len(),
        pair_views(s)[i] == (s[i].0@, s[i].1@),
{
}

pub open spec fn dep_view(d: Dependency) -> (Seq<char>, Seq<char>, Seq<(Seq<char>, Seq<char>)>) {
    (d.relationship@, d.arch@, pair_views(d.packages@))
}

pub open spec fn dep_views(s: Seq<Dependency>) -> Seq<
    (Seq<char>, Seq<char>, Seq<(Seq<char>, Seq<char>)>),
> {
    s.map_values(|d: Dependency| dep_view(d))
}

pub proof fn lemma_dep_views_len(s: Seq<Dependency>)
    ensures
        dep_views(s).len() == s.len(),
{
}

pub proof fn lemma_dep_views_index(s: Seq<Dependency>, i: int)
    requires
        0 <= i < s.len(),
    ensures
        dep_views(s).len() == s.len(),
        dep_views(s)[i] == dep_view(s[i]),
{
}

/// Field `i` of a split record; absent fields are empty.
pub open spec fn field_of(pieces: Seq<Seq<char>>, i: int) -> Seq<char> {
    if 0 <= i < pieces.len() {
        pieces[i]
    } else {
        Seq::empty()
    }
}

/// The four fields of one raw record.
pub open spec fn parse_record(rec: Seq<char>) -> RecordView {
    let p = split_char(rec, '|');
    (field_of(p, 0), field_of(p, 1), field_of(p, 2), field_of(p, 3))
}

/// All records of the raw string, in order.
pub open spec fn records_of(s: Seq<char>) -> Seq<RecordView> {
    split_char(s, ',').map_values(|rec: Seq<char>| parse_record(rec))
}

/// The records of one relationship kind, in input order.
pub open spec fn recs_with_kind(rs: Seq<RecordView>, kind: Seq<char>) -> Seq<RecordView>
    decreases rs.len(),
{
    if rs.len() == 0 {
        Seq::empty()
    } else {
        let rest = recs_with_kind(rs.drop_last(), kind);
        if rs.last().2 == kind {
            rest.push(rs.last())
        } else {
            rest
        }
    }
}

/// The records of one architecture qualifier, in input order.
pub open spec fn recs_with_arch(rs: Seq<RecordView>, arch: Seq<char>) -> Seq<RecordView>
    decreases rs.len(),
{
    if rs.len() == 0 {
        Seq::empty()
    } else {
        let rest = recs_with_arch(rs.drop_last(), arch);
        if rs.last().3 == arch {
            rest.push(rs.last())
        } else {
            rest
        }
    }
}

/// The records of one dependency name, in input order.
pub open spec fn recs_with_name(rs: Seq<RecordView>, name: Seq<char>) -> Seq<RecordView>
    decreases rs.len(),
{
    if rs.len() == 0 {
        Seq::empty()
    } else {
        let rest = recs_with_name(rs.drop_last(), name);
        if rs.last().0 == name {
            rest.push(rs.last())
        } else {
            rest
        }
    }
}

pub open spec fn arch_fields(rs: Seq<RecordView>) -> Seq<Seq<char>> {
    rs.map_values(|r: RecordView| r.3)
}

pub open spec fn name_fields(rs: Seq<RecordView>) -> Seq<Seq<char>> {
    rs.map_values(|r: RecordView| r.0)
}

/// Stable sort by name: the records of each distinct name, names ascending.
pub open spec fn concat_name_groups(rs: Seq<RecordView>, names: Seq<Seq<char>>) -> Seq<RecordView>
    decreases names.len(),
{
    if names.len() == 0 {
        Seq::empty()
    } else {
        recs_with_name(rs, names[0]) + concat_name_groups(rs, names.skip(1))
    }
}

pub open spec fn pkg_pairs(rs: Seq<RecordView>) -> Seq<(Seq<char>, Seq<char>)> {
    rs.map_values(|r: RecordView| (r.0, r.1))
}

/// One bucket's entries: the kind's records of that architecture, sorted
/// stably by name.
pub open spec fn bucket_entries(kindrecs: Seq<RecordView>, arch: Seq<char>) -> Seq<
    (Seq<char>, Seq<char>),
> {
    let b = recs_with_arch(kindrecs, arch);
    pkg_pairs(concat_name_groups(b, sort_lex(dedup_first(name_fields(b)))))
}

/// The buckets of one relationship kind, architectures ascending.
pub open spec fn groups_for_kind_recs(
    rs: Seq<RecordView>,
    kind: Seq<char>,
    display: Seq<char>,
) -> Seq<(Seq<char>, Seq<char>, Seq<(Seq<char>, Seq<char>)>)> {
    let kr = recs_with_kind(rs, kind);
    let archs = sort_lex(dedup_first(arch_fields(kr)));
    Seq::new(archs.len(), |j: int| (display, archs[j], bucket_entries(kr, archs[j])))
}

/// The buckets of one relationship kind of the raw string.
pub open spec fn groups_for_kind(s: Seq<char>, kind: Seq<char>, display: Seq<char>) -> Seq<
    (Seq<char>, Seq<char>, Seq<(Seq<char>, Seq<char>)>),
> {
    groups_for_kind_recs(records_of(s), kind, display)
}

/// The full grouped output: the eight known kinds, in priority order.
pub open spec fn spec_dep_groups(s: Seq<char>) -> Seq<
    (Seq<char>, Seq<char>, Seq<(Seq<char>, Seq<char>)>),
> {
    groups_for_kind(s, "PKGDEP"@, "Depends"@) + groups_for_kind(s, "BUILDDEP"@, "Depends (build)"@)
        + groups_for_kind(s, "PKGREP"@, "Replaces"@) + groups_for_kind(
        s,
        "PKGRECOM"@,
        "Recommends"@,
    ) + groups_for_kind(s, "PKGCONFL"@, "Conflicts"@) + groups_for_kind(s, "PKGBREAK"@, "Breaks"@)
        + groups_for_kind(s, "PKGPROV"@, "Provides"@) + groups_for_kind(s, "PKGSUG"@, "Suggests"@)
}

fn clone_record(r: &Record) -> (c: Record)
    ensures
        rec_view(c) == rec_view(*r),
{
    Record {
        name: r.name.clone(),
        relop: r.relop.clone(),
        relationship: r.relationship.clone(),
        arch: r.arch.clone(),
    }
}

fn piece_or_empty(pieces: &Vec<String>, i: usize) -> (r: String)
    ensures
        r@ == field_of(seq_views(pieces@), i as int),
{
    if i < pieces.len() {
        proof {
            lemma_seq_views_index(pieces@, i as int);
        }
        pieces[i].clone()
    } else {
        proof {
            lemma_seq_views_len(pieces@);
        }
        String::new()
    }
}

/// Split the raw string into records.
fn parse_records(s: &str) -> (r: Vec<Record>)
    ensures
        rec_views(r@) == records_of(s@),
{
    let raw = split_string(s, ',');
    let mut out: Vec<Record> = Vec::new();
    let mut i: usize = 0;
    proof {
        lemma_seq_views_len(raw@);
        assert(rec_views(out@) =~= records_of(s@).take(0));
    }
    while i < raw.len()
        invariant
            i <= raw@.len(),
            seq_views(raw@) == split_char(s@, ','),
            rec_views(out@) == records_of(s@).take(i as int),
        decreases raw@.len() - i,
    {
        proof {
            lemma_seq_views_index(raw@, i as int);
        }
        let pieces = split_string(raw[i].as_str(), '|');
        let rec = Record {
            name: piece_or_empty(&pieces, 0),
            relop: piece_or_empty(&pieces, 1),
            relationship: piece_or_empty(&pieces, 2),
            arch: piece_or_empty(&pieces, 3),
        };
        let ghost old_out = out@;
        out.push(rec);
        proof {
            lemma_rec_views_len(old_out);
            lemma_rec_views_len(out@);
            assert(records_of(s@)[i as int] == parse_record(seq_views(raw@)[i as int]));
            assert(rec_view(rec) == parse_record(seq_views(raw@)[i as int]));
            assert(rec_views(out@) =~= records_of(s@).take(i as int + 1)) by {
                assert forall|j: int| 0 <= j < out@.len() implies rec_views(out@)[j] == records_of(
                    s@,
                ).take(i as int + 1)[j] by {
                    lemma_rec_views_index(out@, j);
                    if j < old_out.len() {
                        lemma_rec_views_index(old_out, j);
                    }
                }
            }
        }
        i = i + 1;
    }
    proof {
        lemma_seq_views_len(raw@);
        assert(records_of(s@).take(records_of(s@).len() as int) =~= records_of(s@));
    }
    out
}

/// The records whose relationship kind equals `kind`, in input order.
fn filter_by_kind(recs: &Vec<Record>, kind: &str) -> (r: Vec<Record>)
    ensures
        rec_views(r@) == recs_with_kind(rec_views(recs@), kind@),
{
    let mut out: Vec<Record> = Vec::new();
    let mut i: usize = 0;
    assert(rec_views(out@) =~= recs_with_kind(rec_views(recs@).take(0), kind@));
    while i < recs.len()
        invariant
            i <= recs@.len(),
            rec_views(out@) == recs_with_kind(rec_views(recs@).take(i as int), kind@),
        decreases recs@.len() - i,
    {
        proof {
            assert(rec_views(recs@).take(i as int + 1).drop_last() =~= rec_views(recs@).take(
                i as int,
            ));
            assert(rec_views(recs@).take(i as int + 1).last() == rec_view(recs@[i as int]));
        }
        if str_eq(recs[i].relationship.as_str(), kind) {
            out.push(clone_record(&recs[i]));
        }
        assert(rec_views(out@) =~= recs_with_kind(rec_views(recs@).take(i as int + 1), kind@));
        i = i + 1;
    }
    assert(rec_views(recs@).take(recs@.len() as int) =~= rec_views(recs@));
    out
}

/// The records whose architecture qualifier equals `arch`, in input order.
fn filter_by_arch(recs: &Vec<Record>, arch: &str) -> (r: Vec<Record>)
    ensures
        rec_views(r@) == recs_with_arch(rec_views(recs@), arch@),
{
    let mut out: Vec<Record> = Vec::new();
    let mut i: usize = 0;
    assert(rec_views(out@) =~= recs_with_arch(rec_views(recs@).take(0), arch@));
    while i < recs.len()
        invariant
            i <= recs@.len(),
            rec_views(out@) == recs_with_arch(rec_views(recs@).take(i as int), arch@),
        decreases recs@.len() - i,
    {
        proof {
            assert(rec_views(recs@).take(i as int + 1).drop_last() =~= rec_views(recs@).take(
                i as int,
            ));
            assert(rec_views(recs@).take(i as int + 1).last() == rec_view(recs@[i as int]));
        }
        if str_eq(recs[i].arch.as_str(), arch) {
            out.push(clone_record(&recs[i]));
        }
        assert(rec_views(out@) =~= recs_with_arch(rec_views(recs@).take(i as int + 1), arch@));
        i = i + 1;
    }
    assert(rec_views(recs@).take(recs@.len() as int) =~= rec_views(recs@));
    out
}

/// The records whose dependency name equals `name`, in input order.
fn filter_by_name(recs: &Vec<Record>, name: &str) -> (r: Vec<Record>)
    ensures
        rec_views(r@) == recs_with_name(rec_views(recs@), name@),
{
    let mut out: Vec<Record> = Vec::new();
    let mut i: usize = 0;
    assert(rec_views(out@) =~= recs_with_name(rec_views(recs@).take(0), name@));
    while i < recs.len()
        invariant
            i <= recs@.len(),
            rec_views(out@) == recs_with_name(rec_views(recs@).take(i as int), name@),
        decreases recs@.len() - i,
    {
        proof {
            assert(rec_views(recs@).take(i as int + 1).drop_last() =~= rec_views(recs@).take(
                i as int,
            ));
            assert(rec_views(recs@).take(i as int + 1).last() == rec_view(recs@[i as int]));
        }
        if str_eq(recs[i].name.as_str(), name) {
            out.push(clone_record(&recs[i]));
        }
        assert(rec_views(out@) =~= recs_with_name(rec_views(recs@).take(i as int + 1), name@));
        i = i + 1;
    }
    assert(rec_views(recs@).take(recs@.len() as int) =~= rec_views(recs@));
    out
}

/// The architecture qualifiers of the records, in order.
fn collect_archs(recs: &Vec<Record>) -> (r: Vec<String>)
    ensures
        seq_views(r@) == arch_fields(rec_views(recs@)),
{
    let mut out: Vec<String> = Vec::new();
    let mut i: usize = 0;
    proof {
        lemma_seq_views_len(out@);
        lemma_rec_views_len(recs@);
        assert(seq_views(out@) =~= arch_fields(rec_views(recs@)).take(0));
    }
    while i < recs.len()
        invariant
            i <= recs@.len(),
            seq_views(out@) == arch_fields(rec_views(recs@)).take(i as int),
        decreases recs@.len() - i,
    {
        let ghost old_out = out@;
        out.push(recs[i].arch.clone());
        proof {
            lemma_seq_views_len(old_out);
            lemma_seq_views_len(out@);
            lemma_rec_views_len(recs@);
            assert(seq_views(out@) =~= arch_fields(rec_views(recs@)).take(i as int + 1)) by {
                assert forall|j: int| 0 <= j < out@.len() implies seq_views(out@)[j]
                    == arch_fields(rec_views(recs@)).take(i as int + 1)[j] by {
                    lemma_seq_views_index(out@, j);
                    if j < old_out.len() {
                        lemma_seq_views_index(old_out, j);
                    }
                    lemma_rec_views_index(recs@, j);
                    assert(arch_fields(rec_views(recs@))[j] == rec_views(recs@)[j].3);
                }
            }
        }
        i = i + 1;
    }
    proof {
        lemma_rec_views_len(recs@);
        assert(arch_fields(rec_views(recs@)).take(recs@.len() as int) =~= arch_fields(
            rec_views(recs@),
        ));
    }
    out
}

/// The dependency names of the records, in order.
fn collect_names(recs: &Vec<Record>) -> (r: Vec<String>)
    ensures
        seq_views(r@) == name_fields(rec_views(recs@)),
{
    let mut out: Vec<String> = Vec::new();
    let mut i: usize = 0;
    proof {
        lemma_seq_views_len(out@);
        lemma_rec_views_len(recs@);
        assert(seq_views(out@) =~= name_fields(rec_views(recs@)).take(0));
    }
    while i < recs.len()
        invariant
            i <= recs@.len(),
            seq_views(out@) == name_fields(rec_views(recs@)).take(i as int),
        decreases recs@.len() - i,
    {
        let ghost old_out = out@;
        out.push(recs[i].name.clone());
        proof {
            lemma_seq_views_len(old_out);
            lemma_seq_views_len(out@);
            lemma_rec_views_len(recs@);
            assert(seq_views(out@) =~= name_fields(rec_views(recs@)).take(i as int + 1)) by {
                assert forall|j: int| 0 <= j < out@.len() implies seq_views(out@)[j]
                    == name_fields(rec_views(recs@)).take(i as int + 1)[j] by {
                    lemma_seq_views_index(out@, j);
                    if j < old_out.len() {
                        lemma_seq_views_index(old_out, j);
                    }
                    lemma_rec_views_index(recs@, j);
                    assert(name_fields(rec_views(recs@))[j] == rec_views(recs@)[j].0);
                }
            }
        }
        i = i + 1;
    }
    proof {
        lemma_rec_views_len(recs@);
        assert(name_fields(rec_views(recs@)).take(recs@.len() as int) =~= name_fields(
            rec_views(recs@),
        ));
    }
    out
}

/// One bucket's entry list: sorted stably by name.
fn build_bucket(bucket: &Vec<Record>) -> (r: Vec<(String, String)>)
    ensures
        pair_views(r@) == pkg_pairs(
            concat_name_groups(
                rec_views(bucket@),
                sort_lex(dedup_first(name_fields(rec_views(bucket@)))),
            ),
        ),
{
    let names = collect_names(bucket);
    let sorted_names = sorted_unique_strings(&names);
    let ghost bv = rec_views(bucket@);
    let ghost ns = sort_lex(dedup_first(name_fields(bv)));
    proof {
        assert(seq_views(sorted_names@) == ns);
    }
    let mut out: Vec<(String, String)> = Vec::new();
    let mut i: usize = 0;
    proof {
        lemma_seq_views_len(sorted_names@);
        assert(pair_views(out@) =~= pkg_pairs(
            concat_name_groups(bv, ns.take(0)),
        ));
    }
    while i < sorted_names.len()
        invariant
            i <= sorted_names@.len(),
            bv == rec_views(bucket@),
            ns == seq_views(sorted_names@),
            ns == sort_lex(dedup_first(name_fields(bv))),
            pair_views(out@) == pkg_pairs(
                concat_name_groups(bv, ns.take(i as int)),
            ),
        decreases sorted_names@.len() - i,
    {
        proof {
            lemma_seq_views_index(sorted_names@, i as int);
        }
        let matches = filter_by_name(bucket, sorted_names[i].as_str());
        let mut j: usize = 0;
        let ghost mv = rec_views(matches@);
        while j < matches.len()
            invariant
                j <= matches@.len(),
                bv == rec_views(bucket@),
                ns == seq_views(sorted_names@),
                i < sorted_names@.len(),
                mv == rec_views(matches@),
                pair_views(out@) == pkg_pairs(
                    concat_name_groups(bv, ns.take(i as int)),
                ) + pkg_pairs(mv.take(j as int)),
            decreases matches@.len() - j,
        {
            let ghost old_out = out@;
            proof {
                lemma_rec_views_index(matches@, j as int);
            }
            out.push((matches[j].name.clone(), matches[j].relop.clone()));
            proof {
                lemma_pair_views_len(old_out);
                lemma_pair_views_len(out@);
                assert(pair_views(out@) =~= pkg_pairs(
                    concat_name_groups(bv, ns.take(i as int)),
                ) + pkg_pairs(mv.take(j as int + 1))) by {
                    assert(mv.take(j as int + 1) =~= mv.take(j as int).push(mv[j as int]));
                    assert(pkg_pairs(mv.take(j as int + 1)) =~= pkg_pairs(mv.take(j as int)).push(
                        (mv[j as int].0, mv[j as int].1),
                    ));
                    assert(rec_view(matches@[j as int]) == mv[j as int]);
                    assert forall|m: int| 0 <= m < out@.len() implies pair_views(out@)[m]
                        == (pkg_pairs(concat_name_groups(bv, ns.take(i as int))) + pkg_pairs(
                        mv.take(j as int + 1),
                    ))[m] by {
                        lemma_pair_views_index(out@, m);
                        if m < old_out.len() {
                            lemma_pair_views_index(old_out, m);
                        }
                    }
                }
            }
            j = j + 1;
        }
        proof {
            assert(mv.take(matches@.len() as int) =~= mv);
            // one more name group appended
            lemma_concat_name_groups_step(bv, ns, i as int);
            assert(mv == recs_with_name(bv, ns[i as int]));
            assert(pair_views(out@) =~= pkg_pairs(
                concat_name_groups(bv, ns.take(i as int + 1)),
            )) by {
                assert(pkg_pairs(concat_name_groups(bv, ns.take(i as int)) + mv) =~= pkg_pairs(
                    concat_name_groups(bv, ns.take(i as int)),
                ) + pkg_pairs(mv));
            }
        }
        i = i + 1;
    }
    proof {
        assert(ns.take(ns.len() as int) =~= ns);
    }
    out
}

/// Appending one name to the list appends that name's records.
proof fn lemma_concat_name_groups_step(rs: Seq<RecordView>, names: Seq<Seq<char>>, i: int)
    requires
        0 <= i < names.len(),
    ensures
        concat_name_groups(rs, names.take(i + 1)) == concat_name_groups(rs, names.take(i))
            + recs_with_name(rs, names[i]),
    decreases i,
{
    if i == 0 {
        assert(names.take(1)[0] == names[0]);
        assert(names.take(1).skip(1) =~= Seq::<Seq<char>>::empty());
        assert(concat_name_groups(rs, names.take(0)) =~= Seq::<RecordView>::empty());
        assert(concat_name_groups(rs, names.take(1)) == recs_with_name(rs, names[0])
            + concat_name_groups(rs, names.take(1).skip(1)));
        assert(recs_with_name(rs, names[0]) + Seq::<RecordView>::empty() =~= recs_with_name(
            rs,
            names[0],
        ));
        assert(concat_name_groups(rs, names.take(0)) + recs_with_name(rs, names[0])
            =~= recs_with_name(rs, names[0]));
    } else {
        lemma_concat_name_groups_step(rs, names.skip(1), i - 1);
        assert(names.take(i + 1)[0] == names[0]);
        assert(names.take(i + 1).skip(1) =~= names.skip(1).take(i));
        assert(names.take(i)[0] == names[0]);
        assert(names.take(i).skip(1) =~= names.skip(1).take(i - 1));
        assert(names.skip(1)[i - 1] == names[i]);
        assert(concat_name_groups(rs, names.take(i + 1)) == recs_with_name(rs, names[0])
            + concat_name_groups(rs, names.skip(1).take(i)));
        assert(concat_name_groups(rs, names.take(i)) == recs_with_name(rs, names[0])
            + concat_name_groups(rs, names.skip(1).take(i - 1)));
        assert(concat_name_groups(rs, names.take(i + 1)) =~= concat_name_groups(rs, names.take(i))
            + recs_with_name(rs, names[i]));
    }
}


/// Append the buckets of one relationship kind.
fn push_groups_for_kind(out: &mut Vec<Dependency>, recs: &Vec<Record>, kind: &str, display: &str)
    ensures
        dep_views(final(out)@) == dep_views(old(out)@) + groups_for_kind_recs(
            rec_views(recs@),
            kind@,
            display@,
        ),
{
    let kindrecs = filter_by_kind(recs, kind);
    let archs_all = collect_archs(&kindrecs);
    let archs = sorted_unique_strings(&archs_all);
    let ghost kr = rec_views(kindrecs@);
    let ghost garchs = seq_views(archs@);
    let ghost base = dep_views(out@);
    let ghost gdisplay = display@;
    let mut j: usize = 0;
    proof {
        lemma_seq_views_len(archs@);
        assert(dep_views(out@) =~= base + Seq::new(
            0,
            |t: int| (gdisplay, garchs[t], bucket_entries(kr, garchs[t])),
        ));
    }
    while j < archs.len()
        invariant
            j <= archs@.len(),
            kr == rec_views(kindrecs@),
            garchs == seq_views(archs@),
            gdisplay == display@,
            garchs == sort_lex(dedup_first(arch_fields(kr))),
            kr == recs_with_kind(rec_views(recs@), kind@),
            dep_views(out@) == base + Seq::new(
                j as nat,
                |t: int| (gdisplay, garchs[t], bucket_entries(kr, garchs[t])),
            ),
        decreases archs@.len() - j,
    {
        proof {
            lemma_seq_views_index(archs@, j as int);
        }
        let bucket = filter_by_arch(&kindrecs, archs[j].as_str());
        let packages = build_bucket(&bucket);
        let d = Dependency {
            relationship: display.to_owned(),
            arch: archs[j].clone(),
            packages,
        };
        let ghost dv = dep_view(d);
        proof {
            assert(dv == (gdisplay, garchs[j as int], bucket_entries(kr, garchs[j as int])));
        }
        let ghost old_out = out@;
        out.push(d);
        proof {
            lemma_dep_views_len(old_out);
            lemma_dep_views_len(out@);
            assert(dep_views(out@) =~= base + Seq::new(
                (j + 1) as nat,
                |t: int| (gdisplay, garchs[t], bucket_entries(kr, garchs[t])),
            )) by {
                assert(dep_views(out@).len() == base.len() + j + 1);
                assert forall|m: int| 0 <= m < dep_views(out@).len() implies dep_views(out@)[m]
                    == (base + Seq::new(
                    (j + 1) as nat,
                    |t: int| (gdisplay, garchs[t], bucket_entries(kr, garchs[t])),
                ))[m] by {
                    lemma_dep_views_index(out@, m);
                    if m < old_out.len() {
                        lemma_dep_views_index(old_out, m);
                    }
                    if m < base.len() + j {
                        assert(dep_views(out@)[m] == (base + Seq::new(
                            j as nat,
                            |t: int| (gdisplay, garchs[t], bucket_entries(kr, garchs[t])),
                        ))[m]);
                    } else {
                        assert(dep_views(out@)[m] == dv);
                    }
                }
            }
        }
        j = j + 1;
    }
    proof {
        assert(dep_views(out@) =~= base + groups_for_kind_recs(rec_views(recs@), kind@, display@));
    }
}

/// Parsing is deterministic: any two outputs that meet the parse
/// contract for the same raw string are the same groups. Reparsing a
/// string therefore always yields identical output, whatever order its
/// records came in — the grouped form depends on the record set alone.
pub proof fn lemma_parse_deterministic(s: Seq<char>, r1: Seq<Dependency>, r2: Seq<Dependency>)
    requires
        dep_views(r1) == spec_dep_groups(s),
        dep_views(r2) == spec_dep_groups(s),
    ensures
        dep_views(r1) == dep_views(r2),
{
}

impl Dependency {
    /// Parse a flattened dependency string into relationship buckets.
    ///
    /// Records of unknown relationship kinds are dropped; the eight known
    /// kinds come out in their fixed priority order, with architecture
    /// buckets ascending and entries sorted by dependency name. An empty
    /// string yields an empty list.
    pub fn parse_db_dependencies(s: &str) -> (r: Vec<Dependency>)
        ensures
            dep_views(r@) == spec_dep_groups(s@),
    {
        let recs = parse_records(s);
        let mut out: Vec<Dependency> = Vec::new();
        assert(dep_views(out@) =~= Seq::<
            (Seq<char>, Seq<char>, Seq<(Seq<char>, Seq<char>)>),
        >::empty());
        push_groups_for_kind(&mut out, &recs, "PKGDEP", "Depends");
        push_groups_for_kind(&mut out, &recs, "BUILDDEP", "Depends (build)");
        push_groups_for_kind(&mut out, &recs, "PKGREP", "Replaces");
        push_groups_for_kind(&mut out, &recs, "PKGRECOM", "Recommends");
        push_groups_for_kind(&mut out, &recs, "PKGCONFL", "Conflicts");
        push_groups_for_kind(&mut out, &recs, "PKGBREAK", "Breaks");
        push_groups_for_kind(&mut out, &recs, "PKGPROV", "Provides");
        push_groups_for_kind(&mut out, &recs, "PKGSUG", "Suggests");
        proof {
            assert(dep_views(out@) =~= spec_dep_groups(s@));
        }
        out
    }
}

} // verus!
