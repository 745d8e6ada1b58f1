//! Lexicographic ordering of strings by code point, plus the small string
//! helpers (dedup, sort, equality) that the catalog components share.
//! Byte-wise comparison of UTF-8 text orders exactly as code-point
//! comparison does, so `lex_le` on `Seq<char>` views models `str::cmp`.

use vstd::prelude::*;

verus! {

/// `a` is lexicographically less than or equal to `b`, comparing code points.
pub open spec fn lex_le(a: Seq<char>, b: Seq<char>) -> bool
    decreases a.len(),
{
    if a.len() == 0 {
        true
    } else if b.len() == 0 {
        false
    } else if (a[0] as u32) < (b[0] as u32) {
        true
    } else if (a[0] as u32) > (b[0] as u32) {
        false
    } else {
        lex_le(a.skip(1), b.skip(1))
    }
}

/// Strict version of `lex_le`.
pub open spec fn lex_lt(a: Seq<char>, b: Seq<char>) -> bool {
    lex_le(a, b) && a != b
}

pub proof fn lemma_lex_le_total(a: Seq<char>, b: Seq<char>)
    ensures
        lex_le(a, b) || lex_le(b, a),
    decreases a.len(),
{
    if a.len() != 0 && b.len() != 0 && a[0] as u32 == b[0] as u32 {
        lemma_lex_le_total(a.skip(1), b.skip(1));
    }
}

pub proof fn lemma_lex_le_trans(a: Seq<char>, b: Seq<char>, c: Seq<char>)
    requires
        lex_le(a, b),
        lex_le(b, c),
    ensures
        lex_le(a, c),
    decreases a.len(),
{
    if a.len() != 0 && b.len() != 0 && c.len() != 0 && a[0] as u32 == b[0] as u32 && b[0] as u32
        == c[0] as u32 {
        lemma_lex_le_trans(a.skip(1), b.skip(1), c.skip(1));
    }
}

/// The views of a sequence of strings.
pub open spec fn seq_views(s: Seq<String>) -> Seq<Seq<char>> {
    s.map_values(|x: String| x@)
}

pub proof fn lemma_seq_views_len(s: Seq<String>)
    ensures
        seq_views(s).len() == s.len(),
{
}

pub proof fn lemma_seq_views_index(s: Seq<String>, i: int)
    requires
        0 <= i < s.len(),
    ensures
        seq_views(s).len() == s.len(),
        seq_views(s)[i] == s[i]@,
{
}

/// Every element of `s` is `lex_le` its successors (ascending, duplicates allowed).
pub open spec fn sorted_asc(s: Seq<Seq<char>>) -> bool {
    forall|i: int, j: int| 0 <= i < j < s.len() ==> lex_le(s[i], s[j])
}

/// Strictly ascending: sorted and free of duplicates.
pub open spec fn sorted_strict_asc(s: Seq<Seq<char>>) -> bool {
    forall|i: int, j: int| 0 <= i < j < s.len() ==> lex_lt(s[i], s[j])
}

/// Keep the first occurrence of each value, in order of first appearance.
pub open spec fn dedup_first(s: Seq<Seq<char>>) -> Seq<Seq<char>>
    decreases s.len(),
{
    if s.len() == 0 {
        Seq::empty()
    } else {
        let rest = dedup_first(s.drop_last());
        if rest.contains(s.last()) {
            rest
        } else {
            rest.push(s.last())
        }
    }
}

pub proof fn lemma_dedup_first_membership(s: Seq<Seq<char>>, x: Seq<char>)
    ensures
        dedup_first(s).contains(x) <==> s.contains(x),
    decreases s.len(),
{
    if s.len() != 0 {
        lemma_dedup_first_membership(s.drop_last(), x);
        assert(s.contains(x) <==> (s.drop_last().contains(x) || s.last() == x)) by {
            if s.contains(x) {
                let i = choose|i: int| 0 <= i < s.len() && s[i] == x;
                if i < s.len() - 1 {
                    assert(s.drop_last()[i] == x);
                }
            }
            if s.drop_last().contains(x) {
                let i = choose|i: int| 0 <= i < s.drop_last().len() && s.drop_last()[i] == x;
                assert(s[i] == x);
            }
            if s.last() == x {
                assert(s[s.len() - 1] == x);
            }
        }
        let rest = dedup_first(s.drop_last());
        assert(rest.push(s.last()).contains(x) <==> (rest.contains(x) || s.last() == x)) by {
            let r2 = rest.push(s.last());
            if rest.contains(x) {
                let i = choose|i: int| 0 <= i < rest.len() && rest[i] == x;
                assert(r2[i] == x);
            }
            if s.last() == x {
                assert(r2[r2.len() - 1] == x);
            }
            if r2.contains(x) {
                let i = choose|i: int| 0 <= i < r2.len() && r2[i] == x;
                if i < rest.len() {
                    assert(rest[i] == x);
                }
            }
        }
    }
}

pub proof fn lemma_dedup_first_no_dups(s: Seq<Seq<char>>)
    ensures
        dedup_first(s).no_duplicates(),
    decreases s.len(),
{
    if s.len() != 0 {
        lemma_dedup_first_no_dups(s.drop_last());
        let rest = dedup_first(s.drop_last());
        if !rest.contains(s.last()) {
            assert forall|i: int, j: int|
                0 <= i < j < dedup_first(s).len() implies dedup_first(s)[i] != dedup_first(
                s,
            )[j] by {
                if j == dedup_first(s).len() - 1 {
                    assert(rest.contains(rest[i]));
                }
            }
        }
    }
}

/// Insert `x` into `s` before the first element that `x` is `lex_le` to.
pub open spec fn insert_le(x: Seq<char>, s: Seq<Seq<char>>) -> Seq<Seq<char>>
    decreases s.len(),
{
    if s.len() == 0 {
        seq![x]
    } else if lex_le(x, s[0]) {
        seq![x] + s
    } else {
        seq![s[0]] + insert_le(x, s.skip(1))
    }
}

/// Insertion sort into ascending order.
pub open spec fn sort_lex(s: Seq<Seq<char>>) -> Seq<Seq<char>>
    decreases s.len(),
{
    if s.len() == 0 {
        Seq::empty()
    } else {
        insert_le(s[0], sort_lex(s.skip(1)))
    }
}

/// Prepending one element adds it to the multiset.
proof fn lemma_multiset_cons(x: Seq<char>, s: Seq<Seq<char>>)
    ensures
        (seq![x] + s).to_multiset() == s.to_multiset().insert(x),
{
    broadcast use vstd::seq_lib::group_to_multiset_ensures;

    vstd::seq_lib::lemma_multiset_commutative(seq![x], s);
    assert(s + seq![x] =~= s.push(x));
    assert((seq![x] + s).to_multiset() =~= s.to_multiset().insert(x));
}

pub proof fn lemma_insert_le_multiset(x: Seq<char>, s: Seq<Seq<char>>)
    ensures
        insert_le(x, s).to_multiset() == s.push(x).to_multiset(),
        insert_le(x, s).len() == s.len() + 1,
    decreases s.len(),
{
    broadcast use vstd::seq_lib::group_to_multiset_ensures;

    if s.len() == 0 {
        assert(insert_le(x, s) =~= s.push(x));
    } else if lex_le(x, s[0]) {
        lemma_multiset_cons(x, s);
        assert((seq![x] + s).to_multiset() =~= s.push(x).to_multiset());
    } else {
        lemma_insert_le_multiset(x, s.skip(1));
        lemma_multiset_cons(s[0], insert_le(x, s.skip(1)));
        lemma_multiset_cons(s[0], s.skip(1).push(x));
        assert(seq![s[0]] + s.skip(1).push(x) =~= s.push(x));
        assert(insert_le(x, s).to_multiset() =~= s.push(x).to_multiset());
    }
}

pub proof fn lemma_sort_lex_multiset(s: Seq<Seq<char>>)
    ensures
        sort_lex(s).to_multiset() == s.to_multiset(),
        sort_lex(s).len() == s.len(),
    decreases s.len(),
{
    broadcast use vstd::seq_lib::group_to_multiset_ensures;

    if s.len() != 0 {
        lemma_sort_lex_multiset(s.skip(1));
        lemma_insert_le_multiset(s[0], sort_lex(s.skip(1)));
        lemma_multiset_cons(s[0], s.skip(1));
        assert(s =~= seq![s[0]] + s.skip(1));
        assert(sort_lex(s).to_multiset() =~= s.to_multiset());
    }
}

pub proof fn lemma_insert_le_sorted(x: Seq<char>, s: Seq<Seq<char>>)
    requires
        sorted_asc(s),
    ensures
        sorted_asc(insert_le(x, s)),
    decreases s.len(),
{
    broadcast use vstd::seq_lib::group_to_multiset_ensures;

    if s.len() == 0 {
    } else if lex_le(x, s[0]) {
        let r = seq![x] + s;
        assert forall|i: int, j: int| 0 <= i < j < r.len() implies lex_le(r[i], r[j]) by {
            if i == 0 {
                if j > 1 {
                    lemma_lex_le_trans(x, s[0], s[j - 1]);
                }
            }
        }
    } else {
        lemma_lex_le_total(x, s[0]);
        assert(sorted_asc(s.skip(1)));
        lemma_insert_le_sorted(x, s.skip(1));
        let t = insert_le(x, s.skip(1));
        let r = seq![s[0]] + t;
        lemma_insert_le_multiset(x, s.skip(1));
        assert forall|i: int, j: int| 0 <= i < j < r.len() implies lex_le(r[i], r[j]) by {
            if i == 0 {
                assert(t.contains(t[j - 1]));
                assert(t.to_multiset().count(t[j - 1]) > 0);
                assert(s.skip(1).push(x).contains(t[j - 1]));
                if t[j - 1] == x {
                    assert(lex_le(s[0], x));
                } else {
                    let k = choose|k: int|
                        0 <= k < s.skip(1).push(x).len() && s.skip(1).push(x)[k] == t[j - 1];
                    assert(s.skip(1)[k] == t[j - 1]);
                    assert(lex_le(s[0], s[k + 1]));
                }
            }
        }
    }
}

pub proof fn lemma_sort_lex_sorted(s: Seq<Seq<char>>)
    ensures
        sorted_asc(sort_lex(s)),
    decreases s.len(),
{
    if s.len() != 0 {
        lemma_sort_lex_sorted(s.skip(1));
        lemma_insert_le_sorted(s[0], sort_lex(s.skip(1)));
    }
}

/// A sorted permutation of a duplicate-free sequence is strictly ascending.
pub proof fn lemma_sorted_no_dups_strict(orig: Seq<Seq<char>>, s: Seq<Seq<char>>)
    requires
        sorted_asc(s),
        s.to_multiset() == orig.to_multiset(),
        orig.no_duplicates(),
    ensures
        sorted_strict_asc(s),
{
    broadcast use vstd::seq_lib::group_to_multiset_ensures;

    orig.lemma_multiset_has_no_duplicates();
    assert forall|i: int, j: int| 0 <= i < j < s.len() implies lex_lt(s[i], s[j]) by {
        if s[i] == s[j] {
            let t = s.remove(j);
            assert(t.to_multiset() == s.to_multiset().remove(s[j]));
            assert(t[i] == s[i]);
            assert(t.contains(s[i]));
            assert(t.to_multiset().count(s[i]) > 0);
            assert(s.to_multiset().count(s[i]) >= 2);
            assert(orig.to_multiset().count(s[i]) >= 2);
            assert(orig.to_multiset().contains(s[i]));
        }
    }
}


/// `insert_le` places `x` right after the longest prefix of elements that
/// `x` is not `lex_le` to.
pub proof fn lemma_insert_le_at(x: Seq<char>, s: Seq<Seq<char>>, k: int)
    requires
        0 <= k <= s.len(),
        forall|i: int| 0 <= i < k ==> !lex_le(x, s[i]),
        k < s.len() ==> lex_le(x, s[k]),
    ensures
        insert_le(x, s) == s.insert(k, x),
    decreases s.len(),
{
    if k == 0 {
        if s.len() == 0 {
            assert(insert_le(x, s) =~= s.insert(0, x));
        } else {
            assert(insert_le(x, s) =~= s.insert(0, x));
        }
    } else {
        assert(!lex_le(x, s[0]));
        lemma_insert_le_at(x, s.skip(1), k - 1);
        assert(insert_le(x, s) =~= s.insert(k, x)) by {
            assert(insert_le(x, s) == seq![s[0]] + insert_le(x, s.skip(1)));
            assert(insert_le(x, s.skip(1)) == s.skip(1).insert(k - 1, x));
        }
    }
}

/// String equality through the views.
pub fn str_eq(a: &str, b: &str) -> (r: bool)
    ensures
        r == (a@ == b@),
{
    let x: String = a.to_owned();
    let y: String = b.to_owned();
    x == y
}

/// Lexicographic comparison of two string slices by code point.
pub fn str_le(a: &str, b: &str) -> (r: bool)
    ensures
        r == lex_le(a@, b@),
{
    let alen = a.unicode_len();
    let blen = b.unicode_len();
    let mut i: usize = 0;
    assert(a@.skip(0) =~= a@);
    assert(b@.skip(0) =~= b@);
    loop
        invariant
            i <= alen,
            i <= blen,
            alen == a@.len(),
            blen == b@.len(),
            lex_le(a@, b@) == lex_le(a@.skip(i as int), b@.skip(i as int)),
        decreases alen - i,
    {
        if i == alen {
            return true;
        }
        if i == blen {
            return false;
        }
        let ca = a.get_char(i);
        let cb = b.get_char(i);
        if (ca as u32) < (cb as u32) {
            return true;
        }
        if (ca as u32) > (cb as u32) {
            return false;
        }
        proof {
            assert(a@.skip(i as int)[0] == a@[i as int]);
            assert(b@.skip(i as int)[0] == b@[i as int]);
            assert(a@.skip(i as int).skip(1) =~= a@.skip(i as int + 1));
            assert(b@.skip(i as int).skip(1) =~= b@.skip(i as int + 1));
        }
        i = i + 1;
    }
}

/// Whether some element of `v` has the same characters as `x`.
pub fn contains_string(v: &Vec<String>, x: &str) -> (r: bool)
    ensures
        r == seq_views(v@).contains(x@),
{
    let mut i: usize = 0;
    while i < v.len()
        invariant
            i <= v.len(),
            forall|k: int| 0 <= k < i ==> seq_views(v@)[k] != x@,
        decreases v.len() - i,
    {
        if str_eq(v[i].as_str(), x) {
            assert(seq_views(v@)[i as int] == x@);
            return true;
        }
        i = i + 1;
    }
    false
}

/// Insert `x` into the sorted vector `v`, keeping the `insert_le` shape.
pub fn insert_string_sorted(v: &mut Vec<String>, x: String)
    ensures
        seq_views(final(v)@) == insert_le(x@, seq_views(old(v)@)),
{
    let ghost s = seq_views(v@);
    let mut k: usize = 0;
    let mut found = false;
    while k < v.len() && !found
        invariant
            k <= v.len(),
            v == old(v),
            s == seq_views(v@),
            forall|i: int| 0 <= i < k ==> !lex_le(x@, s[i]),
            found ==> k < v.len() && lex_le(x@, s[k as int]),
            !found ==> forall|i: int| 0 <= i < k ==> !lex_le(x@, s[i]),
        decreases v.len() - k + (if found { 0int } else { 1int }),
    {
        if str_le(x.as_str(), v[k].as_str()) {
            found = true;
        } else {
            k = k + 1;
        }
    }
    proof {
        lemma_insert_le_at(x@, s, k as int);
    }
    v.insert(k, x);
    assert(seq_views(v@) =~= insert_le(x@, s));
}

/// Sort into ascending lexicographic order.
pub fn sort_strings(v: &Vec<String>) -> (r: Vec<String>)
    ensures
        seq_views(r@) == sort_lex(seq_views(v@)),
{
    let mut r: Vec<String> = Vec::new();
    let mut i: usize = v.len();
    assert(seq_views(v@).skip(i as int) =~= Seq::<Seq<char>>::empty());
    while i > 0
        invariant
            i <= v.len(),
            seq_views(r@) == sort_lex(seq_views(v@).skip(i as int)),
        decreases i,
    {
        i = i - 1;
        insert_string_sorted(&mut r, v[i].clone());
        proof {
            let s = seq_views(v@);
            assert(s.skip(i as int)[0] == s[i as int]);
            assert(s.skip(i as int).skip(1) =~= s.skip(i as int + 1));
            assert(seq_views(r@) == insert_le(s[i as int], sort_lex(s.skip(i as int + 1))));
            assert(sort_lex(s.skip(i as int)) == insert_le(s.skip(i as int)[0], sort_lex(
                s.skip(i as int).skip(1),
            )));
        }
    }
    assert(seq_views(v@).skip(0) =~= seq_views(v@));
    r
}

/// Drop repeated strings, keeping each first occurrence.
pub fn dedup_strings(v: &Vec<String>) -> (r: Vec<String>)
    ensures
        seq_views(r@) == dedup_first(seq_views(v@)),
{
    let mut r: Vec<String> = Vec::new();
    let mut i: usize = 0;
    assert(seq_views(v@).take(0) =~= Seq::<Seq<char>>::empty());
    while i < v.len()
        invariant
            i <= v.len(),
            seq_views(r@) == dedup_first(seq_views(v@).take(i as int)),
        decreases v.len() - i,
    {
        let ghost s = seq_views(v@);
        let hit = contains_string(&r, v[i].as_str());
        proof {
            assert(s.take(i as int + 1).drop_last() =~= s.take(i as int));
            assert(s.take(i as int + 1).last() == s[i as int]);
        }
        if !hit {
            r.push(v[i].clone());
            assert(seq_views(r@) =~= dedup_first(seq_views(v@).take(i as int)).push(
                seq_views(v@)[i as int],
            ));
        }
        i = i + 1;
    }
    assert(seq_views(v@).take(v@.len() as int) =~= seq_views(v@));
    r
}

/// The ascending, duplicate-free arrangement of the strings of `v`.
pub fn sorted_unique_strings(v: &Vec<String>) -> (r: Vec<String>)
    ensures
        seq_views(r@) == sort_lex(dedup_first(seq_views(v@))),
        sorted_strict_asc(seq_views(r@)),
        forall|x: Seq<char>| seq_views(r@).contains(x) <==> seq_views(v@).contains(x),
{
    let d = dedup_strings(v);
    let r = sort_strings(&d);
    proof {
        broadcast use vstd::seq_lib::group_to_multiset_ensures;

        let dv = dedup_first(seq_views(v@));
        lemma_dedup_first_no_dups(seq_views(v@));
        lemma_sort_lex_sorted(dv);
        lemma_sort_lex_multiset(dv);
        lemma_sorted_no_dups_strict(dv, sort_lex(dv));
        assert forall|x: Seq<char>|
            seq_views(r@).contains(x) <==> seq_views(v@).contains(x) by {
            lemma_dedup_first_membership(seq_views(v@), x);
            assert(seq_views(r@).contains(x) <==> seq_views(r@).to_multiset().count(x) > 0);
            assert(dv.contains(x) <==> dv.to_multiset().count(x) > 0);
        }
    }
    r
}


/// Split at every occurrence of `c`, as `str::split` does: the result has
/// one piece more than there are separators, and empty pieces are kept.
pub open spec fn split_char(s: Seq<char>, c: char) -> Seq<Seq<char>>
    decreases s.len(),
{
    if s.len() == 0 {
        seq![Seq::<char>::empty()]
    } else if s[0] == c {
        seq![Seq::<char>::empty()] + split_char(s.skip(1), c)
    } else {
        let r = split_char(s.skip(1), c);
        seq![seq![s[0]] + r[0]] + r.skip(1)
    }
}

pub proof fn lemma_split_char_len(s: Seq<char>, c: char)
    ensures
        split_char(s, c).len() >= 1,
    decreases s.len(),
{
    if s.len() != 0 {
        lemma_split_char_len(s.skip(1), c);
    }
}

/// Split a string slice at every occurrence of `c`.
pub fn split_string(s: &str, c: char) -> (r: Vec<String>)
    ensures
        seq_views(r@) == split_char(s@, c),
{
    let len = s.unicode_len();
    let mut done: Vec<String> = Vec::new();
    let mut p: usize = 0;
    let mut i: usize = 0;
    proof {
        lemma_split_char_len(s@, c);
        assert(s@.skip(0) =~= s@);
        assert(s@.subrange(0, 0) =~= Seq::<char>::empty());
        let r = split_char(s@, c);
        assert(split_char(s@, c) =~= seq_views(done@) + seq![
            s@.subrange(0, 0) + r[0],
        ] + r.skip(1)) by {
            assert(s@.subrange(0, 0) + r[0] =~= r[0]);
            assert(seq_views(done@) =~= Seq::<Seq<char>>::empty());
        }
    }
    while i < len
        invariant
            0 <= p <= i <= len,
            len == s@.len(),
            ({
                let r = split_char(s@.skip(i as int), c);
                split_char(s@, c) == seq_views(done@) + seq![
                    s@.subrange(p as int, i as int) + r[0],
                ] + r.skip(1)
            }),
        decreases len - i,
    {
        let ghost r = split_char(s@.skip(i as int), c);
        let ghost rn = split_char(s@.skip(i as int + 1), c);
        proof {
            lemma_split_char_len(s@.skip(i as int), c);
            lemma_split_char_len(s@.skip(i as int + 1), c);
            assert(s@.skip(i as int)[0] == s@[i as int]);
            assert(s@.skip(i as int).skip(1) =~= s@.skip(i as int + 1));
            assert(split_char(s@.skip(i as int), c) == (if s@[i as int] == c {
                seq![Seq::<char>::empty()] + rn
            } else {
                seq![seq![s@[i as int]] + rn[0]] + rn.skip(1)
            }));
        }
        let ch = s.get_char(i);
        if ch == c {
            let ghost done_old = done@;
            let piece = s.substring_char(p, i).to_owned();
            done.push(piece);
            proof {
                assert(r[0] =~= Seq::<char>::empty());
                assert(r.skip(1) =~= rn);
                assert(seq_views(done@) =~= seq_views(done_old).push(
                    s@.subrange(p as int, i as int),
                ));
                assert(s@.subrange(p as int, i as int) + r[0] =~= s@.subrange(
                    p as int,
                    i as int,
                ));
                assert(split_char(s@, c) =~= seq_views(done@) + seq![
                    s@.subrange(i as int + 1, i as int + 1) + rn[0],
                ] + rn.skip(1)) by {
                    assert(s@.subrange(i as int + 1, i as int + 1) =~= Seq::<char>::empty());
                    assert(s@.subrange(i as int + 1, i as int + 1) + rn[0] =~= rn[0]);
                    assert(seq_views(done_old) + seq![s@.subrange(p as int, i as int)] + rn
                        =~= seq_views(done@) + seq![rn[0]] + rn.skip(1)) by {
                        assert(rn =~= seq![rn[0]] + rn.skip(1));
                    }
                    assert(split_char(s@, c) == seq_views(done_old) + seq![
                        s@.subrange(p as int, i as int) + r[0],
                    ] + r.skip(1));
                }
            }
            p = i + 1;
        } else {
            proof {
                assert(r[0] == seq![s@[i as int]] + rn[0]);
                assert(r.skip(1) =~= rn.skip(1));
                assert(s@.subrange(p as int, i as int + 1) =~= s@.subrange(p as int, i as int)
                    + seq![s@[i as int]]);
                assert(s@.subrange(p as int, i as int + 1) + rn[0] =~= s@.subrange(
                    p as int,
                    i as int,
                ) + r[0]);
                assert(split_char(s@, c) =~= seq_views(done@) + seq![
                    s@.subrange(p as int, i as int + 1) + rn[0],
                ] + rn.skip(1));
            }
        }
        i = i + 1;
    }
    let last = s.substring_char(p, len).to_owned();
    let ghost done_old = done@;
    done.push(last);
    proof {
        let r = split_char(s@.skip(len as int), c);
        assert(s@.skip(len as int) =~= Seq::<char>::empty());
        assert(split_char(Seq::<char>::empty(), c) == seq![Seq::<char>::empty()]);
        assert(r =~= seq![Seq::<char>::empty()]);
        assert(r[0] =~= Seq::<char>::empty());
        assert(r.skip(1) =~= Seq::<Seq<char>>::empty());
        assert(s@.subrange(p as int, len as int) + r[0] =~= s@.subrange(p as int, len as int));
        assert(seq_views(done@) =~= seq_views(done_old).push(s@.subrange(p as int, len as int)));
        assert(seq_views(done@) =~= seq_views(done_old) + seq![
            s@.subrange(p as int, len as int) + r[0],
        ] + r.skip(1));
    }
    done
}


/// Inserting anywhere adds one copy to the multiset.
pub proof fn lemma_seq_insert_multiset(s: Seq<Seq<char>>, i: int, x: Seq<char>)
    requires
        0 <= i <= s.len(),
    ensures
        s.insert(i, x).to_multiset() == s.to_multiset().insert(x),
{
    broadcast use vstd::seq_lib::group_to_multiset_ensures;

    let t = s.insert(i, x);
    assert(t =~= s.take(i) + (seq![x] + s.skip(i)));
    vstd::seq_lib::lemma_multiset_commutative(s.take(i), seq![x] + s.skip(i));
    lemma_multiset_cons(x, s.skip(i));
    assert((seq![x] + s.skip(i)).to_multiset() == s.skip(i).to_multiset().insert(x));
    vstd::seq_lib::lemma_multiset_commutative(s.take(i), s.skip(i));
    assert(s.take(i) + s.skip(i) =~= s);
    assert(t.to_multiset() =~= s.to_multiset().insert(x));
}

} // verus!
