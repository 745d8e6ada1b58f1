//! The package's declared source location: a type tag and a raw value,
//! parsed into a source kind and URL. The combined `SRCS` form packs
//! `type::options::url` fields, of which only the first set is read;
//! unknown schemes and empty URLs yield nothing rather than an error.

use crate::strutil::lemma_seq_views_index;
use crate::strutil::lemma_seq_views_len;
use crate::strutil::seq_views;
use crate::strutil::split_char;
use crate::strutil::split_string;
use crate::strutil::str_eq;
use vstd::prelude::*;

verus! {

/// The kind of a package's upstream source.
#[derive(Debug, Copy, Clone, PartialEq, Eq, Structural)]
pub enum SrcType {
    Git,
    Tarball,
    SvnSrc,
    BzrSrc,
}

impl SrcType {
    /// The kind's display name.
    pub fn label(&self) -> (r: &'static str)
        ensures
            *self is Git ==> r@ == "git"@,
            *self is Tarball ==> r@ == "tarball"@,
            *self is SvnSrc ==> r@ == "Subversion"@,
            *self is BzrSrc ==> r@ == "Bazaar"@,
    {
        match self {
            SrcType::Git => "git",
            SrcType::Tarball => "tarball",
            SrcType::SvnSrc => "Subversion",
            SrcType::BzrSrc => "Bazaar",
        }
    }
}

/// A parsed source location.
#[derive(Debug)]
pub struct Src {
    pub srcurl: String,
    pub srctype: SrcType,
}

/// Split at every `::`, as `str::split("::")` does, left to right.
pub open spec fn split_dcolon(s: Seq<char>) -> Seq<Seq<char>>
    decreases s.len(),
{
    if s.len() == 0 {
        seq![Seq::<char>::empty()]
    } else if s.len() >= 2 && s[0] == ':' && s[1] == ':' {
        seq![Seq::<char>::empty()] + split_dcolon(s.skip(2))
    } else {
        let r = split_dcolon(s.skip(1));
        seq![seq![s[0]] + r[0]] + r.skip(1)
    }
}

pub proof fn lemma_split_dcolon_len(s: Seq<char>)
    ensures
        split_dcolon(s).len() >= 1,
    decreases s.len(),
{
    if s.len() != 0 {
        if s.len() >= 2 && s[0] == ':' && s[1] == ':' {
            lemma_split_dcolon_len(s.skip(2));
        } else {
            lemma_split_dcolon_len(s.skip(1));
        }
    }
}

/// The scheme a tag names in the combined form.
pub open spec fn scheme_of(tag: Seq<char>) -> Option<SrcType> {
    if tag == "git"@ {
        Some(SrcType::Git)
    } else if tag == "svn"@ {
        Some(SrcType::SvnSrc)
    } else if tag == "tbl"@ {
        Some(SrcType::Tarball)
    } else if tag == "bzr"@ {
        Some(SrcType::BzrSrc)
    } else {
        None
    }
}

/// The combined form: the first space-separated set, its `::` fields.
pub open spec fn spec_parse_srcs(srcurl: Seq<char>) -> Option<(SrcType, Seq<char>)> {
    let first = split_char(srcurl, ' ')[0];
    let params = split_dcolon(first);
    if params.len() == 1 {
        match scheme_of("tbl"@) {
            Some(t) => Some((t, params[0])),
            None => None,
        }
    } else if params.len() == 2 {
        match scheme_of(params[0]) {
            Some(t) => Some((t, params[1])),
            None => None,
        }
    } else if params.len() == 3 {
        match scheme_of(params[0]) {
            Some(t) => Some((t, params[2])),
            None => None,
        }
    } else {
        None
    }
}

/// The kind and URL before the empty-URL check.
pub open spec fn spec_parse_src_raw(srctype: Seq<char>, srcurl: Seq<char>) -> Option<
    (SrcType, Seq<char>),
> {
    if srctype == "SRCS"@ {
        spec_parse_srcs(srcurl)
    } else if srctype == "SRCTBL"@ {
        Some((SrcType::Tarball, srcurl))
    } else if srctype == "GITSRC"@ {
        Some((SrcType::Git, srcurl))
    } else if srctype == "SVNSRC"@ {
        Some((SrcType::SvnSrc, srcurl))
    } else if srctype == "BZRSRC"@ {
        Some((SrcType::BzrSrc, srcurl))
    } else {
        None
    }
}

/// What `Src::parse` yields: the kind and URL, or nothing for unknown
/// tags, malformed combined forms, and empty URLs.
pub open spec fn spec_parse_src(srctype: Seq<char>, srcurl: Seq<char>) -> Option<
    (SrcType, Seq<char>),
> {
    match spec_parse_src_raw(srctype, srcurl) {
        Some(p) => if p.1.len() > 0 {
            Some(p)
        } else {
            None
        },
        None => None,
    }
}

/// Split a string slice at every `::`.
fn split_string_dcolon(s: &str) -> (r: Vec<String>)
    ensures
        seq_views(r@) == split_dcolon(s@),
{
    let len = s.unicode_len();
    let mut done: Vec<String> = Vec::new();
    let mut p: usize = 0;
    let mut i: usize = 0;
    proof {
        lemma_split_dcolon_len(s@);
        assert(s@.skip(0) =~= s@);
        let r = split_dcolon(s@);
        assert(split_dcolon(s@) =~= seq_views(done@) + seq![s@.subrange(0, 0) + r[0]] + r.skip(
            1,
        )) by {
            assert(s@.subrange(0, 0) + r[0] =~= r[0]);
            assert(seq_views(done@) =~= Seq::<Seq<char>>::empty());
        }
    }
    while i < len
        invariant
            0 <= p <= i <= len,
            len == s@.len(),
            ({
                let r = split_dcolon(s@.skip(i as int));
                split_dcolon(s@) == seq_views(done@) + seq![
                    s@.subrange(p as int, i as int) + r[0],
                ] + r.skip(1)
            }),
        decreases len - i,
    {
        let ghost r = split_dcolon(s@.skip(i as int));
        let two = i + 1 < len && s.get_char(i) == ':' && s.get_char(i + 1) == ':';
        if two {
            let ghost rn = split_dcolon(s@.skip(i as int + 2));
            proof {
                lemma_split_dcolon_len(s@.skip(i as int));
                lemma_split_dcolon_len(s@.skip(i as int + 2));
                assert(s@.skip(i as int)[0] == s@[i as int]);
                assert(s@.skip(i as int)[1] == s@[i as int + 1]);
                assert(s@.skip(i as int).skip(2) =~= s@.skip(i as int + 2));
                assert(r == seq![Seq::<char>::empty()] + rn);
            }
            let ghost done_old = done@;
            let piece = s.substring_char(p, i).to_owned();
            done.push(piece);
            proof {
                assert(r[0] =~= Seq::<char>::empty());
                assert(r.skip(1) =~= rn);
                assert(seq_views(done@) =~= seq_views(done_old).push(
                    s@.subrange(p as int, i as int),
                ));
                assert(s@.subrange(p as int, i as int) + r[0] =~= s@.subrange(
                    p as int,
                    i as int,
                ));
                assert(split_dcolon(s@) =~= seq_views(done@) + seq![
                    s@.subrange(i as int + 2, i as int + 2) + rn[0],
                ] + rn.skip(1)) by {
                    assert(s@.subrange(i as int + 2, i as int + 2) =~= Seq::<char>::empty());
                    assert(s@.subrange(i as int + 2, i as int + 2) + rn[0] =~= rn[0]);
                    assert(rn =~= seq![rn[0]] + rn.skip(1));
                    assert(split_dcolon(s@) == seq_views(done_old) + seq![
                        s@.subrange(p as int, i as int) + r[0],
                    ] + r.skip(1));
                }
            }
            p = i + 2;
            i = i + 2;
        } else {
            let ghost rn = split_dcolon(s@.skip(i as int + 1));
            proof {
                lemma_split_dcolon_len(s@.skip(i as int));
                lemma_split_dcolon_len(s@.skip(i as int + 1));
                assert(s@.skip(i as int)[0] == s@[i as int]);
                if i + 1 < len {
                    assert(s@.skip(i as int)[1] == s@[i as int + 1]);
                }
                assert(s@.skip(i as int).skip(1) =~= s@.skip(i as int + 1));
                assert(r == seq![seq![s@[i as int]] + rn[0]] + rn.skip(1));
                assert(r[0] == seq![s@[i as int]] + rn[0]);
                assert(r.skip(1) =~= rn.skip(1));
                assert(s@.subrange(p as int, i as int + 1) =~= s@.subrange(p as int, i as int)
                    + seq![s@[i as int]]);
                assert(s@.subrange(p as int, i as int + 1) + rn[0] =~= s@.subrange(
                    p as int,
                    i as int,
                ) + r[0]);
                assert(split_dcolon(s@) =~= seq_views(done@) + seq![
                    s@.subrange(p as int, i as int + 1) + rn[0],
                ] + rn.skip(1));
            }
            i = i + 1;
        }
    }
    let last = s.substring_char(p, len).to_owned();
    let ghost done_old = done@;
    done.push(last);
    proof {
        let r = split_dcolon(s@.skip(len as int));
        assert(s@.skip(len as int) =~= Seq::<char>::empty());
        assert(r == seq![Seq::<char>::empty()]);
        assert(r[0] =~= Seq::<char>::empty());
        assert(r.skip(1) =~= Seq::<Seq<char>>::empty());
        assert(s@.subrange(p as int, len as int) + r[0] =~= s@.subrange(p as int, len as int));
        assert(seq_views(done@) =~= seq_views(done_old).push(s@.subrange(p as int, len as int)));
        assert(seq_views(done@) =~= seq_views(done_old) + seq![
            s@.subrange(p as int, len as int) + r[0],
        ] + r.skip(1));
    }
    done
}

/// The scheme named by a tag, as an executable check.
fn scheme_of_tag(tag: &str) -> (r: Option<SrcType>)
    ensures
        r == scheme_of(tag@),
{
    if str_eq(tag, "git") {
        Some(SrcType::Git)
    } else if str_eq(tag, "svn") {
        Some(SrcType::SvnSrc)
    } else if str_eq(tag, "tbl") {
        Some(SrcType::Tarball)
    } else if str_eq(tag, "bzr") {
        Some(SrcType::BzrSrc)
    } else {
        None
    }
}

/// Parse the combined `SRCS` form.
fn parse_srcs(srcurl: &str) -> (r: Option<(SrcType, String)>)
    ensures
        match r {
            Some(p) => spec_parse_srcs(srcurl@) == Some((p.0, p.1@)),
            None => spec_parse_srcs(srcurl@) is None,
        },
{
    let pieces = split_string(srcurl, ' ');
    proof {
        crate::strutil::lemma_split_char_len(srcurl@, ' ');
        lemma_seq_views_index(pieces@, 0);
    }
    let first = &pieces[0];
    let params = split_string_dcolon(first.as_str());
    proof {
        assert(first@ == split_char(srcurl@, ' ')[0]);
        assert(seq_views(params@) == split_dcolon(split_char(srcurl@, ' ')[0]));
        lemma_seq_views_len(params@);
        reveal_strlit("tbl");
        reveal_strlit("git");
        reveal_strlit("svn");
        reveal_strlit("bzr");
        if params@.len() >= 1 {
            lemma_seq_views_index(params@, 0);
        }
        if params@.len() >= 2 {
            lemma_seq_views_index(params@, 1);
        }
        if params@.len() >= 3 {
            lemma_seq_views_index(params@, 2);
        }
    }
    if params.len() == 1 {
        proof {
            assert("tbl"@[0] == 't' && "git"@[0] == 'g' && "svn"@[0] == 's');
            assert("tbl"@ != "git"@ && "tbl"@ != "svn"@);
            assert(scheme_of("tbl"@) == Some(SrcType::Tarball));
        }
        Some((SrcType::Tarball, params[0].clone()))
    } else if params.len() == 2 {
        match scheme_of_tag(params[0].as_str()) {
            Some(t) => Some((t, params[1].clone())),
            None => None,
        }
    } else if params.len() == 3 {
        match scheme_of_tag(params[0].as_str()) {
            Some(t) => Some((t, params[2].clone())),
            None => None,
        }
    } else {
        None
    }
}

impl Src {
    /// Parse the declared source-type tag and raw value.
    pub fn parse(srctype: &str, srcurl: &str) -> (r: Option<Src>)
        ensures
            match r {
                Some(src) => spec_parse_src(srctype@, srcurl@) == Some(
                    (src.srctype, src.srcurl@),
                ),
                None => spec_parse_src(srctype@, srcurl@) is None,
            },
    {
        let parsed: Option<(SrcType, String)> = if str_eq(srctype, "SRCS") {
            parse_srcs(srcurl)
        } else if str_eq(srctype, "SRCTBL") {
            Some((SrcType::Tarball, srcurl.to_owned()))
        } else if str_eq(srctype, "GITSRC") {
            Some((SrcType::Git, srcurl.to_owned()))
        } else if str_eq(srctype, "SVNSRC") {
            Some((SrcType::SvnSrc, srcurl.to_owned()))
        } else if str_eq(srctype, "BZRSRC") {
            Some((SrcType::BzrSrc, srcurl.to_owned()))
        } else {
            None
        };
        proof {
            assert(match parsed {
                Some(p) => spec_parse_src_raw(srctype@, srcurl@) == Some((p.0, p.1@)),
                None => spec_parse_src_raw(srctype@, srcurl@) is None,
            });
        }
        match parsed {
            Some(p) => {
                if !p.1.as_str().is_empty() {
                    Some(Src { srctype: p.0, srcurl: p.1 })
                } else {
                    None
                }
            },
            None => None,
        }
    }
}


/// `p` begins `s`.
pub open spec fn spec_starts_with(s: Seq<char>, p: Seq<char>) -> bool {
    s.len() >= p.len() && s.take(p.len() as int) == p
}

/// Whether `s` begins with `p`.
pub fn str_starts_with(s: &str, p: &str) -> (r: bool)
    ensures
        r == spec_starts_with(s@, p@),
{
    let slen = s.unicode_len();
    let plen = p.unicode_len();
    if slen < plen {
        return false;
    }
    let head = s.substring_char(0, plen);
    proof {
        assert(head@ =~= s@.take(p@.len() as int));
    }
    str_eq(head, p)
}

/// Index of the last `c` in `s`, or -1.
pub open spec fn last_char_index(s: Seq<char>, c: char) -> int
    decreases s.len(),
{
    if s.len() == 0 {
        -1
    } else if s.last() == c {
        s.len() - 1
    } else {
        last_char_index(s.drop_last(), c)
    }
}

proof fn lemma_last_char_index(s: Seq<char>, c: char)
    ensures
        last_char_index(s, c) >= 0 ==> 0 <= last_char_index(s, c) < s.len() && s[last_char_index(
            s,
            c,
        )] == c && (forall|j: int| last_char_index(s, c) < j < s.len() ==> s[j] != c),
        last_char_index(s, c) < 0 ==> forall|j: int| 0 <= j < s.len() ==> s[j] != c,
    decreases s.len(),
{
    if s.len() != 0 {
        lemma_last_char_index(s.drop_last(), c);
        assert(s[s.len() - 1] == s.last());
        if s.last() != c {
            let idx = last_char_index(s, c);
            if idx >= 0 {
                assert(s.drop_last()[idx] == s[idx]);
                assert forall|j: int| idx < j < s.len() implies s[j] != c by {
                    if j < s.len() - 1 {
                        assert(s.drop_last()[j] == s[j]);
                    }
                }
            }
            if idx < 0 {
                assert forall|j: int| 0 <= j < s.len() implies s[j] != c by {
                    if j < s.len() - 1 {
                        assert(s.drop_last()[j] == s[j]);
                    }
                }
            }
        }
    }
}

/// The last `c` of a string slice, if any.
fn find_last_char(s: &str, c: char) -> (r: Option<usize>)
    ensures
        match r {
            Some(i) => i as int == last_char_index(s@, c),
            None => last_char_index(s@, c) < 0,
        },
{
    let len = s.unicode_len();
    let mut best: Option<usize> = None;
    let mut i: usize = 0;
    while i < len
        invariant
            i <= len,
            len == s@.len(),
            match best {
                Some(b) => b < i && s@[b as int] == c && (forall|j: int|
                    b < j < i ==> s@[j] != c),
                None => forall|j: int| 0 <= j < i ==> s@[j] != c,
            },
        decreases len - i,
    {
        if s.get_char(i) == c {
            best = Some(i);
        }
        i = i + 1;
    }
    proof {
        lemma_last_char_index(s@, c);
    }
    best
}

/// A known code-hosting site, linked by its first five path pieces.
pub open spec fn is_srchost(url: Seq<char>) -> bool {
    spec_starts_with(url, "https://github.com"@) || spec_starts_with(
        url,
        "https://bitbucket.org"@,
    ) || spec_starts_with(url, "https://gitlab.com"@)
}

/// A package-index URL.
pub open spec fn is_pypi(url: Seq<char>) -> bool {
    spec_starts_with(url, "http://pypi.python.org"@) || spec_starts_with(
        url,
        "https://pypi.python.org"@,
    ) || spec_starts_with(url, "http://pypi.io"@) || spec_starts_with(url, "https://pypi.io"@)
}

/// A package-index source-tarball URL.
pub open spec fn is_pypi_src(url: Seq<char>) -> bool {
    spec_starts_with(url, "http://pypi.python.org/packages/source/"@) || spec_starts_with(
        url,
        "https://pypi.python.org/packages/source/"@,
    ) || spec_starts_with(url, "http://pypi.io/packages/source/"@) || spec_starts_with(
        url,
        "https://pypi.io/packages/source/"@,
    )
}

/// Pieces joined by `/` between them.
pub open spec fn join_slash(pieces: Seq<Seq<char>>) -> Seq<char>
    decreases pieces.len(),
{
    if pieces.len() == 0 {
        Seq::empty()
    } else if pieces.len() == 1 {
        pieces[0]
    } else {
        pieces[0] + seq!['/'] + join_slash(pieces.skip(1))
    }
}

proof fn lemma_join_slash_step(pieces: Seq<Seq<char>>, i: int)
    requires
        0 <= i < pieces.len(),
    ensures
        join_slash(pieces.take(i + 1)) == (if i == 0 {
            pieces[0]
        } else {
            join_slash(pieces.take(i)) + seq!['/'] + pieces[i]
        }),
    decreases i,
{
    if i == 0 {
        assert(pieces.take(1)[0] == pieces[0]);
    } else {
        lemma_join_slash_step(pieces.skip(1), i - 1);
        assert(pieces.take(i + 1)[0] == pieces[0]);
        assert(pieces.take(i + 1).skip(1) =~= pieces.skip(1).take(i));
        assert(pieces.take(i)[0] == pieces[0]);
        assert(pieces.take(i).skip(1) =~= pieces.skip(1).take(i - 1));
        assert(pieces.skip(1)[i - 1] == pieces[i]);
        if i == 1 {
            assert(join_slash(pieces.skip(1).take(1)) == pieces[1]);
            assert(join_slash(pieces.take(1)) == pieces[0]);
        } else {
            assert(pieces[0] + seq!['/'] + (join_slash(pieces.skip(1).take(i - 1)) + seq!['/']
                + pieces.skip(1)[i - 1]) =~= (pieces[0] + seq!['/'] + join_slash(
                pieces.skip(1).take(i - 1),
            )) + seq!['/'] + pieces[i]);
        }
    }
}

/// Join the first `n` strings with `/` between them.
fn join_slash_prefix(pieces: &Vec<String>, n: usize) -> (r: String)
    requires
        n <= pieces@.len(),
    ensures
        r@ == join_slash(seq_views(pieces@).take(n as int)),
{
    let mut r = String::new();
    let mut i: usize = 0;
    proof {
        lemma_seq_views_len(pieces@);
        assert(r@ =~= join_slash(seq_views(pieces@).take(0)));
    }
    while i < n
        invariant
            i <= n <= pieces@.len(),
            r@ == join_slash(seq_views(pieces@).take(i as int)),
        decreases n - i,
    {
        proof {
            lemma_seq_views_index(pieces@, i as int);
            lemma_seq_views_len(pieces@);
            lemma_join_slash_step(seq_views(pieces@), i as int);
            assert(seq_views(pieces@).take(n as int).take(i as int + 1) =~= seq_views(
                pieces@,
            ).take(i as int + 1));
        }
        if i > 0 {
            r.append("/");
            proof {
                reveal_strlit("/");
                assert("/"@ =~= seq!['/']);
            }
        }
        r.append(pieces[i].as_str());
        proof {
            assert(r@ =~= join_slash(seq_views(pieces@).take(i as int + 1)));
        }
        i = i + 1;
    }
    r
}

/// The base link guessed from an upstream URL: the project page of a known
/// code host, the index page of a package-index URL, else what the source
/// kind suggests — the part before the first slash for a tarball, a
/// `git://` URL rewritten to `http://`, nothing otherwise.
pub open spec fn spec_srcurl_base(url: Seq<char>, ty: SrcType) -> Seq<char> {
    if is_srchost(url) {
        let pieces = split_char(url, '/');
        let n = if pieces.len() <= 5 {
            pieces.len() as int
        } else {
            5
        };
        join_slash(pieces.take(n))
    } else if is_pypi(url) {
        let pieces = split_char(url, '/');
        if is_pypi_src(url) {
            if pieces.len() >= 3 {
                "https://pypi.python.org/pypi/"@ + pieces[pieces.len() - 3] + "/"@
            } else {
                Seq::empty()
            }
        } else {
            if pieces.len() >= 2 && last_char_index(pieces[pieces.len() - 2], '-') >= 0 {
                "https://pypi.python.org/pypi/"@ + pieces[pieces.len() - 2].take(
                    last_char_index(pieces[pieces.len() - 2], '-'),
                ) + "/"@
            } else {
                Seq::empty()
            }
        }
    } else if ty is Tarball {
        let cut = crate::textfmt::first_index_of(url, '/');
        if cut >= 0 {
            url.take(cut)
        } else {
            Seq::empty()
        }
    } else if ty is Git {
        if spec_starts_with(url, "git://"@) {
            "http://"@ + url.skip(6)
        } else {
            url
        }
    } else {
        Seq::empty()
    }
}

/// Guess the upstream base link of a parsed source URL.
pub fn srcurl_base(url: &str, ty: SrcType) -> (r: String)
    ensures
        r@ == spec_srcurl_base(url@, ty),
{
    let srchost = str_starts_with(url, "https://github.com") || str_starts_with(
        url,
        "https://bitbucket.org",
    ) || str_starts_with(url, "https://gitlab.com");
    if srchost {
        let pieces = split_string(url, '/');
        proof {
            lemma_seq_views_len(pieces@);
        }
        let n = if pieces.len() <= 5 {
            pieces.len()
        } else {
            5
        };
        return join_slash_prefix(&pieces, n);
    }
    let pypi = str_starts_with(url, "http://pypi.python.org") || str_starts_with(
        url,
        "https://pypi.python.org",
    ) || str_starts_with(url, "http://pypi.io") || str_starts_with(url, "https://pypi.io");
    if pypi {
        let pypisrc = str_starts_with(url, "http://pypi.python.org/packages/source/")
            || str_starts_with(url, "https://pypi.python.org/packages/source/")
            || str_starts_with(url, "http://pypi.io/packages/source/") || str_starts_with(
            url,
            "https://pypi.io/packages/source/",
        );
        let pieces = split_string(url, '/');
        proof {
            lemma_seq_views_len(pieces@);
        }
        if pypisrc {
            if pieces.len() >= 3 {
                proof {
                    lemma_seq_views_index(pieces@, pieces@.len() - 3);
                }
                let mut out = String::from_str("https://pypi.python.org/pypi/");
                out.append(pieces[pieces.len() - 3].as_str());
                out.append("/");
                return out;
            }
            return String::new();
        }
        if pieces.len() >= 2 {
            proof {
                lemma_seq_views_index(pieces@, pieces@.len() - 2);
            }
            let name = &pieces[pieces.len() - 2];
            match find_last_char(name.as_str(), '-') {
                Some(cut) => {
                    proof {
                        lemma_last_char_index(name@, '-');
                    }
                    let stem = name.as_str().substring_char(0, cut);
                    proof {
                        assert(stem@ =~= name@.take(last_char_index(name@, '-')));
                    }
                    let mut out = String::from_str("https://pypi.python.org/pypi/");
                    out.append(stem);
                    out.append("/");
                    return out;
                },
                None => {
                    return String::new();
                },
            }
        }
        return String::new();
    }
    match ty {
        SrcType::Tarball => {
            let len = url.unicode_len();
            let mut i: usize = 0;
            proof {
                crate::textfmt::lemma_first_index_of(url@, '/');
            }
            while i < len
                invariant
                    i <= len,
                    len == url@.len(),
                    !is_srchost(url@),
                    !is_pypi(url@),
                    ty is Tarball,
                    forall|j: int| 0 <= j < i ==> url@[j] != '/',
                decreases len - i,
            {
                if url.get_char(i) == '/' {
                    proof {
                        crate::textfmt::lemma_first_index_of(url@, '/');
                        assert(crate::textfmt::first_index_of(url@, '/') == i as int);
                    }
                    let head = url.substring_char(0, i);
                    proof {
                        assert(head@ =~= url@.take(i as int));
                    }
                    return head.to_owned();
                }
                i = i + 1;
            }
            proof {
                crate::textfmt::lemma_first_index_of(url@, '/');
                if crate::textfmt::first_index_of(url@, '/') >= 0 {
                    assert(url@[crate::textfmt::first_index_of(url@, '/')] == '/');
                }
            }
            String::new()
        },
        SrcType::Git => {
            if str_starts_with(url, "git://") {
                proof {
                    reveal_strlit("git://");
                }
                let rest = url.substring_char(6, url.unicode_len());
                proof {
                    assert(rest@ =~= url@.skip(6));
                }
                let mut out = String::from_str("http://");
                out.append(rest);
                out
            } else {
                url.to_owned()
            }
        },
        _ => String::new(),
    }
}


/// The upstream description a package page shows: the guessed base link,
/// the source URL, and the kind's label — all empty when the declared
/// source does not parse.
pub fn describe_src(srctype: &str, srcurl: &str) -> (r: (String, String, String))
    ensures
        match spec_parse_src(srctype@, srcurl@) {
            Some(p) => {
                &&& r.0@ == spec_srcurl_base(p.1, p.0)
                &&& r.1@ == p.1
                &&& (p.0 is Git ==> r.2@ == "git"@)
                &&& (p.0 is Tarball ==> r.2@ == "tarball"@)
                &&& (p.0 is SvnSrc ==> r.2@ == "Subversion"@)
                &&& (p.0 is BzrSrc ==> r.2@ == "Bazaar"@)
            },
            None => r.0@.len() == 0 && r.1@.len() == 0 && r.2@.len() == 0,
        },
{
    match Src::parse(srctype, srcurl) {
        Some(src) => {
            let base = srcurl_base(src.srcurl.as_str(), src.srctype);
            let label = src.srctype.label().to_owned();
            (base, src.srcurl, label)
        },
        None => (String::new(), String::new(), String::new()),
    }
}

} // verus!
