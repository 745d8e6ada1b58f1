//! Small formatting helpers for the presentation layer: status labels,
//! issue-code descriptions, text trimming, and the `ls`-style permission
//! string.

use vstd::prelude::*;
use vstd::string::StringSliceAdditionalSpecFns;

verus! {

/// Label of a version comparison: how the packaged version relates to the
/// declared one.
pub fn ver_rel(ver_compare: i64) -> (r: &'static str)
    ensures
        ver_compare == -2 ==> r@ == "deprecated"@,
        ver_compare == -1 ==> r@ == "old"@,
        ver_compare == 0 ==> r@ == "same"@,
        ver_compare == 1 ==> r@ == "new"@,
        !(-2 <= ver_compare <= 1) ==> r@ == "unknown"@,
{
    if ver_compare == -2 {
        "deprecated"
    } else if ver_compare == -1 {
        "old"
    } else if ver_compare == 0 {
        "same"
    } else if ver_compare == 1 {
        "new"
    } else {
        "unknown"
    }
}

/// `ver_rel`, as the templates call it.
pub fn fmt_ver_compare(ver_compare: &i32) -> (r: &'static str)
    ensures
        *ver_compare == -2 ==> r@ == "deprecated"@,
        *ver_compare == -1 ==> r@ == "old"@,
        *ver_compare == 0 ==> r@ == "same"@,
        *ver_compare == 1 ==> r@ == "new"@,
        !(-2 <= *ver_compare <= 1) ==> r@ == "unknown"@,
{
    ver_rel(*ver_compare as i64)
}

/// Label of a package's build status.
pub fn fmt_pkg_status(status: &i32) -> (r: &'static str)
    ensures
        *status == 0 ==> r@ == "normal"@,
        *status == 1 ==> r@ == "error"@,
        *status == 2 ==> r@ == "testing"@,
        !(0 <= *status <= 2) ==> r@ == "unknown"@,
{
    if *status == 0 {
        "normal"
    } else if *status == 1 {
        "error"
    } else if *status == 2 {
        "testing"
    } else {
        "unknown"
    }
}

/// `s`, or `default` when `s` is empty.
pub fn d<'a>(s: &'a str, default: &'a str, _newline: bool) -> (r: &'a str)
    ensures
        s@.len() > 0 ==> r@ == s@,
        s@.len() == 0 ==> r@ == default@,
{
    if !s.is_empty() {
        s
    } else {
        default
    }
}

/// Keep at most `len` bytes of `s`. The cut must fall on a character
/// boundary, as a byte-indexed slice demands.
pub fn cut<'a>(s: &'a str, len: usize) -> (r: &'a str)
    requires
        s.spec_bytes().len() <= usize::MAX,
        len < s.spec_bytes().len() ==> vstd::utf8::is_char_boundary(s.spec_bytes(), len as int),
    ensures
        s.spec_bytes().len() <= len ==> r@ == s@,
        s.spec_bytes().len() > len ==> r.spec_bytes() == s.spec_bytes().take(len as int),
{
    if s.len() <= len {
        s
    } else {
        let (head, _) = s.split_at(len);
        proof {
            assert(head.spec_bytes() =~= s.spec_bytes().take(len as int));
        }
        head
    }
}

/// Position of the first occurrence of `c` in `s`, or -1.
pub open spec fn first_index_of(s: Seq<char>, c: char) -> int
    decreases s.len(),
{
    if s.len() == 0 {
        -1
    } else if s[0] == c {
        0
    } else {
        let r = first_index_of(s.skip(1), c);
        if r < 0 {
            -1
        } else {
            r + 1
        }
    }
}

pub proof fn lemma_first_index_of(s: Seq<char>, c: char)
    ensures
        first_index_of(s, c) >= 0 ==> 0 <= first_index_of(s, c) < s.len() && s[first_index_of(
            s,
            c,
        )] == c && (forall|j: int| 0 <= j < first_index_of(s, c) ==> s[j] != c),
        first_index_of(s, c) < 0 ==> forall|j: int| 0 <= j < s.len() ==> s[j] != c,
    decreases s.len(),
{
    if s.len() != 0 && s[0] != c {
        lemma_first_index_of(s.skip(1), c);
        let sub = first_index_of(s.skip(1), c);
        if sub >= 0 {
            assert(s.skip(1)[sub] == s[sub + 1]);
            assert forall|j: int| 0 <= j < first_index_of(s, c) implies s[j] != c by {
                if j >= 1 {
                    assert(s.skip(1)[j - 1] == s[j]);
                }
            }
        } else {
            assert forall|j: int| 0 <= j < s.len() implies s[j] != c by {
                if j >= 1 {
                    assert(s.skip(1)[j - 1] == s[j]);
                }
            }
        }
    }
}

/// The first line of `s`: up to the first line feed, with a carriage
/// return before that line feed dropped.
pub open spec fn spec_first_line(s: Seq<char>) -> Seq<char> {
    let i = first_index_of(s, '\n');
    if i < 0 {
        s
    } else {
        let line = s.take(i);
        if line.len() > 0 && line.last() == '\r' {
            line.drop_last()
        } else {
            line
        }
    }
}

/// The first line of `s`; an empty string has an empty first line.
pub fn get_first_line(s: &str) -> (r: &str)
    ensures
        r@ == spec_first_line(s@),
{
    let len = s.unicode_len();
    let mut i: usize = 0;
    proof {
        lemma_first_index_of(s@, '\n');
    }
    while i < len
        invariant
            i <= len,
            len == s@.len(),
            forall|j: int| 0 <= j < i ==> s@[j] != '\n',
        decreases len - i,
    {
        if s.get_char(i) == '\n' {
            proof {
                let fi = first_index_of(s@, '\n');
                lemma_first_index_of(s@, '\n');
                assert(fi == i as int);
            }
            let line = if i > 0 && s.get_char(i - 1) == '\r' {
                let r = s.substring_char(0, i - 1);
                proof {
                    assert(s@.take(i as int).last() == '\r');
                    assert(r@ =~= s@.take(i as int).drop_last());
                }
                r
            } else {
                let r = s.substring_char(0, i);
                proof {
                    assert(r@ =~= s@.take(i as int));
                    if i > 0 {
                        assert(s@.take(i as int).last() == s@[i as int - 1]);
                    }
                }
                r
            };
            return line;
        }
        i = i + 1;
    }
    proof {
        let fi = first_index_of(s@, '\n');
        lemma_first_index_of(s@, '\n');
        if fi >= 0 {
            assert(s@[fi] == '\n');
        }
    }
    s
}

/// The path with its leading slash removed; a path without one is refused.
pub fn strip_prefix(s: &str) -> (r: Option<&str>)
    ensures
        match r {
            Some(t) => s@.len() > 0 && s@[0] == '/' && t@ == s@.skip(1),
            None => s@.len() == 0 || s@[0] != '/',
        },
{
    let len = s.unicode_len();
    if len > 0 && s.get_char(0) == '/' {
        let rest = s.substring_char(1, len);
        proof {
            assert(rest@ =~= s@.skip(1));
        }
        Some(rest)
    } else {
        None
    }
}

/// The binary digits of `n`, most significant first, no leading zeros.
pub open spec fn bin_digits(n: u32) -> Seq<char>
    decreases n,
{
    if n < 2 {
        seq![if n == 0 {
            '0'
        } else {
            '1'
        }]
    } else {
        bin_digits(n / 2).push(
            if n % 2 == 0 {
                '0'
            } else {
                '1'
            },
        )
    }
}

/// The permission letter at position `i` of the `rwxrwxrwx` ruler.
pub open spec fn rwx_at(i: int) -> char {
    if i % 3 == 0 {
        'r'
    } else if i % 3 == 1 {
        'w'
    } else {
        'x'
    }
}

/// The file-type letter of an `ls`-style listing.
pub open spec fn ftype_char(ftype: int) -> char {
    if ftype == 1 {
        'l'
    } else if ftype == 3 {
        'c'
    } else if ftype == 4 {
        'b'
    } else if ftype == 5 {
        'd'
    } else if ftype == 6 {
        'p'
    } else {
        '-'
    }
}

/// The whole permission string: the type letter, then the binary digits of
/// the mode paired with the `rwxrwxrwx` ruler, a letter per set bit.
pub open spec fn spec_ls_perm(ftype: int, perm: u32) -> Seq<char> {
    let bits = bin_digits(perm);
    let n = if bits.len() <= 9 {
        bits.len() as int
    } else {
        9
    };
    seq![ftype_char(ftype)] + Seq::new(
        n as nat,
        |i: int| if bits[i] == '1' {
            rwx_at(i)
        } else {
            '-'
        },
    )
}

/// Append the binary digits of `n`.
fn push_bin(out: &mut String, n: u32)
    ensures
        final(out)@ == old(out)@ + bin_digits(n),
    decreases n,
{
    if n < 2 {
        if n == 0 {
            out.append("0");
            proof {
                assert(old(out)@ + bin_digits(n) =~= old(out)@ + "0"@) by {
                    reveal_strlit("0");
                }
            }
        } else {
            out.append("1");
            proof {
                assert(old(out)@ + bin_digits(n) =~= old(out)@ + "1"@) by {
                    reveal_strlit("1");
                }
            }
        }
    } else {
        push_bin(out, n / 2);
        if n % 2 == 0 {
            out.append("0");
            proof {
                reveal_strlit("0");
                assert(final(out)@ =~= old(out)@ + bin_digits(n));
            }
        } else {
            out.append("1");
            proof {
                reveal_strlit("1");
                assert(final(out)@ =~= old(out)@ + bin_digits(n));
            }
        }
    }
}

/// The `ls`-style mode column for a file entry.
pub fn ls_perm(perm: &i32, ftype: &i16) -> (r: String)
    ensures
        r@ == spec_ls_perm(*ftype as int, *perm as u32),
{
    let mut r = String::new();
    match *ftype {
        1i16 => {
            r.append("l");
            proof {
                reveal_strlit("l");
            }
        },
        3i16 => {
            r.append("c");
            proof {
                reveal_strlit("c");
            }
        },
        4i16 => {
            r.append("b");
            proof {
                reveal_strlit("b");
            }
        },
        5i16 => {
            r.append("d");
            proof {
                reveal_strlit("d");
            }
        },
        6i16 => {
            r.append("p");
            proof {
                reveal_strlit("p");
            }
        },
        _ => {
            r.append("-");
            proof {
                reveal_strlit("-");
            }
        },
    }
    proof {
        assert(r@ =~= seq![ftype_char(*ftype as int)]);
    }
    let ghost head = r@;
    let mut bits = String::new();
    #[verifier::truncate]
    let pu = *perm as u32;
    push_bin(&mut bits, pu);
    let ghost bs = bin_digits(pu);
    let blen = bits.as_str().unicode_len();
    let n: usize = if blen <= 9 {
        blen
    } else {
        9
    };
    let mut i: usize = 0;
    proof {
        assert(r@ =~= head + Seq::new(0, |t: int| if bs[t] == '1' {
            rwx_at(t)
        } else {
            '-'
        }));
    }
    while i < n
        invariant
            i <= n,
            n <= bs.len(),
            bs == bin_digits(pu),
            n as int == (if bs.len() <= 9 {
                bs.len() as int
            } else {
                9
            }),
            bits@ == bs,
            head == seq![ftype_char(*ftype as int)],
            r@ == head + Seq::new(i as nat, |t: int| if bs[t] == '1' {
                rwx_at(t)
            } else {
                '-'
            }),
        decreases n - i,
    {
        let c = bits.as_str().get_char(i);
        let bit_set = c == '1';
        let m = i % 3;
        if bit_set {
            if m == 0 {
                r.append("r");
                proof {
                    reveal_strlit("r");
                }
            } else if m == 1 {
                r.append("w");
                proof {
                    reveal_strlit("w");
                }
            } else {
                r.append("x");
                proof {
                    reveal_strlit("x");
                }
            }
        } else {
            r.append("-");
            proof {
                reveal_strlit("-");
            }
        }
        proof {
            assert(r@ =~= head + Seq::new((i + 1) as nat, |t: int| if bs[t] == '1' {
                rwx_at(t)
            } else {
                '-'
            }));
        }
        i = i + 1;
    }
    proof {
        assert(r@ =~= spec_ls_perm(*ftype as int, pu));
    }
    r
}


/// The description of a QA issue code, for the codes the catalog knows.
pub open spec fn issue_description(code: int) -> Option<Seq<char>> {
    if code == 100 {
        Some("Metadata"@)
    } else if code == 101 {
        Some("Syntax error(s) in spec"@)
    } else if code == 102 {
        Some("Syntax error(s) in defines"@)
    } else if code == 103 {
        Some("Package name is not valid"@)
    } else if code == 111 {
        Some("Package may be out-dated"@)
    } else if code == 112 {
        Some("SRCTBL uses HTTP"@)
    } else if code == 121 {
        Some("The last commit message was badly formatted"@)
    } else if code == 122 {
        Some("Multiple packages changed in the last commit"@)
    } else if code == 123 {
        Some("Force-pushed recently (last N commit - TBD)"@)
    } else if code == 200 {
        Some("Build Process"@)
    } else if code == 201 {
        Some("Failed to get source"@)
    } else if code == 202 {
        Some("Failed to get dependencies"@)
    } else if code == 211 {
        Some("Failed to build from source (FTBFS)"@)
    } else if code == 221 {
        Some("Failed to launch packaged executable(s)"@)
    } else if code == 222 {
        Some("Feature(s) non-functional, or unit test(s) failed"@)
    } else if code == 300 {
        Some("Payload (.deb Package)"@)
    } else if code == 301 {
        Some("Bad or corrupted .deb file"@)
    } else if code == 302 {
        Some(".deb file too small"@)
    } else if code == 303 {
        Some("Bad .deb filename or storage path"@)
    } else if code == 311 {
        Some("Bad .deb Maintainer metadata"@)
    } else if code == 321 {
        Some("File(s) stored in unexpected path(s) in .deb"@)
    } else if code == 322 {
        Some("Zero-byte file(s) found in .deb"@)
    } else if code == 323 {
        Some("File(s) with bad owner/group found in .deb"@)
    } else if code == 324 {
        Some("File(s) with bad permission found in .deb"@)
    } else if code == 400 {
        Some("Dependencies"@)
    } else if code == 401 {
        Some("BUILDDEP unmet"@)
    } else if code == 402 {
        Some("Duplicate package in tree"@)
    } else if code == 411 {
        Some("PKGDEP unmet"@)
    } else if code == 412 {
        Some("Duplicate package in repository"@)
    } else if code == 421 {
        Some("File collision(s)"@)
    } else if code == 431 {
        Some("Library version (sover) dependency unmet"@)
    } else if code == 432 {
        Some("Library dependency without PKGDEP"@)
    } else {
        None
    }
}

/// The human-readable description of a QA issue code; an unknown code has
/// none.
pub fn issue_code(code: i32) -> (r: Option<&'static str>)
    ensures
        match r {
            Some(t) => issue_description(code as int) == Some(t@),
            None => issue_description(code as int) is None,
        },
{
    if code == 100 {
        Some("Metadata")
    } else if code == 101 {
        Some("Syntax error(s) in spec")
    } else if code == 102 {
        Some("Syntax error(s) in defines")
    } else if code == 103 {
        Some("Package name is not valid")
    } else if code == 111 {
        Some("Package may be out-dated")
    } else if code == 112 {
        Some("SRCTBL uses HTTP")
    } else if code == 121 {
        Some("The last commit message was badly formatted")
    } else if code == 122 {
        Some("Multiple packages changed in the last commit")
    } else if code == 123 {
        Some("Force-pushed recently (last N commit - TBD)")
    } else if code == 200 {
        Some("Build Process")
    } else if code == 201 {
        Some("Failed to get source")
    } else if code == 202 {
        Some("Failed to get dependencies")
    } else if code == 211 {
        Some("Failed to build from source (FTBFS)")
    } else if code == 221 {
        Some("Failed to launch packaged executable(s)")
    } else if code == 222 {
        Some("Feature(s) non-functional, or unit test(s) failed")
    } else if code == 300 {
        Some("Payload (.deb Package)")
    } else if code == 301 {
        Some("Bad or corrupted .deb file")
    } else if code == 302 {
        Some(".deb file too small")
    } else if code == 303 {
        Some("Bad .deb filename or storage path")
    } else if code == 311 {
        Some("Bad .deb Maintainer metadata")
    } else if code == 321 {
        Some("File(s) stored in unexpected path(s) in .deb")
    } else if code == 322 {
        Some("Zero-byte file(s) found in .deb")
    } else if code == 323 {
        Some("File(s) with bad owner/group found in .deb")
    } else if code == 324 {
        Some("File(s) with bad permission found in .deb")
    } else if code == 400 {
        Some("Dependencies")
    } else if code == 401 {
        Some("BUILDDEP unmet")
    } else if code == 402 {
        Some("Duplicate package in tree")
    } else if code == 411 {
        Some("PKGDEP unmet")
    } else if code == 412 {
        Some("Duplicate package in repository")
    } else if code == 421 {
        Some("File collision(s)")
    } else if code == 431 {
        Some("Library version (sover) dependency unmet")
    } else if code == 432 {
        Some("Library dependency without PKGDEP")
    } else {
        None
    }
}

} // verus!
