//! The request's query parameters, as the views read them.

use crate::strutil::str_eq;
use vstd::prelude::*;

verus! {

/// A digit's value, or -1.
pub open spec fn digit_val(c: char) -> int {
    if '0' <= c <= '9' {
        c as int - '0' as int
    } else {
        -1
    }
}

/// The number a digit string denotes, read left to right.
pub open spec fn digits_value(s: Seq<char>) -> int
    decreases s.len(),
{
    if s.len() == 0 {
        0
    } else {
        digits_value(s.drop_last()) * 10 + digit_val(s.last())
    }
}

pub open spec fn all_digits(s: Seq<char>) -> bool {
    forall|i: int| 0 <= i < s.len() ==> digit_val(#[trigger] s[i]) >= 0
}

/// What `str::parse::<u32>` accepts: an optional leading plus sign, then
/// one or more digits, denoting a value that fits.
pub open spec fn spec_parse_u32(s: Seq<char>) -> Option<u32> {
    let body = if s.len() > 0 && s[0] == '+' {
        s.skip(1)
    } else {
        s
    };
    if body.len() > 0 && all_digits(body) && digits_value(body) <= u32::MAX {
        Some(digits_value(body) as u32)
    } else {
        None
    }
}

/// Parse an unsigned page number, as `str::parse::<u32>` would.
fn parse_u32(s: &str) -> (r: Option<u32>)
    ensures
        r == spec_parse_u32(s@),
{
    let len = s.unicode_len();
    let mut i: usize = 0;
    if len > 0 && s.get_char(0) == '+' {
        i = 1;
    }
    let ghost body = if s@.len() > 0 && s@[0] == '+' {
        s@.skip(1)
    } else {
        s@
    };
    if i >= len {
        // nothing after the sign
        assert(body.len() == 0);
        return None;
    }
    let ghost start = i as int;
    let mut value: u32 = 0;
    proof {
        assert(body =~= s@.skip(start));
        assert(body.take(0) =~= Seq::<char>::empty());
    }
    while i < len
        invariant
            start <= i <= len,
            start == 0 || start == 1,
            len == s@.len(),
            body == s@.skip(start),
            body == (if s@.len() > 0 && s@[0] == '+' {
                s@.skip(1)
            } else {
                s@
            }),
            all_digits(body.take(i - start)),
            value == digits_value(body.take(i - start)),
        decreases len - i,
    {
        let c = s.get_char(i);
        proof {
            assert(body[i - start] == s@[i as int]);
        }
        if c < '0' || c > '9' {
            proof {
                let ghost j = i - start;
                assert(digit_val(body[j]) < 0);
                assert(!all_digits(body));
            }
            return None;
        }
        let d = (c as u32) - 48;
        proof {
            assert(digit_val(s@[i as int]) == d as int);
        }
        if value > (u32::MAX - d) / 10 {
            // the number no longer fits; everything ahead only widens it
            proof {
                assert(body.take(i - start + 1).drop_last() =~= body.take(i - start));
                assert(body.take(i - start + 1).last() == body[i - start]);
                assert(digits_value(body.take(i - start + 1)) == value * 10 + d);
                assert(value * 10 + d > u32::MAX) by {
                    assert(value >= (u32::MAX - d) / 10 + 1);
                    assert(((u32::MAX - d) / 10 + 1) * 10 + d > u32::MAX) by (nonlinear_arith);
                    assert(value * 10 >= ((u32::MAX - d) / 10 + 1) * 10) by (nonlinear_arith)
                        requires
                            value >= (u32::MAX - d) / 10 + 1,
                    ;
                }
                if all_digits(body) {
                    lemma_digits_value_grows(body, i - start + 1);
                    assert(digits_value(body) >= digits_value(body.take(i - start + 1)));
                    assert(digits_value(body) > u32::MAX);
                }
            }
            return None;
        }
        value = value * 10 + d;
        proof {
            assert(body.take(i - start + 1).drop_last() =~= body.take(i - start));
            assert(body.take(i - start + 1).last() == body[i - start]);
        }
        i = i + 1;
    }
    proof {
        assert(body.take(len - start) =~= body);
        assert(body.len() > 0);
        assert(all_digits(body));
        assert(digits_value(body) == value);
    }
    Some(value)
}

/// A prefix of a digit string never denotes more than the whole.
proof fn lemma_digits_value_grows(s: Seq<char>, n: int)
    requires
        0 <= n <= s.len(),
        all_digits(s),
    ensures
        digits_value(s) >= digits_value(s.take(n)),
        digits_value(s.take(n)) >= 0,
    decreases s.len() - n,
{
    if n == s.len() {
        assert(s.take(n) =~= s);
        lemma_digits_value_nonneg(s);
    } else {
        lemma_digits_value_grows(s, n + 1);
        lemma_digits_value_nonneg(s.take(n));
        assert(s.take(n + 1).drop_last() =~= s.take(n));
        assert(s.take(n + 1).last() == s[n]);
        assert(digit_val(s[n]) >= 0);
        assert(digits_value(s.take(n + 1)) == digits_value(s.take(n)) * 10 + digit_val(s[n]));
        assert(digits_value(s.take(n)) * 10 >= digits_value(s.take(n))) by (nonlinear_arith)
            requires
                digits_value(s.take(n)) >= 0,
        ;
    }
}

proof fn lemma_digits_value_nonneg(s: Seq<char>)
    requires
        all_digits(s),
    ensures
        digits_value(s) >= 0,
    decreases s.len(),
{
    if s.len() != 0 {
        assert(forall|i: int| 0 <= i < s.drop_last().len() ==> s.drop_last()[i] == s[i]);
        lemma_digits_value_nonneg(s.drop_last());
        assert(digit_val(s.last()) >= 0) by {
            assert(s[s.len() - 1] == s.last());
        }
        assert(digits_value(s.drop_last()) * 10 >= 0) by (nonlinear_arith)
            requires
                digits_value(s.drop_last()) >= 0,
        ;
    }
}

/// The query parameters a request may carry.
#[derive(Debug)]
pub struct QueryExtractor {
    pub page: Option<String>,
    pub q: Option<String>,
    pub noredir: Option<bool>,
    pub reason: Option<String>,
    pub type_: Option<String>,
}

impl Default for QueryExtractor {
    /// A request without parameters.
    fn default() -> (r: QueryExtractor)
        ensures
            r.page is None && r.q is None && r.noredir is None && r.reason is None && r.type_
                is None,
    {
        QueryExtractor { page: None, q: None, noredir: None, reason: None, type_: None }
    }
}

impl QueryExtractor {
    /// The requested response format, if any.
    pub fn get_type(&self) -> (r: Option<&str>)
        ensures
            match r {
                Some(t) => self.type_ is Some && t@ == self.type_.unwrap()@,
                None => self.type_ is None,
            },
    {
        match &self.type_ {
            Some(t) => Some(t.as_str()),
            None => None,
        }
    }

    /// The requested page: the first page when absent, every row at once
    /// when `all`, else the given number (a bad number means the first
    /// page).
    pub fn get_page(&self) -> (r: Option<u32>)
        ensures
            match self.page {
                None => r == Some(1u32),
                Some(p) => if p@ == "all"@ {
                    r is None
                } else {
                    r == Some(
                        match spec_parse_u32(p@) {
                            Some(v) => v,
                            None => 1u32,
                        },
                    )
                },
            },
    {
        match &self.page {
            Some(p) => {
                if str_eq(p.as_str(), "all") {
                    None
                } else {
                    match parse_u32(p.as_str()) {
                        Some(v) => Some(v),
                        None => Some(1),
                    }
                }
            },
            None => Some(1),
        }
    }

    /// The search text, if any.
    pub fn get_query(&self) -> (r: &Option<String>)
        ensures
            r == &self.q,
    {
        &self.q
    }

    /// Whether the request asked to skip the exact-name redirect.
    pub fn get_noredir(&self) -> (r: bool)
        ensures
            r == (self.noredir == Some(true)),
    {
        match self.noredir {
            Some(b) => b,
            None => false,
        }
    }

    /// The mirror-clean reason filter, if any.
    pub fn get_reason(&self) -> (r: &Option<String>)
        ensures
            r == &self.reason,
    {
        &self.reason
    }
}

} // verus!
