//! Plain value objects handed in by the data store and out to the
//! presentation layer: repositories, source trees, configuration, paging.

use vstd::prelude::*;

verus! {

/// One repository (an architecture within a branch), as the data store
/// describes it.
#[derive(Debug)]
pub struct Repo {
    pub name: String,
    pub realname: String,
    pub architecture: String,
    pub branch: String,
    pub date: i64,
    pub testing: i64,
    pub category: String,
    pub testingonly: i64,
    pub pkgcount: i64,
    pub ghosts: i64,
    pub lagging: i64,
    pub missing: i64,
}

/// One source tree.
#[derive(Debug)]
pub struct Tree {
    pub name: String,
    pub category: String,
    pub url: String,
    pub date: i64,
    pub pkgcount: i64,
}

/// Service-wide settings read at startup.
#[derive(Debug)]
pub struct Global {
    pub listen: String,
    pub log: String,
    pub sqlx_log: String,
    pub otlp_url: Option<String>,
}

/// Position within a paginated listing.
#[derive(Debug)]
pub struct Page {
    pub cur: u32,
    pub max: u32,
    pub count: u32,
}

/// Rows shown on one page of a listing.
pub const PAGESIZE: u32 = 60;

impl Page {
    /// Page metadata for a listing of `count` rows: page `cur` of
    /// `ceil(count / PAGESIZE)` pages, or a single unbounded page when no
    /// page number was asked for.
    pub fn compute(count: u32, cur: Option<u32>) -> (r: Page)
        ensures
            r.count == count,
            match cur {
                Some(c) => r.cur == c && r.max == (count + PAGESIZE - 1) / (PAGESIZE as int),
                None => r.cur == 1 && r.max == 0,
            },
    {
        match cur {
            Some(c) => {
                let max = if count == 0 {
                    0
                } else {
                    (count - 1) / PAGESIZE + 1
                };
                proof {
                    if count > 0 {
                        vstd::arithmetic::div_mod::lemma_div_plus_one(
                            count - 1,
                            PAGESIZE as int,
                        );
                        assert(1 + (count - 1) / (PAGESIZE as int) == (PAGESIZE + count - 1) / (
                        PAGESIZE as int));
                    }
                }
                Page { cur: c, max, count }
            },
            None => Page { cur: 1, max: 0, count },
        }
    }

    /// Index range of the rows on page `cur`, clipped to `count`:
    /// an empty range when the page lies beyond the listing.
    pub fn slice_bounds(count: u32, cur: u32) -> (r: (u32, u32))
        requires
            cur >= 1,
        ensures
            r.0 <= r.1 <= count,
            cur <= (u32::MAX / PAGESIZE) ==> {
                let lo = (cur - 1) * (PAGESIZE as int);
                &&& r.0 == (if lo < count {
                    lo
                } else {
                    count as int
                })
                &&& r.1 == (if lo + PAGESIZE < count {
                    lo + (PAGESIZE as int)
                } else {
                    count as int
                })
            },
    {
        if cur > u32::MAX / PAGESIZE {
            // the page number alone exceeds any possible listing
            return (count, count);
        }
        let lo = (cur - 1) * PAGESIZE;
        if lo >= count {
            return (count, count);
        }
        let hi = if count - lo > PAGESIZE {
            lo + PAGESIZE
        } else {
            count
        };
        (lo, hi)
    }
}

} // verus!
