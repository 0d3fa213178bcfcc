//! Feed polling: the next polling interval of a feed, and cleaning of the
//! text fields of its items.

use vstd::prelude::*;

use crate::key::{url_parts, Url};

verus! {

/// Shortest polling interval, in seconds.
pub const MIN_INTERVAL: u32 = 3600;

/// Longest polling interval, in seconds.
pub const MAX_INTERVAL: u32 = 86400;

/// Number of items from which the observed staleness is fully trusted.
pub const TRUST_ITEMS: u32 = 30;

pub open spec fn min(a: int, b: int) -> int {
    if a <= b {
        a
    } else {
        b
    }
}

pub open spec fn max(a: int, b: int) -> int {
    if a >= b {
        a
    } else {
        b
    }
}

/// The next interval before clamping, rounded down. With
/// `staleness = (total - new) / total`, the estimate is
/// `prev * 2 * staleness` (promptness 0.5), trusted with weight
/// `min(total / 30, 1)` against `prev`.
pub open spec fn next_interval(prev: int, total: int, new: int) -> int {
    let t = min(total, TRUST_ITEMS as int);
    (prev * ((TRUST_ITEMS - t) * total + 2 * (total - new) * t)) / (TRUST_ITEMS * total)
}

/// The interval after a poll that saw `total` items, `new` of them new.
pub open spec fn estimated_interval(prev: int, total: int, new: int) -> int {
    if total == 0 {
        min(prev + MIN_INTERVAL, MAX_INTERVAL as int)
    } else {
        max(MIN_INTERVAL as int, min(next_interval(prev, total, new), MAX_INTERVAL as int))
    }
}

/// Adapts a feed's polling interval to how many of its items were new: a
/// failed poll (no item) backs off by `MIN_INTERVAL`; otherwise the interval
/// moves toward `prev * 2 * (total - new) / total`, the more so the more items
/// were seen, and stays within `[MIN_INTERVAL, MAX_INTERVAL]`.
pub fn estimate_interval(prev: u32, total: u32, new: u32) -> (r: u32)
    requires
        new <= total,
        total == 0 ==> prev + MIN_INTERVAL <= u32::MAX,
    ensures
        r == estimated_interval(prev as int, total as int, new as int),
{
    if total == 0 {
        let backed = prev + MIN_INTERVAL;
        return if backed < MAX_INTERVAL {
            backed
        } else {
            MAX_INTERVAL
        };
    }
    let t: u128 = if total < TRUST_ITEMS {
        total as u128
    } else {
        TRUST_ITEMS as u128
    };
    let total_w = total as u128;
    let stale = (total - new) as u128;
    assert((TRUST_ITEMS - t) * total_w <= 30 * 0xffff_ffff) by (nonlinear_arith)
        requires
            0 <= TRUST_ITEMS - t <= 30,
            total_w <= 0xffff_ffff,
    ;
    assert(2 * stale * t <= 60 * 0xffff_ffff) by (nonlinear_arith)
        requires
            t <= 30,
            stale <= 0xffff_ffff,
    ;
    let factor: u128 = (TRUST_ITEMS as u128 - t) * total_w + 2 * stale * t;
    assert(prev * factor <= 0xffff_ffff * (90 * 0xffff_ffff)) by (nonlinear_arith)
        requires
            prev <= 0xffff_ffff,
            factor <= 90 * 0xffff_ffff,
    ;
    let next: u128 = (prev as u128 * factor) / (TRUST_ITEMS as u128 * total_w);
    if next > MAX_INTERVAL as u128 {
        MAX_INTERVAL
    } else if next < MIN_INTERVAL as u128 {
        MIN_INTERVAL
    } else {
        next as u32
    }
}

/// A text without leading and trailing whitespace.
pub uninterp spec fn trim_of(s: Seq<char>) -> Seq<char>;

/// Relies on `str::trim`: a sub-slice of `s` with the leading and trailing
/// whitespace removed; when nothing is removed it is `s` itself.
#[verifier::external_body]
fn trim(s: &str) -> (r: &str)
    ensures
        r@ == trim_of(s@),
        r@.len() <= s@.len(),
        r@.len() == s@.len() ==> r@ == s@,
{
    s.trim()
}

/// A text without surrounding whitespace, or `None` when nothing else is left.
pub fn purify_text(string: String) -> (r: Option<String>)
    ensures
        match r {
            Some(t) => t@ == trim_of(string@) && t@.len() > 0,
            None => trim_of(string@).len() == 0,
        },
{
    let trimmed = trim(string.as_str());
    let n = trimmed.unicode_len();
    if n == 0 {
        None
    } else if n == string.as_str().unicode_len() {
        Some(string)
    } else {
        Some(trimmed.to_owned())
    }
}

/// Parses a url given with surrounding whitespace.
pub fn parse_url(url: &str) -> (r: Option<Url>)
    ensures
        match r {
            Some(u) => url_parts(trim_of(url@)) == Some(u.parts()),
            None => url_parts(trim_of(url@)) is None,
        },
{
    match Url::parse(trim(url)) {
        Ok(u) => Some(u),
        Err(_) => None,
    }
}

} // verus!
