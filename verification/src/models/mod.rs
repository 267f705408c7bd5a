//! The records that the library exchanges with its callers.

use vstd::prelude::*;

pub mod chat;
pub mod embedding;
pub mod house_rule;

verus! {

pub type GameId = i64;

pub type HouseRuleId = i64;

pub type EmbeddingId = i64;

pub type ChatSessionId = i64;

pub type ChatMessageId = i64;

/// Which page of a listing is asked for, and how many items a page holds.
#[derive(Debug)]
pub struct PaginationParams {
    pub page: u32,
    pub limit: u32,
}

/// The page asked for where none is named.
pub fn default_page() -> (page: u32)
    ensures
        page == 1,
{
    1
}

/// The page size where none is named.
pub fn default_limit() -> (limit: u32)
    ensures
        limit == 20,
{
    20
}

/// One page of a listing.
#[derive(Debug)]
pub struct PaginatedResponse<T> {
    pub items: Vec<T>,
    pub total: u32,
    pub page: u32,
    pub limit: u32,
    pub total_pages: u32,
}

/// The number of pages that `total` items fill at `limit` items a page.
/// With a page size of 0 no page is needed for no items, and no number of
/// pages is enough for any: the count is then the largest there is.
pub open spec fn pages_needed(total: u32, limit: u32) -> int {
    if limit == 0 {
        if total == 0 {
            0
        } else {
            u32::MAX as int
        }
    } else {
        (total + limit - 1) / (limit as int)
    }
}

/// The number of pages is the least whose capacity holds all items.
pub proof fn lemma_pages_needed(total: u32, limit: u32)
    requires
        limit > 0,
    ensures
        0 <= pages_needed(total, limit) <= total,
        pages_needed(total, limit) * limit >= total,
        (pages_needed(total, limit) - 1) * limit < total || total == 0,
{
    let t = total as int;
    let l = limit as int;
    let q = (t + l - 1) / l;
    assert(q * l <= t + l - 1 < (q + 1) * l && 0 <= q) by (nonlinear_arith)
        requires
            q == (t + l - 1) / l,
            l > 0,
            t >= 0,
    ;
    assert((q - 1) * l == q * l - l && (q + 1) * l == q * l + l) by (nonlinear_arith);
    assert(q <= t) by (nonlinear_arith)
        requires
            q * l <= t + l - 1,
            l >= 1,
            q >= 0,
            t >= 0,
    ;
}

impl<T> PaginatedResponse<T> {
    /// A page with its place in the listing.
    pub fn new(items: Vec<T>, total: u32, page: u32, limit: u32) -> (r: Self)
        ensures
            r.items == items,
            r.total == total,
            r.page == page,
            r.limit == limit,
            r.total_pages == pages_needed(total, limit),
    {
        let total_pages: u32 = if limit == 0 {
            if total == 0 {
                0
            } else {
                u32::MAX
            }
        } else {
            let pages: u64 = (total as u64 + limit as u64 - 1) / (limit as u64);
            proof {
                lemma_pages_needed(total, limit);
            }
            pages as u32
        };
        PaginatedResponse { items, total, page, limit, total_pages }
    }
}

} // verus!
