//! What the store is asked, worked out before the store is touched.

use vstd::prelude::*;

pub mod codec;
pub mod embeddings;

verus! {

/// Where a page starts in a listing and how many items it holds.
pub struct PaginationInfo {
    pub offset: i64,
    pub limit: i64,
}

/// The number of items before page `page`, where pages are counted from 1
/// and page 0 is read as page 1.
pub open spec fn page_offset(page: u32, limit: u32) -> int {
    if page <= 1 {
        0
    } else {
        (page - 1) * limit
    }
}

impl PaginationInfo {
    /// The place of page `page` at `limit` items a page.
    pub fn new(page: u32, limit: u32) -> (r: Self)
        requires
            page_offset(page, limit) <= i64::MAX,
        ensures
            r.offset == page_offset(page, limit),
            r.limit == limit,
    {
        let before: i64 = if page <= 1 {
            0
        } else {
            (page - 1) as i64
        };
        assert(before * limit == page_offset(page, limit)) by (nonlinear_arith)
            requires
                before == if page <= 1 {
                    0
                } else {
                    page - 1
                },
        ;
        let offset = before * (limit as i64);
        PaginationInfo { offset, limit: limit as i64 }
    }
}

} // verus!
