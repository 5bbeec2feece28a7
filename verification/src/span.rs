//! Decomposition of a byte span into page-granular sub-spans.
//!
//! Pages of a buffer are not virtually contiguous, so every operation on a
//! span `[offset, offset + len)` must be split into sub-operations that each
//! stay within one page. The split is implemented once, here, and reused by
//! every primitive: [`sub_span`] gives, for each page index, the sub-span of
//! that page together with its position in the caller's buffer, and
//! [`done_until`] is the measure the operations' loops advance along.

use crate::page::PAGE_SIZE;
use vstd::arithmetic::div_mod::lemma_fundamental_div_mod;
use vstd::prelude::*;

verus! {

/// The first page a span starting at `offset` touches.
pub open spec fn first_page(offset: int) -> int {
    offset / (PAGE_SIZE as int)
}

/// The page after the last one the span `[offset, offset + len)` touches;
/// equal to `first_page(offset)` when the span is empty.
pub open spec fn end_page(offset: int, len: int) -> int {
    if len == 0 {
        first_page(offset)
    } else {
        (offset + len - 1) / (PAGE_SIZE as int) + 1
    }
}

/// How far through the span `[offset, offset + len)` an operation has come
/// once every page before page `p` is done: the span's bytes below `p`'s
/// first byte, clamped to the span.
pub open spec fn done_until(offset: int, len: int, p: int) -> int {
    if p * PAGE_SIZE <= offset {
        offset
    } else if p * PAGE_SIZE >= offset + len {
        offset + len
    } else {
        p * PAGE_SIZE
    }
}

/// Nothing is done before the first page.
pub proof fn lemma_done_at_first(offset: int, len: int)
    requires
        0 <= offset,
        0 <= len,
    ensures
        done_until(offset, len, first_page(offset)) == offset,
{
    lemma_fundamental_div_mod(offset, PAGE_SIZE as int);
}

/// Everything is done once the page after the span is reached.
pub proof fn lemma_done_at_end(offset: int, len: int)
    requires
        0 <= offset,
        0 <= len,
    ensures
        done_until(offset, len, end_page(offset, len)) == offset + len,
{
    if len > 0 {
        lemma_fundamental_div_mod(offset + len - 1, PAGE_SIZE as int);
    }
}

/// A span that fits a buffer of `npages` pages touches only pages of that
/// buffer.
pub proof fn lemma_end_page_bound(offset: int, len: int, npages: int)
    requires
        0 <= offset,
        0 <= len,
        offset + len <= npages * PAGE_SIZE,
    ensures
        0 <= first_page(offset),
        first_page(offset) <= end_page(offset, len),
        end_page(offset, len) <= npages,
{
    let ps = PAGE_SIZE as int;
    lemma_fundamental_div_mod(offset, ps);
    if len > 0 {
        lemma_fundamental_div_mod(offset + len - 1, ps);
        vstd::arithmetic::div_mod::lemma_div_is_ordered(offset, offset + len - 1, ps);
    }
}

/// The sub-span of page `p` within the span `[offset, offset + len)`:
/// `in_page` is its first byte's offset within the page, `len` its length,
/// and `buf_off` its position relative to the span's start.
pub struct SubSpan {
    /// Offset of the sub-span within page `p`.
    pub in_page: usize,
    /// Length of the sub-span.
    pub len: usize,
    /// Offset of the sub-span within the caller's buffer, that is, the number
    /// of span bytes that lie on pages before `p`.
    pub buf_off: usize,
}

/// Computes page `p`'s sub-span of `[offset, offset + len)`. The sub-span
/// covers the span's bytes between `done_until(p)` and `done_until(p + 1)`,
/// so walking the pages in ascending order covers the span exactly once.
pub fn sub_span(offset: usize, len: usize, p: usize) -> (r: SubSpan)
    requires
        first_page(offset as int) <= p < end_page(offset as int, len as int),
        offset + len <= usize::MAX,
        (p + 1) * PAGE_SIZE <= usize::MAX,
    ensures
        r.in_page + r.len <= PAGE_SIZE,
        r.len > 0,
        p * PAGE_SIZE + r.in_page == done_until(offset as int, len as int, p as int),
        r.buf_off == done_until(offset as int, len as int, p as int) - offset,
        p * PAGE_SIZE + r.in_page + r.len
            == done_until(offset as int, len as int, p as int + 1),
{
    proof {
        let ps = PAGE_SIZE as int;
        lemma_fundamental_div_mod(offset as int, ps);
        if len > 0 {
            lemma_fundamental_div_mod(offset as int + len - 1, ps);
        }
    }
    let page_base = p * PAGE_SIZE;
    let end = offset + len;
    let lo = if offset > page_base {
        offset
    } else {
        page_base
    };
    let hi_cap = page_base + PAGE_SIZE;
    let hi = if end < hi_cap {
        end
    } else {
        hi_cap
    };
    SubSpan { in_page: lo - page_base, len: hi - lo, buf_off: lo - offset }
}

} // verus!
