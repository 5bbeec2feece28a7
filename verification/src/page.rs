//! Page-sized buffers and page-aligned address arithmetic.
//!
//! A [`Page`] owns `2^order` page frames and offers bounds-checked access to
//! their bytes. The frames are not virtually contiguous, so a span that
//! crosses a page boundary is split into page-granular sub-operations (see
//! [`crate::span`]); each page is taken up, operated on and put back one at a
//! time, in ascending order, and never more than one at a time.

use crate::model::{
    lemma_mismatch_concat, lemma_mismatch_congruence, lemma_mismatch_push, mismatch_offsets,
    mismatches, spec_write, zeros,
};
use crate::span::{
    done_until, end_page, first_page, lemma_done_at_end, lemma_done_at_first,
    lemma_end_page_bound, sub_span,
};
use crate::AllocError;
use crate::Error;
use vstd::arithmetic::div_mod::{
    lemma_fundamental_div_mod, lemma_fundamental_div_mod_converse,
};
use vstd::arithmetic::power2::{lemma2_to64, lemma_pow2_strictly_increases, lemma_pow2_unfold, pow2};
use vstd::prelude::*;

verus! {

/// A bitwise shift for the page size.
pub const PAGE_SHIFT: usize = 12;

/// The number of bytes in a page.
pub const PAGE_SIZE: usize = 4096;

/// A bitmask that gives the page containing a given address.
pub const PAGE_MASK: usize = !(PAGE_SIZE - 1);

/// The largest allocation order the frame allocator serves: a single
/// allocation spans at most `2^MAX_ORDER` contiguous pages.
pub const MAX_ORDER: u32 = 10;

/// The unique multiple of `PAGE_SIZE` that is at least `addr` and less than
/// `addr + PAGE_SIZE`.
pub open spec fn spec_page_align(addr: int) -> int {
    ((addr + PAGE_SIZE - 1) / (PAGE_SIZE as int)) * (PAGE_SIZE as int)
}

/// Round up the given number to the next multiple of [`PAGE_SIZE`].
pub fn page_align(addr: usize) -> (r: usize)
    requires
        addr <= usize::MAX - (PAGE_SIZE - 1),
    ensures
        r == spec_page_align(addr as int),
        r % PAGE_SIZE == 0,
        addr <= r < addr + PAGE_SIZE,
{
    let m = addr % PAGE_SIZE;
    proof {
        lemma_fundamental_div_mod(addr as int, PAGE_SIZE as int);
        let q = addr as int / (PAGE_SIZE as int);
        if m == 0 {
            lemma_fundamental_div_mod_converse(
                addr + PAGE_SIZE - 1,
                PAGE_SIZE as int,
                q,
                PAGE_SIZE - 1,
            );
        } else {
            lemma_fundamental_div_mod_converse(
                addr + PAGE_SIZE - 1,
                PAGE_SIZE as int,
                q + 1,
                m - 1,
            );
            lemma_fundamental_div_mod_converse(
                spec_page_align(addr as int),
                PAGE_SIZE as int,
                q + 1,
                0,
            );
        }
    }
    if m == 0 {
        addr
    } else {
        addr - m + PAGE_SIZE
    }
}

/// Round down the given number to the previous multiple of `size`.
pub fn page_align_down(addr: usize, size: usize) -> (r: usize)
    requires
        size > 0,
    ensures
        r == (addr as int / size as int) * size as int,
        r % size == 0,
        r <= addr < r + size,
{
    proof {
        lemma_fundamental_div_mod(addr as int, size as int);
        vstd::arithmetic::mul::lemma_mul_is_commutative(size as int, addr as int / size as int);
        vstd::arithmetic::div_mod::lemma_mod_multiples_basic(addr as int / size as int, size as int);
    }
    addr - (addr % size)
}

/// A buffer that owns `2^order` page frames.
///
/// The buffer is the sole owner of its frames and releases them all, exactly
/// once, when it is dropped. Its contents are viewed as one flat byte
/// sequence of length `2^order * PAGE_SIZE`; byte `i` of the view lives on
/// page `i / PAGE_SIZE` at offset `i % PAGE_SIZE`.
pub struct Page {
    pages: Vec<Vec<u8>>,
    order: u32,
}

/// The flat contents of a list of page frames.
spec fn flat_pages(pages: Seq<Vec<u8>>) -> Seq<u8> {
    Seq::new(
        (pages.len() * PAGE_SIZE) as nat,
        |i: int| pages[i / (PAGE_SIZE as int)]@[i % (PAGE_SIZE as int)],
    )
}

/// Every frame in the list holds exactly one page of bytes.
spec fn frames_wf(pages: Seq<Vec<u8>>) -> bool {
    forall|k: int| 0 <= k < pages.len() ==> (#[trigger] pages[k]@.len()) == PAGE_SIZE
}

impl View for Page {
    type V = Seq<u8>;

    closed spec fn view(&self) -> Seq<u8> {
        flat_pages(self.pages@)
    }
}

impl Page {
    /// The buffer owns `2^order` frames of one page each.
    pub closed spec fn wf(&self) -> bool {
        &&& self.order <= MAX_ORDER
        &&& self.pages@.len() == pow2(self.order as nat)
        &&& frames_wf(self.pages@)
    }

    /// The allocation order: the buffer spans `2^order` pages.
    pub closed spec fn spec_order(&self) -> u32 {
        self.order
    }

    /// A well-formed buffer's view has exactly `2^order * PAGE_SIZE` bytes,
    /// and no more than `2^MAX_ORDER * PAGE_SIZE`.
    pub proof fn lemma_size(&self)
        requires
            self.wf(),
        ensures
            self@.len() == pow2(self.spec_order() as nat) * PAGE_SIZE,
            self@.len() <= 0x400000,
    {
        lemma2_to64();
        if self.order < MAX_ORDER {
            lemma_pow2_strictly_increases(self.order as nat, MAX_ORDER as nat);
        }
    }

    /// Allocates a buffer of one page.
    pub fn alloc_page(flags: u32) -> (r: Result<Page, AllocError>)
        ensures
            r matches Ok(p) ==> p.wf() && p.spec_order() == 0 && p@.len() == PAGE_SIZE,
            r is Ok,
    {
        proof {
            lemma2_to64();
        }
        Page::alloc_pages(flags, 0)
    }

    /// Allocates a buffer of `2^order` contiguous pages.
    ///
    /// `flags` is an opaque allocator configuration value, passed through and
    /// not interpreted here. The allocation fails exactly when `order`
    /// exceeds [`MAX_ORDER`], the largest order the frame allocator serves;
    /// nothing is allocated in that case.
    pub fn alloc_pages(flags: u32, order: u32) -> (r: Result<Page, AllocError>)
        ensures
            r matches Ok(p) ==> p.wf() && p.spec_order() == order && p@.len() == pow2(
                order as nat,
            ) * PAGE_SIZE,
            r is Ok <==> order <= MAX_ORDER,
    {
        if order > MAX_ORDER {
            return Err(AllocError);
        }
        let n = pages_for_order(order);
        let mut pages: Vec<Vec<u8>> = Vec::new();
        while pages.len() < n
            invariant
                pages@.len() <= n,
                frames_wf(pages@),
            decreases n - pages@.len(),
        {
            pages.push(fresh_frame());
        }
        Ok(Page { pages, order })
    }

    /// The allocation order of this buffer.
    pub fn order(&self) -> (r: u32)
        ensures
            r == self.spec_order(),
    {
        self.order
    }

    /// The buffer's size in bytes: `2^order * PAGE_SIZE`.
    pub fn total_size(&self) -> (r: usize)
        requires
            self.wf(),
        ensures
            r == self@.len(),
    {
        proof {
            self.lemma_size();
        }
        self.pages.len() * PAGE_SIZE
    }

    /// Writes `len` bytes of `src` at byte `offset` of the buffer, splitting
    /// the span into page-granular sub-writes where it crosses page
    /// boundaries.
    ///
    /// Fails with [`Error::InvalidRange`], before any byte is written, exactly
    /// when `offset + len` exceeds the buffer's size. On success the span
    /// `[offset, offset + len)` holds `src[0..len]` and every other byte is
    /// unchanged.
    pub fn write_raw_multiple(&mut self, src: &Vec<u8>, offset: usize, len: usize) -> (r: Result<
        (),
        Error,
    >)
        requires
            old(self).wf(),
            src@.len() >= len,
        ensures
            final(self).wf(),
            final(self).spec_order() == old(self).spec_order(),
            offset + len <= old(self)@.len() ==> r is Ok && final(self)@ == spec_write(
                old(self)@,
                offset as int,
                src@.subrange(0, len as int),
            ),
            offset + len > old(self)@.len() ==> r == Err::<(), Error>(Error::InvalidRange)
                && final(self)@ == old(self)@,
    {
        let total = self.total_size();
        if offset > total || len > total - offset {
            return Err(Error::InvalidRange);
        }
        proof {
            self.lemma_size();
            lemma_end_page_bound(offset as int, len as int, self.pages@.len() as int);
            lemma_done_at_first(offset as int, len as int);
            if len > 0 {
                lemma_fundamental_div_mod(offset as int + len - 1, PAGE_SIZE as int);
            }
            assert(spec_write(old(self)@, offset as int, src@.subrange(0, 0)) =~= old(self)@);
        }
        let first = offset / PAGE_SIZE;
        let pend = if len == 0 {
            first
        } else {
            (offset + len - 1) / PAGE_SIZE + 1
        };
        let mut p = first;
        while p < pend
            invariant
                self.wf(),
                self.spec_order() == old(self).spec_order(),
                self@.len() == old(self)@.len(),
                src@.len() >= len,
                offset + len <= old(self)@.len(),
                old(self)@.len() <= 0x400000,
                first == first_page(offset as int),
                pend == end_page(offset as int, len as int),
                first <= p <= pend,
                pend <= self.pages@.len(),
                self@ == spec_write(
                    old(self)@,
                    offset as int,
                    src@.subrange(
                        0,
                        done_until(offset as int, len as int, p as int) - offset,
                    ),
                ),
            decreases pend - p,
        {
            let ghost prev_pages = self.pages@;
            let ghost prev_flat = self@;
            let ghost done_p = done_until(offset as int, len as int, p as int);
            let ss = sub_span(offset, len, p);
            let ghost frag = src@.subrange(ss.buf_off as int, ss.buf_off + ss.len as int);
            write_in_page(&mut self.pages[p], ss.in_page, src, ss.buf_off, ss.len);
            proof {
                let newpage = self.pages@[p as int];
                lemma_flat_update(prev_pages, p as int, newpage, ss.in_page as int, frag);
                assert(self@ == spec_write(prev_flat, done_p, frag));
                let pre = src@.subrange(0, done_p - offset);
                crate::model::lemma_write_adjacent(old(self)@, offset as int, pre, frag);
                assert(pre + frag =~= src@.subrange(
                    0,
                    done_until(offset as int, len as int, p as int + 1) - offset,
                ));
            }
            p = p + 1;
        }
        proof {
            lemma_done_at_end(offset as int, len as int);
        }
        Ok(())
    }

    /// Reads `len` bytes starting at byte `offset` of the buffer into
    /// `dst[0..len]`, splitting the span into page-granular sub-reads where
    /// it crosses page boundaries.
    ///
    /// Fails with [`Error::InvalidRange`], before any byte is copied, exactly
    /// when `offset + len` exceeds the buffer's size. On success `dst[0..len]`
    /// holds the span `[offset, offset + len)` of the buffer and the rest of
    /// `dst` is unchanged.
    pub fn read_raw_multiple(&self, dst: &mut Vec<u8>, offset: usize, len: usize) -> (r: Result<
        (),
        Error,
    >)
        requires
            self.wf(),
            old(dst)@.len() >= len,
        ensures
            offset + len <= self@.len() ==> r is Ok && final(dst)@ == spec_write(
                old(dst)@,
                0,
                self@.subrange(offset as int, offset + len as int),
            ),
            offset + len > self@.len() ==> r == Err::<(), Error>(Error::InvalidRange)
                && final(dst)@ == old(dst)@,
    {
        let total = self.total_size();
        if offset > total || len > total - offset {
            return Err(Error::InvalidRange);
        }
        proof {
            self.lemma_size();
            lemma_end_page_bound(offset as int, len as int, self.pages@.len() as int);
            lemma_done_at_first(offset as int, len as int);
            if len > 0 {
                lemma_fundamental_div_mod(offset as int + len - 1, PAGE_SIZE as int);
            }
            assert(spec_write(old(dst)@, 0, self@.subrange(offset as int, offset as int))
                =~= old(dst)@);
        }
        let first = offset / PAGE_SIZE;
        let pend = if len == 0 {
            first
        } else {
            (offset + len - 1) / PAGE_SIZE + 1
        };
        let mut p = first;
        while p < pend
            invariant
                self.wf(),
                dst@.len() == old(dst)@.len(),
                dst@.len() >= len,
                offset + len <= self@.len(),
                self@.len() <= 0x400000,
                first == first_page(offset as int),
                pend == end_page(offset as int, len as int),
                first <= p <= pend,
                pend <= self.pages@.len(),
                dst@ == spec_write(
                    old(dst)@,
                    0,
                    self@.subrange(
                        offset as int,
                        done_until(offset as int, len as int, p as int),
                    ),
                ),
            decreases pend - p,
        {
            let ghost prev_dst = dst@;
            let ghost done_p = done_until(offset as int, len as int, p as int);
            let ss = sub_span(offset, len, p);
            let ghost frag = self.pages@[p as int]@.subrange(
                ss.in_page as int,
                ss.in_page + ss.len as int,
            );
            read_from_page(&self.pages[p], ss.in_page, dst, ss.buf_off, ss.len);
            proof {
                lemma_flat_subrange(
                    self.pages@,
                    p as int,
                    ss.in_page as int,
                    ss.in_page + ss.len as int,
                );
                assert(frag == self@.subrange(done_p, done_p + ss.len as int));
                let pre = self@.subrange(offset as int, done_p);
                crate::model::lemma_write_adjacent(old(dst)@, 0, pre, frag);
                assert(pre + frag =~= self@.subrange(
                    offset as int,
                    done_until(offset as int, len as int, p as int + 1),
                ));
            }
            p = p + 1;
        }
        proof {
            lemma_done_at_end(offset as int, len as int);
        }
        Ok(())
    }

    /// Zeroes `len` bytes starting at byte `offset` of the buffer, splitting
    /// the span into page-granular sub-writes where it crosses page
    /// boundaries.
    ///
    /// Fails with [`Error::InvalidRange`], before any byte is written, exactly
    /// when `offset + len` exceeds the buffer's size. On success the span
    /// `[offset, offset + len)` is all zero and every other byte is unchanged.
    pub fn fill_zero_raw_multiple(&mut self, offset: usize, len: usize) -> (r: Result<(), Error>)
        requires
            old(self).wf(),
        ensures
            final(self).wf(),
            final(self).spec_order() == old(self).spec_order(),
            offset + len <= old(self)@.len() ==> r is Ok && final(self)@ == spec_write(
                old(self)@,
                offset as int,
                zeros(len as int),
            ),
            offset + len > old(self)@.len() ==> r == Err::<(), Error>(Error::InvalidRange)
                && final(self)@ == old(self)@,
    {
        let total = self.total_size();
        if offset > total || len > total - offset {
            return Err(Error::InvalidRange);
        }
        proof {
            self.lemma_size();
            lemma_end_page_bound(offset as int, len as int, self.pages@.len() as int);
            lemma_done_at_first(offset as int, len as int);
            if len > 0 {
                lemma_fundamental_div_mod(offset as int + len - 1, PAGE_SIZE as int);
            }
            assert(spec_write(old(self)@, offset as int, zeros(0)) =~= old(self)@);
        }
        let first = offset / PAGE_SIZE;
        let pend = if len == 0 {
            first
        } else {
            (offset + len - 1) / PAGE_SIZE + 1
        };
        let mut p = first;
        while p < pend
            invariant
                self.wf(),
                self.spec_order() == old(self).spec_order(),
                self@.len() == old(self)@.len(),
                offset + len <= old(self)@.len(),
                old(self)@.len() <= 0x400000,
                first == first_page(offset as int),
                pend == end_page(offset as int, len as int),
                first <= p <= pend,
                pend <= self.pages@.len(),
                self@ == spec_write(
                    old(self)@,
                    offset as int,
                    zeros(done_until(offset as int, len as int, p as int) - offset),
                ),
            decreases pend - p,
        {
            let ghost prev_pages = self.pages@;
            let ghost prev_flat = self@;
            let ghost done_p = done_until(offset as int, len as int, p as int);
            let ss = sub_span(offset, len, p);
            zero_in_page(&mut self.pages[p], ss.in_page, ss.len);
            proof {
                let newpage = self.pages@[p as int];
                lemma_flat_update(
                    prev_pages,
                    p as int,
                    newpage,
                    ss.in_page as int,
                    zeros(ss.len as int),
                );
                assert(self@ == spec_write(prev_flat, done_p, zeros(ss.len as int)));
                let pre = zeros(done_p - offset);
                crate::model::lemma_write_adjacent(old(self)@, offset as int, pre, zeros(
                    ss.len as int,
                ));
                assert(pre + zeros(ss.len as int) =~= zeros(
                    done_until(offset as int, len as int, p as int + 1) - offset,
                ));
            }
            p = p + 1;
        }
        proof {
            lemma_done_at_end(offset as int, len as int);
        }
        Ok(())
    }

    /// Compares `len` bytes starting at byte `offset` of the buffer against
    /// `src[0..len]`, splitting the span into page-granular sub-comparisons
    /// where it crosses page boundaries, and returns the ordered list of
    /// absolute byte offsets within the buffer whose contents differ from
    /// `src`; an empty list denotes equality.
    ///
    /// Fails with [`Error::InvalidRange`], before any byte is read, exactly
    /// when `offset + len` exceeds the buffer's size. The buffer is never
    /// changed.
    pub fn compare_raw_multiple(&self, src: &Vec<u8>, offset: usize, len: usize) -> (r: Result<
        Vec<usize>,
        Error,
    >)
        requires
            self.wf(),
            src@.len() >= len,
        ensures
            offset + len <= self@.len() ==> (r matches Ok(v) && v@.map_values(|x: usize| x as int)
                == mismatches(self@, offset as int, src@.subrange(0, len as int))),
            offset + len > self@.len() ==> r == Err::<Vec<usize>, Error>(Error::InvalidRange),
    {
        let total = self.total_size();
        if offset > total || len > total - offset {
            return Err(Error::InvalidRange);
        }
        proof {
            self.lemma_size();
            lemma_end_page_bound(offset as int, len as int, self.pages@.len() as int);
            lemma_done_at_first(offset as int, len as int);
            if len > 0 {
                lemma_fundamental_div_mod(offset as int + len - 1, PAGE_SIZE as int);
            }
            assert(Seq::<usize>::empty().map_values(|x: usize| x as int) + mismatch_offsets(
                self@,
                offset as int,
                src@.subrange(0, 0),
                offset as int,
            ) =~= Seq::<int>::empty());
        }
        let first = offset / PAGE_SIZE;
        let pend = if len == 0 {
            first
        } else {
            (offset + len - 1) / PAGE_SIZE + 1
        };
        let mut acc: Vec<usize> = Vec::new();
        let mut p = first;
        while p < pend
            invariant
                self.wf(),
                src@.len() >= len,
                offset + len <= self@.len(),
                self@.len() <= 0x400000,
                first == first_page(offset as int),
                pend == end_page(offset as int, len as int),
                first <= p <= pend,
                pend <= self.pages@.len(),
                acc@.map_values(|x: usize| x as int) == mismatch_offsets(
                    self@,
                    offset as int,
                    src@.subrange(
                        0,
                        done_until(offset as int, len as int, p as int) - offset,
                    ),
                    offset as int,
                ),
            decreases pend - p,
        {
            let ghost done_p = done_until(offset as int, len as int, p as int);
            let ghost acc_pre = acc@;
            let ss = sub_span(offset, len, p);
            let ghost frag = src@.subrange(ss.buf_off as int, ss.buf_off + ss.len as int);
            let abs_base = p * PAGE_SIZE + ss.in_page;
            compare_in_page(&self.pages[p], ss.in_page, src, ss.buf_off, ss.len, abs_base, &mut acc);
            proof {
                let pg = self.pages@[p as int]@;
                assert forall|k: int| 0 <= k < frag.len() implies #[trigger] pg[ss.in_page + k]
                    == self@[done_p + k] by {
                    lemma_flat_index(self.pages@, p as int, ss.in_page + k);
                };
                lemma_mismatch_congruence(
                    self.pages@[p as int]@,
                    ss.in_page as int,
                    self@,
                    done_p,
                    frag,
                    done_p,
                );
                let pre = src@.subrange(0, done_p - offset);
                lemma_mismatch_concat(self@, offset as int, pre, frag, offset as int);
                assert(pre + frag =~= src@.subrange(
                    0,
                    done_until(offset as int, len as int, p as int + 1) - offset,
                ));
                assert(acc@.map_values(|x: usize| x as int) =~= mismatch_offsets(
                    self@,
                    offset as int,
                    src@.subrange(
                        0,
                        done_until(offset as int, len as int, p as int + 1) - offset,
                    ),
                    offset as int,
                ));
            }
            p = p + 1;
        }
        proof {
            lemma_done_at_end(offset as int, len as int);
        }
        Ok(acc)
    }

    /// A well-formed buffer spans at least one page.
    proof fn lemma_first_page(&self)
        requires
            self.wf(),
        ensures
            self.pages@.len() >= 1,
            PAGE_SIZE <= self@.len(),
    {
        vstd::arithmetic::power2::lemma_pow2_pos(self.order as nat);
    }

    /// Reads `len` bytes starting at byte `offset` of the buffer into
    /// `dst[0..len]`, anywhere in the buffer: a span that crosses a page
    /// boundary is split into page-granular sub-reads, as
    /// [`Page::read_raw_multiple`] does.
    ///
    /// Fails with [`Error::InvalidRange`], copying nothing, exactly when
    /// `offset + len` exceeds the buffer's size. On success `dst[0..len]`
    /// holds the span `[offset, offset + len)` of the buffer and the rest of
    /// `dst` is unchanged.
    pub fn read_raw(&self, dst: &mut Vec<u8>, offset: usize, len: usize) -> (r: Result<(), Error>)
        requires
            self.wf(),
            old(dst)@.len() >= len,
        ensures
            offset + len <= self@.len() ==> r is Ok && final(dst)@ == spec_write(
                old(dst)@,
                0,
                self@.subrange(offset as int, offset + len as int),
            ),
            offset + len > self@.len() ==> r == Err::<(), Error>(Error::InvalidRange)
                && final(dst)@ == old(dst)@,
    {
        self.read_raw_multiple(dst, offset, len)
    }

    /// Writes `len` bytes of `src` at byte `offset` of the buffer's first
    /// page. The operation stays within one page: it fails with
    /// [`Error::InvalidRange`], writing nothing, exactly when `offset + len`
    /// exceeds `PAGE_SIZE`. Use [`Page::write_raw_multiple`] for spans that
    /// may cross a page boundary.
    pub fn write_raw(&mut self, src: &Vec<u8>, offset: usize, len: usize) -> (r: Result<
        (),
        Error,
    >)
        requires
            old(self).wf(),
            src@.len() >= len,
        ensures
            final(self).wf(),
            final(self).spec_order() == old(self).spec_order(),
            offset + len <= PAGE_SIZE ==> r is Ok && final(self)@ == spec_write(
                old(self)@,
                offset as int,
                src@.subrange(0, len as int),
            ),
            offset + len > PAGE_SIZE ==> r == Err::<(), Error>(Error::InvalidRange)
                && final(self)@ == old(self)@,
    {
        if offset > PAGE_SIZE || len > PAGE_SIZE - offset {
            return Err(Error::InvalidRange);
        }
        proof {
            self.lemma_first_page();
        }
        let ghost prev_pages = self.pages@;
        write_in_page(&mut self.pages[0], offset, src, 0, len);
        proof {
            let newpage = self.pages@[0];
            lemma_flat_update(prev_pages, 0, newpage, offset as int, src@.subrange(0, len as int));
        }
        Ok(())
    }

    /// Zeroes `len` bytes starting at byte `offset` of the buffer, anywhere
    /// in the buffer: a span that crosses a page boundary is split into
    /// page-granular sub-writes, as [`Page::fill_zero_raw_multiple`] does.
    ///
    /// Fails with [`Error::InvalidRange`], writing nothing, exactly when
    /// `offset + len` exceeds the buffer's size. On success the span
    /// `[offset, offset + len)` is all zero and every other byte is
    /// unchanged.
    pub fn fill_zero_raw(&mut self, offset: usize, len: usize) -> (r: Result<(), Error>)
        requires
            old(self).wf(),
        ensures
            final(self).wf(),
            final(self).spec_order() == old(self).spec_order(),
            offset + len <= old(self)@.len() ==> r is Ok && final(self)@ == spec_write(
                old(self)@,
                offset as int,
                zeros(len as int),
            ),
            offset + len > old(self)@.len() ==> r == Err::<(), Error>(Error::InvalidRange)
                && final(self)@ == old(self)@,
    {
        self.fill_zero_raw_multiple(offset, len)
    }

    /// Copies `len` bytes handed over by an external byte source (for
    /// example, a user-space buffer reader) at byte `offset` of the buffer's
    /// first page. The source is modeled as what the interface guarantees: a
    /// contiguous region of at least `len` readable bytes. The bounds
    /// contract is that of [`Page::write_raw`].
    pub fn copy_from_user_slice_raw(&mut self, reader: &Vec<u8>, offset: usize, len: usize) -> (r:
        Result<(), Error>)
        requires
            old(self).wf(),
            reader@.len() >= len,
        ensures
            final(self).wf(),
            final(self).spec_order() == old(self).spec_order(),
            offset + len <= PAGE_SIZE ==> r is Ok && final(self)@ == spec_write(
                old(self)@,
                offset as int,
                reader@.subrange(0, len as int),
            ),
            offset + len > PAGE_SIZE ==> r == Err::<(), Error>(Error::InvalidRange)
                && final(self)@ == old(self)@,
    {
        self.write_raw(reader, offset, len)
    }
}

/// The flat view reads page `p` at in-page offset `j`.
proof fn lemma_flat_index(pages: Seq<Vec<u8>>, p: int, j: int)
    requires
        frames_wf(pages),
        0 <= p < pages.len(),
        0 <= j < PAGE_SIZE,
    ensures
        0 <= p * PAGE_SIZE + j < pages.len() * PAGE_SIZE,
        flat_pages(pages)[p * PAGE_SIZE + j] == pages[p]@[j],
{
    lemma_fundamental_div_mod_converse(p * PAGE_SIZE + j, PAGE_SIZE as int, p, j);
}

/// Writing `d` within one page rewrites exactly the matching span of the flat
/// view.
proof fn lemma_flat_update(pages: Seq<Vec<u8>>, p: int, newpage: Vec<u8>, a: int, d: Seq<u8>)
    requires
        frames_wf(pages),
        0 <= p < pages.len(),
        0 <= a,
        a + d.len() <= PAGE_SIZE,
        newpage@ == spec_write(pages[p]@, a, d),
    ensures
        frames_wf(pages.update(p, newpage)),
        flat_pages(pages.update(p, newpage)) == spec_write(
            flat_pages(pages),
            p * PAGE_SIZE + a,
            d,
        ),
{
    let ps = PAGE_SIZE as int;
    let upd = pages.update(p, newpage);
    assert(newpage@.len() == PAGE_SIZE);
    let lhs = flat_pages(upd);
    let rhs = spec_write(flat_pages(pages), p * ps + a, d);
    assert forall|i: int| 0 <= i < lhs.len() implies lhs[i] == rhs[i] by {
        lemma_fundamental_div_mod(i, ps);
        let q = i / ps;
        let r = i % ps;
        assert(0 <= q < pages.len());
        if q == p {
            assert(lhs[i] == newpage@[r]);
            if a <= r < a + d.len() {
                assert(lhs[i] == d[r - a]);
                assert(rhs[i] == d[i - (p * ps + a)]);
                assert(i - (p * ps + a) == r - a);
            } else {
                assert(lhs[i] == pages[p]@[r]);
                assert(!(p * ps + a <= i < p * ps + a + d.len()));
                assert(rhs[i] == flat_pages(pages)[i]);
            }
        } else {
            assert(lhs[i] == pages[q]@[r]);
            if p * ps + a <= i < p * ps + a + d.len() {
                lemma_fundamental_div_mod_converse(i, ps, p, i - p * ps);
                assert(false);
            }
            assert(rhs[i] == flat_pages(pages)[i]);
        }
    };
    assert(lhs =~= rhs);
}

/// A span of the flat view that stays within one page is a span of that page.
proof fn lemma_flat_subrange(pages: Seq<Vec<u8>>, p: int, a: int, b: int)
    requires
        frames_wf(pages),
        0 <= p < pages.len(),
        0 <= a <= b <= PAGE_SIZE,
    ensures
        flat_pages(pages).subrange(p * PAGE_SIZE + a, p * PAGE_SIZE + b) == pages[p]@.subrange(
            a,
            b,
        ),
{
    let ps = PAGE_SIZE as int;
    if a < PAGE_SIZE {
        lemma_flat_index(pages, p, a);
    }
    assert((p + 1) * ps <= pages.len() * ps);
    assert forall|k: int| 0 <= k < b - a implies flat_pages(pages).subrange(
        p * ps + a,
        p * ps + b,
    )[k] == pages[p]@.subrange(a, b)[k] by {
        lemma_flat_index(pages, p, a + k);
    };
    assert(flat_pages(pages).subrange(p * ps + a, p * ps + b) =~= pages[p]@.subrange(a, b));
}

/// Copies `n` bytes of `src`, starting at `src_off`, into one page at
/// `page_off`.
fn write_in_page(page: &mut Vec<u8>, page_off: usize, src: &Vec<u8>, src_off: usize, n: usize)
    requires
        page_off + n <= old(page)@.len(),
        src_off + n <= src@.len(),
    ensures
        final(page)@ == spec_write(
            old(page)@,
            page_off as int,
            src@.subrange(src_off as int, src_off + n as int),
        ),
{
    let page_len = page.len();
    let src_len = src.len();
    let mut j: usize = 0;
    proof {
        assert(page_off + n <= page_len);
        assert(src_off + n <= src_len);
        assert(spec_write(old(page)@, page_off as int, src@.subrange(src_off as int, src_off as int))
            =~= old(page)@);
    }
    while j < n
        invariant
            j <= n,
            page@.len() == old(page)@.len(),
            page_len == page@.len(),
            src_len == src@.len(),
            page_off + n <= page@.len(),
            src_off + n <= src@.len(),
            page@ == spec_write(
                old(page)@,
                page_off as int,
                src@.subrange(src_off as int, (src_off + j) as int),
            ),
        decreases n - j,
    {
        let ghost pre = src@.subrange(src_off as int, (src_off + j) as int);
        let b = src[src_off + j];
        page[page_off + j] = b;
        proof {
            assert(src@.subrange(src_off as int, (src_off + j + 1) as int) =~= pre.push(b));
            assert(page@ =~= spec_write(
                old(page)@,
                page_off as int,
                src@.subrange(src_off as int, (src_off + j + 1) as int),
            ));
        }
        j = j + 1;
    }
}

/// Copies `n` bytes of one page, starting at `page_off`, into `dst` at
/// `dst_off`.
fn read_from_page(page: &Vec<u8>, page_off: usize, dst: &mut Vec<u8>, dst_off: usize, n: usize)
    requires
        page_off + n <= page@.len(),
        dst_off + n <= old(dst)@.len(),
    ensures
        final(dst)@ == spec_write(
            old(dst)@,
            dst_off as int,
            page@.subrange(page_off as int, page_off + n as int),
        ),
{
    let page_len = page.len();
    let dst_len = dst.len();
    let mut j: usize = 0;
    proof {
        assert(page_off + n <= page_len);
        assert(dst_off + n <= dst_len);
        assert(spec_write(old(dst)@, dst_off as int, page@.subrange(page_off as int, page_off as int))
            =~= old(dst)@);
    }
    while j < n
        invariant
            j <= n,
            dst@.len() == old(dst)@.len(),
            page_len == page@.len(),
            dst_len == dst@.len(),
            page_off + n <= page@.len(),
            dst_off + n <= dst@.len(),
            dst@ == spec_write(
                old(dst)@,
                dst_off as int,
                page@.subrange(page_off as int, (page_off + j) as int),
            ),
        decreases n - j,
    {
        let ghost pre = page@.subrange(page_off as int, (page_off + j) as int);
        let b = page[page_off + j];
        dst[dst_off + j] = b;
        proof {
            assert(page@.subrange(page_off as int, (page_off + j + 1) as int) =~= pre.push(b));
            assert(dst@ =~= spec_write(
                old(dst)@,
                dst_off as int,
                page@.subrange(page_off as int, (page_off + j + 1) as int),
            ));
        }
        j = j + 1;
    }
}

/// Zeroes `n` bytes of one page starting at `page_off`.
fn zero_in_page(page: &mut Vec<u8>, page_off: usize, n: usize)
    requires
        page_off + n <= old(page)@.len(),
    ensures
        final(page)@ == spec_write(old(page)@, page_off as int, zeros(n as int)),
{
    let page_len = page.len();
    let mut j: usize = 0;
    proof {
        assert(page_off + n <= page_len);
        assert(spec_write(old(page)@, page_off as int, zeros(0)) =~= old(page)@);
    }
    while j < n
        invariant
            j <= n,
            page@.len() == old(page)@.len(),
            page_len == page@.len(),
            page_off + n <= page@.len(),
            page@ == spec_write(old(page)@, page_off as int, zeros(j as int)),
        decreases n - j,
    {
        page[page_off + j] = 0u8;
        proof {
            assert(zeros(j + 1) =~= zeros(j as int).push(0u8));
            assert(page@ =~= spec_write(old(page)@, page_off as int, zeros(j + 1)));
        }
        j = j + 1;
    }
}

/// Compares `n` bytes of one page, starting at `page_off`, against `src`
/// starting at `src_off`, and appends to `acc` the positions that differ,
/// reported as `abs_base` plus the byte's index within the compared range.
fn compare_in_page(
    page: &Vec<u8>,
    page_off: usize,
    src: &Vec<u8>,
    src_off: usize,
    n: usize,
    abs_base: usize,
    acc: &mut Vec<usize>,
)
    requires
        page_off + n <= page@.len(),
        src_off + n <= src@.len(),
        abs_base + n <= usize::MAX,
    ensures
        final(acc)@.map_values(|x: usize| x as int) == old(acc)@.map_values(|x: usize| x as int)
            + mismatch_offsets(
            page@,
            page_off as int,
            src@.subrange(src_off as int, src_off + n as int),
            abs_base as int,
        ),
{
    let page_len = page.len();
    let src_len = src.len();
    let mut j: usize = 0;
    proof {
        assert(page_off + n <= page_len);
        assert(src_off + n <= src_len);
        assert(old(acc)@.map_values(|x: usize| x as int) + mismatch_offsets(
            page@,
            page_off as int,
            src@.subrange(src_off as int, src_off as int),
            abs_base as int,
        ) =~= old(acc)@.map_values(|x: usize| x as int));
    }
    while j < n
        invariant
            j <= n,
            page_len == page@.len(),
            src_len == src@.len(),
            page_off + n <= page@.len(),
            src_off + n <= src@.len(),
            abs_base + n <= usize::MAX,
            acc@.map_values(|x: usize| x as int) == old(acc)@.map_values(|x: usize| x as int)
                + mismatch_offsets(
                page@,
                page_off as int,
                src@.subrange(src_off as int, (src_off + j) as int),
                abs_base as int,
            ),
        decreases n - j,
    {
        let ghost pre = src@.subrange(src_off as int, (src_off + j) as int);
        let ghost acc_pre = acc@;
        let b_src = src[src_off + j];
        let b_page = page[page_off + j];
        proof {
            lemma_mismatch_push(page@, page_off as int, pre, b_src, abs_base as int);
            assert(src@.subrange(src_off as int, (src_off + j + 1) as int) =~= pre.push(b_src));
        }
        if b_page != b_src {
            acc.push(abs_base + j);
            proof {
                assert(acc@.map_values(|x: usize| x as int) =~= acc_pre.map_values(
                    |x: usize| x as int,
                ).push(abs_base + j as int));
                assert(acc@.map_values(|x: usize| x as int) =~= old(acc)@.map_values(
                    |x: usize| x as int,
                ) + mismatch_offsets(
                    page@,
                    page_off as int,
                    src@.subrange(src_off as int, (src_off + j + 1) as int),
                    abs_base as int,
                ));
            }
        } else {
            proof {
                assert(acc@.map_values(|x: usize| x as int) =~= old(acc)@.map_values(
                    |x: usize| x as int,
                ) + mismatch_offsets(
                    page@,
                    page_off as int,
                    src@.subrange(src_off as int, (src_off + j + 1) as int),
                    abs_base as int,
                ));
            }
        }
        j = j + 1;
    }
}

/// The number of pages in an allocation of the given order.
fn pages_for_order(order: u32) -> (n: usize)
    requires
        order <= MAX_ORDER,
    ensures
        n == pow2(order as nat),
        n <= 1024,
{
    proof {
        lemma2_to64();
    }
    let mut n: usize = 1;
    let mut i: u32 = 0;
    while i < order
        invariant
            i <= order <= MAX_ORDER,
            n == pow2(i as nat),
            n <= 1024,
        decreases order - i,
    {
        proof {
            lemma2_to64();
            lemma_pow2_strictly_increases(i as nat, MAX_ORDER as nat);
            lemma_pow2_unfold((i + 1) as nat);
        }
        n = n * 2;
        i = i + 1;
    }
    proof {
        lemma2_to64();
        if order < MAX_ORDER {
            lemma_pow2_strictly_increases(order as nat, MAX_ORDER as nat);
        }
    }
    n
}

/// One freshly allocated page frame. The model hands frames out zeroed;
/// callers are promised only the size, not the contents.
fn fresh_frame() -> (v: Vec<u8>)
    ensures
        v@.len() == PAGE_SIZE,
{
    let mut v: Vec<u8> = Vec::new();
    while v.len() < PAGE_SIZE
        invariant
            v@.len() <= PAGE_SIZE,
        decreases PAGE_SIZE - v@.len(),
    {
        v.push(0u8);
    }
    v
}

} // verus!
