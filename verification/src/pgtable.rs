//! A model of the platform's translation structure: lookup of the leaf entry
//! mapping a virtual address, and rewriting of that entry.
//!
//! The translation structure is held as a table of leaf entries, each mapping
//! a contiguous run of virtual pages at one of two granularities (base page
//! or large page) to a physical frame and a protection value. A lookup
//! returns a transient handle naming the slot that maps the address; the
//! handle is a single-use accessor scoped to one lookup, and every access
//! through it reads or rewrites the live slot, so a rewrite is visible to any
//! later lookup or read.
//!
//! Two caller responsibilities are modeled as documentation, exactly as the
//! interface states them: a rewrite does not invalidate translations cached
//! elsewhere, and the new frame and protection handed to a rewrite must come
//! from an entry of the same granularity. The rewrite itself keeps the slot's
//! granularity and placement, so the table stays well formed either way.

use crate::page::PAGE_SIZE;
use crate::Error;
use vstd::prelude::*;

verus! {

/// Pages covered by one base-page (PTE) leaf entry.
pub const PTE_PAGES: u64 = 1;

/// Pages covered by one large-page (PMD) leaf entry.
pub const PMD_PAGES: u64 = 512;

/// One installed leaf entry: the run of `pages()` virtual pages starting at
/// page number `vpn` maps to the physical frames starting at `pfn`, with the
/// opaque protection value `prot`.
#[derive(Clone, Copy, Debug, PartialEq, Eq, Structural)]
pub struct Mapping {
    /// First virtual page number the entry covers.
    pub vpn: u64,
    /// Whether the entry is a large-page (PMD) leaf rather than a base-page
    /// (PTE) leaf.
    pub large: bool,
    /// First physical frame number the entry references.
    pub pfn: u64,
    /// The opaque, platform-defined protection value installed in the entry.
    pub prot: u64,
}

impl Mapping {
    /// How many virtual pages this one entry covers.
    pub open spec fn pages(self) -> u64 {
        if self.large {
            PMD_PAGES
        } else {
            PTE_PAGES
        }
    }
}

/// Whether `e` maps virtual page `vpn`.
pub open spec fn covers(e: Mapping, vpn: u64) -> bool {
    e.vpn <= vpn < e.vpn + e.pages()
}

/// Whether an entry of `pages` pages at `vpn` would share a page with `e`.
pub open spec fn overlaps(vpn: u64, pages: u64, e: Mapping) -> bool {
    vpn < e.vpn + e.pages() && e.vpn < vpn + pages
}

/// A well-formed table: entries cover pairwise disjoint page runs, so every
/// virtual page is mapped by at most one entry, and no run wraps around the
/// page-number space.
pub open spec fn table_wf(entries: Seq<Mapping>) -> bool {
    &&& forall|i: int, j: int|
        #![trigger entries[i], entries[j]]
        0 <= i < entries.len() && 0 <= j < entries.len() && i != j ==> !overlaps(
            entries[i].vpn,
            entries[i].pages(),
            entries[j],
        )
    &&& forall|i: int|
        0 <= i < entries.len() ==> (#[trigger] entries[i]).vpn + entries[i].pages() <= u64::MAX
}

/// The virtual page number holding `address`.
pub open spec fn vpn_of(address: usize) -> u64 {
    (address / PAGE_SIZE) as u64
}

/// The translation structure: the set of currently installed leaf entries.
pub struct PageTable {
    entries: Vec<Mapping>,
}

impl View for PageTable {
    type V = Seq<Mapping>;

    closed spec fn view(&self) -> Seq<Mapping> {
        self.entries@
    }
}

impl PageTable {
    /// The table's entries cover pairwise disjoint page runs.
    pub open spec fn wf(&self) -> bool {
        table_wf(self@)
    }

    /// An empty translation structure: no address is mapped.
    pub fn new() -> (r: PageTable)
        ensures
            r@ == Seq::<Mapping>::empty(),
            r.wf(),
    {
        PageTable { entries: Vec::new() }
    }

    /// Installs a base-page entry mapping virtual page `vpn` to frame `pfn`
    /// with protection `prot`. Fails with [`Error::InvalidRange`], installing
    /// nothing, exactly when the page is already covered by an entry or the
    /// run would leave the page-number space.
    pub fn map_page(&mut self, vpn: u64, pfn: u64, prot: u64) -> (r: Result<(), Error>)
        requires
            old(self).wf(),
        ensures
            final(self).wf(),
            r is Ok <==> vpn + PTE_PAGES <= u64::MAX && (forall|k: int|
                0 <= k < old(self)@.len() ==> !overlaps(vpn, PTE_PAGES, #[trigger] old(self)@[k])),
            r is Ok ==> final(self)@ == old(self)@.push(
                Mapping { vpn, large: false, pfn, prot },
            ),
            r is Err ==> final(self)@ == old(self)@,
    {
        self.install(Mapping { vpn, large: false, pfn, prot })
    }

    /// Installs a large-page entry mapping the `PMD_PAGES` virtual pages
    /// starting at `vpn` to the frames starting at `pfn`, with protection
    /// `prot`. Fails with [`Error::InvalidRange`], installing nothing,
    /// exactly when the run would share a page with an existing entry or
    /// leave the page-number space.
    pub fn map_large(&mut self, vpn: u64, pfn: u64, prot: u64) -> (r: Result<(), Error>)
        requires
            old(self).wf(),
        ensures
            final(self).wf(),
            r is Ok <==> vpn + PMD_PAGES <= u64::MAX && (forall|k: int|
                0 <= k < old(self)@.len() ==> !overlaps(vpn, PMD_PAGES, #[trigger] old(self)@[k])),
            r is Ok ==> final(self)@ == old(self)@.push(
                Mapping { vpn, large: true, pfn, prot },
            ),
            r is Err ==> final(self)@ == old(self)@,
    {
        self.install(Mapping { vpn, large: true, pfn, prot })
    }

    /// Installs `m` unless it overlaps an existing entry or wraps around.
    fn install(&mut self, m: Mapping) -> (r: Result<(), Error>)
        requires
            old(self).wf(),
        ensures
            final(self).wf(),
            r is Ok <==> m.vpn + m.pages() <= u64::MAX && (forall|k: int|
                0 <= k < old(self)@.len() ==> !overlaps(m.vpn, m.pages(), #[trigger] old(
                    self,
                )@[k])),
            r is Ok ==> final(self)@ == old(self)@.push(m),
            r is Err ==> final(self)@ == old(self)@,
    {
        let pages = if m.large {
            PMD_PAGES
        } else {
            PTE_PAGES
        };
        if m.vpn > u64::MAX - pages {
            return Err(Error::InvalidRange);
        }
        let n = self.entries.len();
        let mut k: usize = 0;
        while k < n
            invariant
                n == self@.len(),
                k <= n,
                pages == m.pages(),
                m.vpn + m.pages() <= u64::MAX,
                self.wf(),
                self@ == old(self)@,
                forall|t: int| 0 <= t < k ==> !overlaps(m.vpn, m.pages(), #[trigger] self@[t]),
            decreases n - k,
        {
            let e = self.entries[k];
            let e_pages = if e.large {
                PMD_PAGES
            } else {
                PTE_PAGES
            };
            if m.vpn < e.vpn + e_pages && e.vpn < m.vpn + pages {
                return Err(Error::InvalidRange);
            }
            k = k + 1;
        }
        self.entries.push(m);
        Ok(())
    }
}

/// In a well-formed table at most one entry maps a given virtual page, so a
/// lookup resolves to the one entry covering the address. Together with
/// [`Pgtable::set_pgtable`]'s contract this makes a rewrite visible to any
/// subsequent walk: a later lookup of the same address lands on the same
/// slot and reads the frame and protection just installed.
pub proof fn lemma_covering_entry_unique(entries: Seq<Mapping>, vpn: u64, i: int, j: int)
    requires
        table_wf(entries),
        0 <= i < entries.len(),
        0 <= j < entries.len(),
        covers(entries[i], vpn),
        covers(entries[j], vpn),
    ensures
        i == j,
{
    if i != j {
        assert(overlaps(entries[i].vpn, entries[i].pages(), entries[j]));
    }
}

/// The handle refers to slot `slot` of `table`, and the slot has the
/// granularity the handle claims.
pub open spec fn handle_valid(slot: int, large: bool, table: &PageTable) -> bool {
    0 <= slot < table@.len() && table@[slot].large == large
}

/// The accessor contract shared by the page-table leaf granularities: each
/// handle names a live table slot and can read its frame number and
/// protection value, or rewrite them in place.
pub trait Pgtable: Sized {
    /// The table slot this handle refers to.
    spec fn slot(&self) -> int;

    /// Whether this handle refers to a large-page entry.
    spec fn is_large(&self) -> bool;

    /// The number of base pages covered by this one entry: 1 for a base-page
    /// leaf, [`PMD_PAGES`] for a large-page leaf.
    fn order(&self) -> (r: u64)
        ensures
            r == if self.is_large() {
                PMD_PAGES
            } else {
                PTE_PAGES
            },
    ;

    /// The physical frame number the entry currently references.
    fn pfn(&self, table: &PageTable) -> (r: u64)
        requires
            handle_valid(self.slot(), self.is_large(), table),
        ensures
            r == table@[self.slot()].pfn,
    ;

    /// The opaque protection value currently installed in the entry.
    fn pgprot(&self, table: &PageTable) -> (r: u64)
        requires
            handle_valid(self.slot(), self.is_large(), table),
        ensures
            r == table@[self.slot()].prot,
    ;

    /// Overwrites the live entry with a translation built from `new_pfn` and
    /// `new_prot`, keeping the slot's placement and granularity. The rewrite
    /// is visible to any subsequent lookup or read; translations cached
    /// elsewhere are not invalidated by this call — invalidating them is the
    /// caller's responsibility. `new_pfn` and `new_prot` should come from the
    /// `pfn`/`pgprot` pair of an entry at the same granularity; the call does
    /// not check that pairing.
    fn set_pgtable(&self, table: &mut PageTable, new_pfn: u64, new_prot: u64)
        requires
            handle_valid(self.slot(), self.is_large(), old(table)),
        ensures
            final(table)@ == old(table)@.update(
                self.slot(),
                Mapping {
                    vpn: old(table)@[self.slot()].vpn,
                    large: old(table)@[self.slot()].large,
                    pfn: new_pfn,
                    prot: new_prot,
                },
            ),
            old(table).wf() ==> final(table).wf(),
    ;
}

/// A handle to an installed base-page (PTE) leaf entry.
pub struct Pte {
    slot: usize,
}

/// A handle to an installed large-page (PMD) leaf entry.
pub struct Pmd {
    slot: usize,
}

impl Pgtable for Pte {
    closed spec fn slot(&self) -> int {
        self.slot as int
    }

    open spec fn is_large(&self) -> bool {
        false
    }

    fn order(&self) -> (r: u64) {
        PTE_PAGES
    }

    fn pfn(&self, table: &PageTable) -> (r: u64) {
        table.entries[self.slot].pfn
    }

    fn pgprot(&self, table: &PageTable) -> (r: u64) {
        table.entries[self.slot].prot
    }

    fn set_pgtable(&self, table: &mut PageTable, new_pfn: u64, new_prot: u64) {
        set_slot(table, self.slot, new_pfn, new_prot);
    }
}

impl Pgtable for Pmd {
    closed spec fn slot(&self) -> int {
        self.slot as int
    }

    open spec fn is_large(&self) -> bool {
        true
    }

    fn order(&self) -> (r: u64) {
        PMD_PAGES
    }

    fn pfn(&self, table: &PageTable) -> (r: u64) {
        table.entries[self.slot].pfn
    }

    fn pgprot(&self, table: &PageTable) -> (r: u64) {
        table.entries[self.slot].prot
    }

    fn set_pgtable(&self, table: &mut PageTable, new_pfn: u64, new_prot: u64) {
        set_slot(table, self.slot, new_pfn, new_prot);
    }
}

/// The granularity levels a lookup can resolve to.
pub enum PageLevel {
    /// PTE level: a base-page leaf.
    Pte(Pte),
    /// PMD level: a large-page leaf.
    Pmd(Pmd),
}

impl Pgtable for PageLevel {
    open spec fn slot(&self) -> int {
        match self {
            PageLevel::Pte(h) => h.slot(),
            PageLevel::Pmd(h) => h.slot(),
        }
    }

    open spec fn is_large(&self) -> bool {
        self is Pmd
    }

    fn order(&self) -> (r: u64) {
        match self {
            PageLevel::Pte(h) => h.order(),
            PageLevel::Pmd(h) => h.order(),
        }
    }

    fn pfn(&self, table: &PageTable) -> (r: u64) {
        match self {
            PageLevel::Pte(h) => h.pfn(table),
            PageLevel::Pmd(h) => h.pfn(table),
        }
    }

    fn pgprot(&self, table: &PageTable) -> (r: u64) {
        match self {
            PageLevel::Pte(h) => h.pgprot(table),
            PageLevel::Pmd(h) => h.pgprot(table),
        }
    }

    fn set_pgtable(&self, table: &mut PageTable, new_pfn: u64, new_prot: u64) {
        match self {
            PageLevel::Pte(h) => h.set_pgtable(table, new_pfn, new_prot),
            PageLevel::Pmd(h) => h.set_pgtable(table, new_pfn, new_prot),
        }
    }
}

/// Rewrites slot `slot` of the table with a new frame and protection, keeping
/// its placement and granularity.
fn set_slot(table: &mut PageTable, slot: usize, new_pfn: u64, new_prot: u64)
    requires
        slot < old(table)@.len(),
    ensures
        final(table)@ == old(table)@.update(
            slot as int,
            Mapping {
                vpn: old(table)@[slot as int].vpn,
                large: old(table)@[slot as int].large,
                pfn: new_pfn,
                prot: new_prot,
            },
        ),
        old(table).wf() ==> final(table).wf(),
{
    let e = table.entries[slot];
    table.entries[slot] = Mapping { vpn: e.vpn, large: e.large, pfn: new_pfn, prot: new_prot };
    proof {
        if old(table).wf() {
            assert forall|i: int, j: int|
                #![trigger table@[i], table@[j]]
                0 <= i < table@.len() && 0 <= j < table@.len() && i != j implies !overlaps(
                table@[i].vpn,
                table@[i].pages(),
                table@[j],
            ) by {
                assert(table@[i].vpn == old(table)@[i].vpn);
                assert(table@[i].large == old(table)@[i].large);
                assert(table@[j].vpn == old(table)@[j].vpn);
                assert(table@[j].large == old(table)@[j].large);
                assert(!overlaps(old(table)@[i].vpn, old(table)@[i].pages(), old(table)@[j]));
            };
        }
    }
}

/// Walks the translation structure for `address` and returns a handle to the
/// leaf entry that currently maps it, tagged with the granularity level at
/// which the address is mapped: a [`PageLevel::Pmd`] handle exactly when the
/// covering entry is a large-page leaf, a [`PageLevel::Pte`] handle when it
/// is a base-page leaf, the inner handle naming the same slot. Fails with
/// [`Error::NotMapped`] exactly when no entry covers the address's virtual
/// page.
pub fn lookup_address(table: &PageTable, address: usize) -> (r: Result<PageLevel, Error>)
    ensures
        r is Ok <==> exists|i: int| 0 <= i < table@.len() && covers(#[trigger] table@[i], vpn_of(address)),
        r matches Ok(h) ==> handle_valid(h.slot(), h.is_large(), table) && covers(
            table@[h.slot()],
            vpn_of(address),
        ),
        r matches Ok(h) ==> (h is Pmd <==> table@[h.slot()].large),
        r matches Ok(h) ==> match h {
            PageLevel::Pte(inner) => inner.slot() == h.slot() && handle_valid(
                inner.slot(),
                inner.is_large(),
                table,
            ),
            PageLevel::Pmd(inner) => inner.slot() == h.slot() && handle_valid(
                inner.slot(),
                inner.is_large(),
                table,
            ),
        },
        r is Err ==> r == Err::<PageLevel, Error>(Error::NotMapped),
{
    let vpn = (address / PAGE_SIZE) as u64;
    let n = table.entries.len();
    let mut k: usize = 0;
    while k < n
        invariant
            n == table@.len(),
            k <= n,
            vpn == vpn_of(address),
            forall|t: int| 0 <= t < k ==> !covers(#[trigger] table@[t], vpn),
        decreases n - k,
    {
        let e = table.entries[k];
        let pages = if e.large {
            PMD_PAGES
        } else {
            PTE_PAGES
        };
        if e.vpn <= vpn && vpn - e.vpn < pages {
            if e.large {
                return Ok(PageLevel::Pmd(Pmd { slot: k }));
            } else {
                return Ok(PageLevel::Pte(Pte { slot: k }));
            }
        }
        k = k + 1;
    }
    Err(Error::NotMapped)
}

} // verus!
