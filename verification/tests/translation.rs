//! Translation lookup and entry rewriting: resolving addresses to leaf
//! entries, reading their frame and protection, and remapping in place.

use paged_mem::page::PAGE_SIZE;
use paged_mem::pgtable::{
    lookup_address, PageLevel, PageTable, Pgtable, PMD_PAGES, PTE_PAGES,
};
use paged_mem::Error;

#[test]
fn lookup_mapped_base_page() {
    let mut t = PageTable::new();
    t.map_page(5, 1234, 0x55).unwrap();

    let addr = 5 * PAGE_SIZE + 123;
    let h = lookup_address(&t, addr).unwrap();
    assert!(matches!(h, PageLevel::Pte(_)));
    assert_eq!(h.order(), PTE_PAGES);
    assert_eq!(h.pfn(&t), 1234);
    assert_eq!(h.pgprot(&t), 0x55);
}

#[test]
fn lookup_unmapped_address() {
    let mut t = PageTable::new();
    t.map_page(5, 1234, 0x55).unwrap();

    assert_eq!(lookup_address(&t, 4 * PAGE_SIZE).err(), Some(Error::NotMapped));
    assert_eq!(lookup_address(&t, 6 * PAGE_SIZE).err(), Some(Error::NotMapped));

    let empty = PageTable::new();
    assert_eq!(lookup_address(&empty, 0).err(), Some(Error::NotMapped));
}

#[test]
fn lookup_large_page() {
    let mut t = PageTable::new();
    t.map_large(512, 777, 0x3).unwrap();

    let first = lookup_address(&t, 512 * PAGE_SIZE).unwrap();
    assert!(matches!(first, PageLevel::Pmd(_)));
    assert_eq!(first.order(), PMD_PAGES);
    assert_eq!(first.pfn(&t), 777);

    let last = lookup_address(&t, (512 + 511) * PAGE_SIZE + 4095).unwrap();
    assert_eq!(last.pfn(&t), 777);

    assert_eq!(
        lookup_address(&t, 511 * PAGE_SIZE).err(),
        Some(Error::NotMapped)
    );
    assert_eq!(
        lookup_address(&t, 1024 * PAGE_SIZE).err(),
        Some(Error::NotMapped)
    );
}

#[test]
fn remap_scenario() {
    let mut t = PageTable::new();
    t.map_page(7, 42, 0x7).unwrap();
    let addr = 7 * PAGE_SIZE;

    let h = lookup_address(&t, addr).unwrap();
    let old_frame = h.pfn(&t);
    let old_prot = h.pgprot(&t);
    assert_eq!(old_frame, 42);

    h.set_pgtable(&mut t, 99, old_prot);

    let again = lookup_address(&t, addr).unwrap();
    assert_eq!(again.pfn(&t), 99);
    assert_eq!(again.pgprot(&t), old_prot);
    assert_eq!(again.order(), PTE_PAGES);
}

#[test]
fn reread_after_set_on_same_handle() {
    let mut t = PageTable::new();
    t.map_page(3, 10, 0x1).unwrap();

    let h = lookup_address(&t, 3 * PAGE_SIZE).unwrap();
    h.set_pgtable(&mut t, 20, 0x2);

    // The handle reads the live slot, not a cached copy.
    assert_eq!(h.pfn(&t), 20);
    assert_eq!(h.pgprot(&t), 0x2);
}

#[test]
fn set_preserves_other_entries() {
    let mut t = PageTable::new();
    t.map_page(1, 100, 0x1).unwrap();
    t.map_page(2, 200, 0x2).unwrap();

    let h1 = lookup_address(&t, PAGE_SIZE).unwrap();
    h1.set_pgtable(&mut t, 111, 0x9);

    let h2 = lookup_address(&t, 2 * PAGE_SIZE).unwrap();
    assert_eq!(h2.pfn(&t), 200);
    assert_eq!(h2.pgprot(&t), 0x2);
}

#[test]
fn map_overlap_rejected() {
    let mut t = PageTable::new();
    t.map_page(5, 1, 0).unwrap();
    assert_eq!(t.map_page(5, 2, 0), Err(Error::InvalidRange));

    // A large entry at page 0 covers pages 0..512, so page 5 collides.
    assert_eq!(t.map_large(0, 3, 0), Err(Error::InvalidRange));
    // Starting at page 512 it collides with nothing.
    t.map_large(512, 3, 0).unwrap();
    assert_eq!(t.map_page(700, 4, 0), Err(Error::InvalidRange));
}
