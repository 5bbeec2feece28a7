//! Paged-buffer behaviour: allocation sizes, bounds checking, round trips,
//! zeroing and comparison, including spans that cross page boundaries.

use paged_mem::page::{page_align, page_align_down, Page, PAGE_SIZE};
use paged_mem::{AllocError, Error};

#[test]
fn alloc_order_zero_total_size() {
    let p = Page::alloc_page(0).unwrap();
    assert_eq!(p.order(), 0);
    assert_eq!(p.total_size(), PAGE_SIZE);
}

#[test]
fn alloc_orders_total_size() {
    for order in 0..=4u32 {
        let p = Page::alloc_pages(0, order).unwrap();
        assert_eq!(p.order(), order);
        assert_eq!(p.total_size(), (1usize << order) * PAGE_SIZE);
    }
}

#[test]
fn alloc_too_large_order_fails() {
    assert_eq!(Page::alloc_pages(0, 11).err(), Some(AllocError));
    assert!(Page::alloc_pages(0, 10).is_ok());
}

#[test]
fn bounds_accepted_and_rejected() {
    let mut p = Page::alloc_pages(0, 1).unwrap();
    let total = p.total_size();
    assert_eq!(total, 2 * PAGE_SIZE);

    let src = vec![0x5Au8; total];
    assert_eq!(p.write_raw_multiple(&src, 0, total), Ok(()));
    assert_eq!(p.write_raw_multiple(&src, total - 1, 1), Ok(()));
    assert_eq!(p.write_raw_multiple(&src, 1, total), Err(Error::InvalidRange));
    assert_eq!(p.write_raw_multiple(&src, total, 1), Err(Error::InvalidRange));
    assert_eq!(p.write_raw_multiple(&src, total + 1, 0), Err(Error::InvalidRange));

    let mut dst = vec![0u8; total];
    assert_eq!(p.read_raw_multiple(&mut dst, 0, total), Ok(()));
    assert_eq!(p.read_raw_multiple(&mut dst, total - 2, 3), Err(Error::InvalidRange));

    assert_eq!(p.fill_zero_raw_multiple(0, total), Ok(()));
    assert_eq!(p.fill_zero_raw_multiple(2, total), Err(Error::InvalidRange));

    assert!(p.compare_raw_multiple(&src, 0, total).is_ok());
    assert_eq!(
        p.compare_raw_multiple(&src, total, 1).err(),
        Some(Error::InvalidRange)
    );
}

#[test]
fn boundary_len_zero_at_total_size() {
    let mut p = Page::alloc_page(0).unwrap();
    let total = p.total_size();
    let src: Vec<u8> = Vec::new();

    assert_eq!(p.write_raw_multiple(&src, total, 0), Ok(()));
    let mut dst: Vec<u8> = Vec::new();
    assert_eq!(p.read_raw_multiple(&mut dst, total, 0), Ok(()));
    assert_eq!(p.fill_zero_raw_multiple(total, 0), Ok(()));
    assert_eq!(p.compare_raw_multiple(&src, total, 0), Ok(Vec::new()));

    let one = vec![0xAAu8];
    assert_eq!(p.write_raw_multiple(&one, total, 1), Err(Error::InvalidRange));
}

#[test]
fn single_page_scenario() {
    let mut p = Page::alloc_page(0).unwrap();

    let too_long = vec![0xAAu8; 100];
    assert_eq!(
        p.write_raw_multiple(&too_long, 4000, 100),
        Err(Error::InvalidRange)
    );

    let fits = vec![0xAAu8; 96];
    assert_eq!(p.write_raw_multiple(&fits, 4000, 96), Ok(()));

    let mut back = vec![0u8; 96];
    assert_eq!(p.read_raw_multiple(&mut back, 4000, 96), Ok(()));
    assert_eq!(back, vec![0xAAu8; 96]);
}

#[test]
fn multi_page_scenario() {
    let mut p = Page::alloc_pages(0, 1).unwrap();

    let src: Vec<u8> = (0..200u32).map(|i| (i % 251) as u8).collect();
    assert_eq!(p.write_raw_multiple(&src, 4000, 200), Ok(()));

    let mut head = vec![0u8; 96];
    assert_eq!(p.read_raw_multiple(&mut head, 4000, 96), Ok(()));
    assert_eq!(head, src[0..96].to_vec());

    let mut tail = vec![0u8; 104];
    assert_eq!(p.read_raw_multiple(&mut tail, 4096, 104), Ok(()));
    assert_eq!(tail, src[96..200].to_vec());
}

#[test]
fn round_trip_across_boundaries() {
    let mut p = Page::alloc_pages(0, 2).unwrap();

    // A span covering parts of all four pages.
    let len = 3 * PAGE_SIZE;
    let offset = 2048;
    let src: Vec<u8> = (0..len as u32).map(|i| (i % 253) as u8).collect();
    assert_eq!(p.write_raw_multiple(&src, offset, len), Ok(()));

    let mut back = vec![0u8; len];
    assert_eq!(p.read_raw_multiple(&mut back, offset, len), Ok(()));
    assert_eq!(back, src);
}

#[test]
fn read_leaves_rest_of_dst_unchanged() {
    let mut p = Page::alloc_page(0).unwrap();
    let src = vec![1u8, 2, 3, 4];
    assert_eq!(p.write_raw_multiple(&src, 0, 4), Ok(()));

    let mut dst = vec![9u8; 10];
    assert_eq!(p.read_raw_multiple(&mut dst, 0, 4), Ok(()));
    assert_eq!(dst, vec![1, 2, 3, 4, 9, 9, 9, 9, 9, 9]);
}

#[test]
fn fill_zero_then_compare_zeros() {
    let mut p = Page::alloc_pages(0, 1).unwrap();

    let junk = vec![0xC3u8; 2000];
    assert_eq!(p.write_raw_multiple(&junk, 3000, 2000), Ok(()));

    assert_eq!(p.fill_zero_raw_multiple(3000, 2000), Ok(()));
    let reference = vec![0u8; 2000];
    assert_eq!(p.compare_raw_multiple(&reference, 3000, 2000), Ok(Vec::new()));
}

#[test]
fn compare_reports_exact_positions() {
    let mut p = Page::alloc_page(0).unwrap();
    assert_eq!(p.fill_zero_raw_multiple(0, PAGE_SIZE), Ok(()));

    let mut src = vec![0u8; 5];
    src[1] = 7;
    src[3] = 9;
    assert_eq!(
        p.compare_raw_multiple(&src, 100, 5),
        Ok(vec![101usize, 103])
    );

    // Writing the reference data into the span removes every mismatch.
    assert_eq!(p.write_raw_multiple(&src, 100, 5), Ok(()));
    assert_eq!(p.compare_raw_multiple(&src, 100, 5), Ok(Vec::new()));
}

#[test]
fn compare_positions_across_boundary() {
    let mut p = Page::alloc_pages(0, 1).unwrap();
    assert_eq!(p.fill_zero_raw_multiple(0, 2 * PAGE_SIZE), Ok(()));

    let src = vec![0xFFu8; 12];
    let expected: Vec<usize> = (4090..4102).collect();
    assert_eq!(p.compare_raw_multiple(&src, 4090, 12), Ok(expected));
}

#[test]
fn write_raw_stays_on_first_page() {
    let mut p = Page::alloc_pages(0, 1).unwrap();

    // The single-page write is bounded by one page even though the buffer
    // has two.
    let src = vec![0x11u8; 8];
    assert_eq!(p.write_raw(&src, PAGE_SIZE - 4, 8), Err(Error::InvalidRange));
    assert_eq!(p.write_raw(&src, PAGE_SIZE - 8, 8), Ok(()));

    let mut dst = vec![0u8; 8];
    assert_eq!(p.read_raw(&mut dst, PAGE_SIZE - 8, 8), Ok(()));
    assert_eq!(dst, vec![0x11u8; 8]);
}

#[test]
fn read_raw_spans_whole_buffer() {
    let mut p = Page::alloc_pages(0, 1).unwrap();
    let total = p.total_size();

    let src: Vec<u8> = (0..200u32).map(|i| (i % 251) as u8).collect();
    assert_eq!(p.write_raw_multiple(&src, 4000, 200), Ok(()));

    // A read crossing the page boundary succeeds.
    let mut back = vec![0u8; 200];
    assert_eq!(p.read_raw(&mut back, 4000, 200), Ok(()));
    assert_eq!(back, src);

    // A read into the second page alone succeeds too.
    let mut one = vec![0u8; 1];
    assert_eq!(p.read_raw(&mut one, PAGE_SIZE, 1), Ok(()));
    assert_eq!(one[0], src[96]);

    // Bounds are the whole buffer.
    let mut none: Vec<u8> = Vec::new();
    assert_eq!(p.read_raw(&mut none, total, 0), Ok(()));
    assert_eq!(p.read_raw(&mut one, total, 1), Err(Error::InvalidRange));
}

#[test]
fn fill_zero_raw_spans_whole_buffer() {
    let mut p = Page::alloc_pages(0, 1).unwrap();
    let total = p.total_size();

    let junk = vec![0xEEu8; 20];
    assert_eq!(p.write_raw_multiple(&junk, PAGE_SIZE - 10, 20), Ok(()));

    // Zeroing across the page boundary succeeds, and zeroing in the second
    // page alone does too.
    assert_eq!(p.fill_zero_raw(PAGE_SIZE - 10, 12), Ok(()));
    assert_eq!(p.fill_zero_raw(PAGE_SIZE + 2, 8), Ok(()));

    let reference = vec![0u8; 20];
    assert_eq!(
        p.compare_raw_multiple(&reference, PAGE_SIZE - 10, 20),
        Ok(Vec::new())
    );

    // Bounds are the whole buffer.
    assert_eq!(p.fill_zero_raw(total, 0), Ok(()));
    assert_eq!(p.fill_zero_raw(total, 1), Err(Error::InvalidRange));
}

#[test]
fn copy_from_user_source() {
    let mut p = Page::alloc_page(0).unwrap();
    let user = vec![0x42u8; 16];
    assert_eq!(p.copy_from_user_slice_raw(&user, 32, 16), Ok(()));

    let mut back = vec![0u8; 16];
    assert_eq!(p.read_raw(&mut back, 32, 16), Ok(()));
    assert_eq!(back, user);

    assert_eq!(
        p.copy_from_user_slice_raw(&user, PAGE_SIZE, 16),
        Err(Error::InvalidRange)
    );
}

#[test]
fn largest_order_round_trip() {
    let mut p = Page::alloc_pages(0, 10).unwrap();
    let total = p.total_size();
    assert_eq!(total, 1024 * PAGE_SIZE);

    // A span crossing the boundary between the last two pages.
    let src: Vec<u8> = (0..100u32).map(|i| (i * 3 % 256) as u8).collect();
    let offset = total - PAGE_SIZE - 50;
    assert_eq!(p.write_raw_multiple(&src, offset, 100), Ok(()));

    let mut back = vec![0u8; 100];
    assert_eq!(p.read_raw_multiple(&mut back, offset, 100), Ok(()));
    assert_eq!(back, src);

    assert_eq!(p.write_raw_multiple(&src, total - 50, 100), Err(Error::InvalidRange));
}

#[test]
fn page_align_values() {
    assert_eq!(page_align(0), 0);
    assert_eq!(page_align(1), PAGE_SIZE);
    assert_eq!(page_align(PAGE_SIZE), PAGE_SIZE);
    assert_eq!(page_align(PAGE_SIZE + 1), 2 * PAGE_SIZE);
    assert_eq!(page_align(2 * PAGE_SIZE - 1), 2 * PAGE_SIZE);
}

#[test]
fn page_align_down_values() {
    assert_eq!(page_align_down(0, PAGE_SIZE), 0);
    assert_eq!(page_align_down(PAGE_SIZE + 1, PAGE_SIZE), PAGE_SIZE);
    assert_eq!(page_align_down(2 * PAGE_SIZE - 1, PAGE_SIZE), PAGE_SIZE);
    assert_eq!(page_align_down(123, 10), 120);
}
