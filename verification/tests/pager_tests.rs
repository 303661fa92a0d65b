use database::page::{decode_leaf, PAGE_SIZE};
use database::pager::{zeroed_page, Fetch, Pager, MAX_RESIDENT};

#[test]
fn store_over_an_empty_file_has_an_empty_leaf_as_page_zero() {
    let pager = Pager::open(0);
    assert_eq!(pager.plan(0), Fetch::Resident);
    let page = pager.page(0).unwrap();
    assert_eq!(page.len(), PAGE_SIZE);
    assert!(decode_leaf(page).unwrap().is_empty());
    assert_eq!(pager.file_pages(), 0);
    assert_eq!(pager.resident_pages(), vec![0]);
    assert_eq!(pager.resident_count(), 1);
    assert_eq!(pager.plan(1), Fetch::Fresh);
}

#[test]
fn store_over_a_file_loads_pages_when_asked() {
    let pager = Pager::open(3 * PAGE_SIZE as u64);
    assert_eq!(pager.file_pages(), 3);
    assert!(pager.resident_pages().is_empty());
    assert_eq!(pager.resident_count(), 0);
    assert_eq!(pager.plan(0), Fetch::Load { offset: 0 });
    assert_eq!(pager.plan(2), Fetch::Load { offset: 2 * PAGE_SIZE as u64 });
    assert_eq!(pager.plan(3), Fetch::Fresh);
    assert!(pager.page(0).is_none());
}

#[test]
fn every_page_number_behind_the_file_is_a_page_of_zeros() {
    let pager = Pager::open(3 * PAGE_SIZE as u64);
    assert_eq!(pager.plan(99), Fetch::Fresh);
    assert_eq!(pager.plan(100), Fetch::Fresh);
    assert_eq!(pager.plan(100_000), Fetch::Fresh);
    assert_eq!(pager.plan(u32::MAX), Fetch::Fresh);
    assert!(pager.page(u32::MAX).is_none());
    assert_eq!(pager.flush_plan(u32::MAX), None);
}

#[test]
fn page_of_a_large_number_within_the_file_is_read() {
    let pager = Pager::open(501 * PAGE_SIZE as u64);
    assert_eq!(pager.file_pages(), 501);
    assert_eq!(pager.plan(500), Fetch::Load { offset: 500 * PAGE_SIZE as u64 });
    assert_eq!(pager.plan(501), Fetch::Fresh);
}

#[test]
fn page_count_is_the_length_divided_by_the_page_size() {
    assert_eq!(Pager::open(PAGE_SIZE as u64 - 1).file_pages(), 0);
    assert_eq!(Pager::open(PAGE_SIZE as u64).file_pages(), 1);
    assert_eq!(Pager::open(2 * PAGE_SIZE as u64 + 17).file_pages(), 2);
    // A page that begins within the file is read, also where the file ends within it.
    let pager = Pager::open(2 * PAGE_SIZE as u64 + 17);
    assert_eq!(pager.plan(2), Fetch::Load { offset: 2 * PAGE_SIZE as u64 });
    assert_eq!(pager.plan(3), Fetch::Fresh);
}

#[test]
fn installed_page_is_resident() {
    let mut pager = Pager::open(2 * PAGE_SIZE as u64);
    let mut image = zeroed_page();
    image[7] = 42;
    assert!(pager.install(1, image.clone()));
    assert_eq!(pager.plan(1), Fetch::Resident);
    assert_eq!(pager.page(1), Some(&image));
    assert_eq!(pager.plan(0), Fetch::Load { offset: 0 });
    assert!(pager.install(5, zeroed_page()));
    assert_eq!(pager.resident_pages(), vec![1, 5]);
    image[8] = 43;
    assert!(pager.install(1, image.clone()));
    assert_eq!(pager.page(1), Some(&image));
    assert_eq!(pager.resident_pages(), vec![1, 5]);
    assert!(pager.install(3, zeroed_page()));
    assert_eq!(pager.resident_pages(), vec![1, 3, 5]);
    assert_eq!(pager.page(5), Some(&zeroed_page()));
}

#[test]
fn bytes_that_are_no_page_are_not_installed() {
    let mut pager = Pager::open(0);
    assert!(!pager.install(1, vec![0; PAGE_SIZE - 1]));
    assert!(!pager.install(1, Vec::new()));
    assert_eq!(pager.resident_pages(), vec![0]);
}

#[test]
fn no_more_pages_are_resident_than_may_be() {
    let mut pager = Pager::open(PAGE_SIZE as u64);
    for n in 0..MAX_RESIDENT as u32 {
        assert_ne!(pager.plan(2 * n), Fetch::Full);
        assert!(pager.install(2 * n, zeroed_page()));
    }
    assert_eq!(pager.resident_count(), MAX_RESIDENT);
    assert_eq!(pager.plan(1), Fetch::Full);
    assert_eq!(pager.plan(1000), Fetch::Full);
    assert_eq!(pager.plan(4), Fetch::Resident);
    assert!(!pager.install(1, zeroed_page()));
    assert_eq!(pager.resident_count(), MAX_RESIDENT);
    // A resident page can still be given new bytes.
    let mut image = zeroed_page();
    image[0] = 9;
    assert!(pager.install(4, image.clone()));
    assert_eq!(pager.page(4), Some(&image));
    // Once a page is released, another can come in.
    assert_eq!(pager.release(4), Some(image));
    assert_eq!(pager.release(4), None);
    assert_eq!(pager.plan(4), Fetch::Fresh);
    assert_eq!(pager.plan(0), Fetch::Resident);
    assert!(pager.install(1, zeroed_page()));
    assert_eq!(pager.plan(1), Fetch::Resident);
    assert_eq!(pager.resident_count(), MAX_RESIDENT);
}

#[test]
fn flush_of_a_page_that_is_not_resident_writes_nothing() {
    let mut pager = Pager::open(4 * PAGE_SIZE as u64);
    assert_eq!(pager.flush_plan(2), None);
    assert!(pager.install(2, zeroed_page()));
    assert_eq!(pager.flush_plan(2), Some(2 * PAGE_SIZE as u64));
    assert_eq!(pager.flush_plan(3), None);
    assert!(pager.install(250, zeroed_page()));
    assert_eq!(pager.flush_plan(250), Some(250 * PAGE_SIZE as u64));
}

#[test]
fn written_page_lengthens_the_file() {
    let mut pager = Pager::open(0);
    assert_eq!(pager.file_pages(), 0);
    assert_eq!(pager.flush_plan(0), Some(0));
    pager.written(0);
    assert_eq!(pager.file_pages(), 1);
    // Page 0 was released and is now read from the file.
    assert!(pager.release(0).is_some());
    assert_eq!(pager.plan(0), Fetch::Load { offset: 0 });
    assert_eq!(pager.plan(1), Fetch::Fresh);
    // A page behind the end, once written, puts the end behind it.
    assert!(pager.install(3, zeroed_page()));
    pager.written(3);
    assert_eq!(pager.file_pages(), 4);
    assert!(pager.release(3).is_some());
    assert_eq!(pager.plan(3), Fetch::Load { offset: 3 * PAGE_SIZE as u64 });
    assert_eq!(pager.plan(2), Fetch::Load { offset: 2 * PAGE_SIZE as u64 });
    assert_eq!(pager.plan(4), Fetch::Fresh);
    // A page within the file, written again, leaves the length as it is.
    assert!(pager.install(1, zeroed_page()));
    pager.written(1);
    assert_eq!(pager.file_pages(), 4);
}

#[test]
fn zeroed_page_is_a_page_of_zeros() {
    let page = zeroed_page();
    assert_eq!(page.len(), PAGE_SIZE);
    assert!(page.iter().all(|b| *b == 0));
}
