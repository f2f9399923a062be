use rookiedb::table::page::manager::{
    calculate_page_num, calculate_part_num, checked_virtual_page_num, effective_page_size,
    header_entry_count, virtual_data_page_offset, virtual_header_page_offset, virtual_page_num,
    DATA_PAGES_PER_HEADER, DEFAULT_PAGE_SIZE, MAX_HEADER_PAGES,
};
use rookiedb::table::page::partition::PartitionHandle;
use rookiedb::utils::bitmap::Bitmap;

#[test]
fn first_fit_reuses_the_released_page() {
    let mut part = PartitionHandle::new(3);
    let a = part.alloc_page().unwrap().page_num;
    let b = part.alloc_page().unwrap().page_num;
    let c = part.alloc_page().unwrap().page_num;
    assert_eq!((a, b, c), (0, 1, 2));
    part.release_page(b);
    assert!(part.is_not_allocated_page(b));
    let d = part.alloc_page().unwrap().page_num;
    assert_eq!(d, b);
    assert_eq!(part.alloc_page().unwrap().page_num, 3);
}

#[test]
fn alloc_then_release_round_trip() {
    let mut part = PartitionHandle::new(0);
    let p = part.alloc_page().unwrap().page_num;
    assert!(!part.is_not_allocated_page(p));
    part.release_page(p);
    assert!(part.is_not_allocated_page(p));
}

#[test]
fn layout_offsets() {
    assert_eq!(DEFAULT_PAGE_SIZE, 4096);
    assert_eq!(MAX_HEADER_PAGES, 2048);
    assert_eq!(DATA_PAGES_PER_HEADER, 32768);
    assert_eq!(virtual_header_page_offset(0), 4096);
    assert_eq!(virtual_header_page_offset(1), (1 + 32769) * 4096);
    assert_eq!(virtual_data_page_offset(0), 2 * 4096);
    assert_eq!(virtual_data_page_offset(5), 7 * 4096);
    assert_eq!(virtual_data_page_offset(32768), (2 + 1 + 32768) * 4096);
    assert_eq!(effective_page_size(), 4060);
    assert_eq!(header_entry_count(), 404);
}

#[test]
fn virtual_page_numbers() {
    assert_eq!(virtual_page_num(3, 17), 30_000_000_017);
    assert_eq!(calculate_part_num(30_000_000_017), 3);
    assert_eq!(calculate_page_num(30_000_000_017), 17);
    assert_eq!(checked_virtual_page_num(3, 17), Some(30_000_000_017));
    assert_eq!(checked_virtual_page_num(3, 10_000_000_000), None);
    assert_eq!(checked_virtual_page_num(1_844_674_407, 3_709_551_615), Some(u64::MAX));
    assert_eq!(checked_virtual_page_num(1_844_674_407, 3_709_551_616), None);
    assert_eq!(checked_virtual_page_num(1_844_674_408, 0), None);
}

#[test]
fn alloc_reports_the_pages_to_persist() {
    let mut part = PartitionHandle::new(1);
    let update = part.alloc_page_with_index(1, 2);
    assert_eq!(update.page_num, 32768 + 2);
    assert_eq!(update.writes.len(), 2);
    assert_eq!(update.writes[0].offset, 0);
    assert_eq!(update.writes[0].data.len(), 4096);
    assert_eq!(&update.writes[0].data[0..6], &[0, 0, 0, 1, 0, 0]);
    assert_eq!(update.writes[1].offset, virtual_header_page_offset(1));
    assert_eq!(&update.writes[1].data[0..4], &[0, 0, 1, 0]);
    assert!(!part.is_not_allocated_page(32770));
    assert!(part.is_not_allocated_page(0));
    assert_eq!(part.part_num(), 1);
}

#[test]
fn release_reports_the_zeroed_page() {
    let mut part = PartitionHandle::new(1);
    part.alloc_page().unwrap();
    let update = part.release_page(0);
    assert_eq!(update.writes.len(), 3);
    assert_eq!(update.writes[0].offset, virtual_data_page_offset(0));
    assert!(update.writes[0].data.iter().all(|b| *b == 0));
    assert_eq!(update.writes[0].data.len(), 4096);
    assert_eq!(update.writes[1].offset, 0);
    assert_eq!(&update.writes[1].data[0..2], &[0, 1]);
    assert_eq!(update.writes[2].offset, virtual_header_page_offset(0));
    assert!(update.writes[2].data.iter().all(|b| *b == 0));
}

#[test]
fn open_reads_the_master_page_back() {
    let mut part = PartitionHandle::new(7);
    part.alloc_page_with_index(0, 1);
    let update = part.alloc_page_with_index(2, 5);
    let master = update.writes[0].data.clone();
    let header2 = update.writes[1].data.clone();
    let mut again = PartitionHandle::open(7, &master);
    assert_eq!(again.active_headers(), vec![0, 2]);
    assert!(again.is_not_allocated_page(2 * 32768 + 5));
    assert!(again.load_header_page(2, &header2));
    assert!(!again.load_header_page(1, &header2));
    assert!(!again.is_not_allocated_page(2 * 32768 + 5));
    assert!(again.is_not_allocated_page(1));
    let fresh = PartitionHandle::open(7, &[]);
    assert!(fresh.active_headers().is_empty());
    let image = PartitionHandle::write_master_page(fresh.master_bitmap());
    assert!(image.iter().all(|b| *b == 0));
    assert_eq!(image.len(), 4096);
}

#[test]
fn release_data_pages_lists_everything() {
    let mut part = PartitionHandle::new(0);
    part.alloc_page_with_index(0, 3);
    part.alloc_page_with_index(4, 0);
    part.alloc_page_with_index(0, 70);
    let released = part.release_data_pages();
    assert_eq!(released.pages, vec![3, 70, 4 * 32768]);
    assert_eq!(released.headers, vec![0, 4]);
    assert!(part.is_not_allocated_page(3));
    assert!(part.active_headers().is_empty());
    assert_eq!(part.alloc_page().unwrap().page_num, 0);
}

#[test]
fn header_page_image_has_one_byte_per_slot() {
    let mut bitmap = Bitmap::new(32768);
    bitmap.set(0);
    bitmap.set(4095);
    bitmap.set(4096);
    let image = PartitionHandle::write_header_page(&bitmap);
    assert_eq!(image.len(), 4096);
    assert_eq!(image[0], 1);
    assert_eq!(image[1], 0);
    assert_eq!(image[4095], 1);
}
