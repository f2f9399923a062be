use rookiedb::error::Error;
use rookiedb::table::page::manager::{
    check_required_space, virtual_data_page_offset, PageManager, PAGES_PER_FILE,
};

fn manager_with_one_partition() -> (PageManager, usize) {
    let mut manager = PageManager::new("db".to_string());
    let part = manager.alloc_part().unwrap();
    (manager, part)
}

#[test]
fn manager_test_alloc_part() {
    let mut manager = PageManager::new("db".to_string());
    assert_eq!(manager.alloc_part().unwrap(), 0);
    assert_eq!(manager.alloc_part().unwrap(), 1);
    assert!(manager.get_partition(1).is_ok());
    assert!(matches!(manager.get_partition(2), Err(Error::NotFound(_))));
    // The counter moves to one above the larger of the two numbers.
    assert_eq!(manager.alloc_part_with_num(7).unwrap(), 8);
    assert_eq!(manager.alloc_part_with_num(3).unwrap(), 9);
    // The counter stands on the number just taken: the next try meets it,
    // and the one after gets the next number.
    assert!(matches!(manager.alloc_part(), Err(Error::Corrupted(_))));
    assert_eq!(manager.alloc_part().unwrap(), 10);
    assert_eq!(manager.path(), "db");
}

#[test]
fn manager_test_alloc_page() {
    let (mut manager, part) = manager_with_one_partition();
    let (vpn, update) = manager.alloc_page_with_part(part).unwrap();
    assert_eq!(vpn, 0);
    assert_eq!(update.page_num, 0);
    assert!(manager.is_page_allocated(vpn));
    let second = manager.alloc_part().unwrap();
    let (vpn2, update2) = manager.alloc_page_with_part(second).unwrap();
    assert_eq!(vpn2, 10_000_000_000);
    assert_eq!(update2.page_num, 0);
    assert!(matches!(manager.alloc_page_with_part(5), Err(Error::NotFound(_))));
    // A recorded allocation is applied again by its number.
    let (again, update3) = manager.alloc_page(10_000_000_000 + 32768 + 4).unwrap();
    assert_eq!(again, 10_000_032_772);
    assert_eq!(update3.page_num, 32772);
    assert!(manager.is_page_allocated(10_000_032_772));
    assert!(!manager.is_page_allocated(10_000_032_773));
    assert!(matches!(manager.alloc_page(50_000_000_000), Err(Error::NotFound(_))));
}

#[test]
fn manager_test_write_page() {
    let (mut manager, part) = manager_with_one_partition();
    let (vpn, _) = manager.alloc_page_with_part(part).unwrap();
    let write = manager.write_page(vpn, vec![7u8; 4096]).unwrap();
    assert_eq!(write.offset, virtual_data_page_offset(0));
    assert_eq!(write.data, vec![7u8; 4096]);
    assert!(matches!(manager.write_page(30_000_000_000, vec![0u8; 4096]), Err(Error::NotFound(_))));
}

#[test]
fn manager_test_read_page() {
    let (mut manager, part) = manager_with_one_partition();
    manager.alloc_page_with_part(part).unwrap();
    let (vpn, _) = manager.alloc_page_with_part(part).unwrap();
    assert_eq!(manager.read_page(vpn).unwrap(), virtual_data_page_offset(1));
    assert!(matches!(manager.read_page(30_000_000_000), Err(Error::NotFound(_))));
}

#[test]
fn page_manager_test_alloc_part() {
    let mut manager = PageManager::new("db".to_string());
    let part = manager.alloc_part().unwrap();
    manager.alloc_page_with_part(part).unwrap();
    manager.alloc_page_with_part(part).unwrap();
    let released = manager.release_part(part).unwrap();
    assert_eq!(released.pages, vec![0, 1]);
    assert_eq!(released.headers, vec![0]);
    assert!(matches!(manager.release_part(part), Err(Error::NotFound(_))));
    assert!(matches!(manager.get_partition(part), Err(Error::NotFound(_))));
    // The number of a released partition is not handed out again.
    assert_eq!(manager.alloc_part().unwrap(), 1);
}

#[test]
fn page_manager_test_alloc_page() {
    let (mut manager, part) = manager_with_one_partition();
    let a = manager.alloc_page_with_part(part).unwrap().0;
    let b = manager.alloc_page_with_part(part).unwrap().0;
    let c = manager.alloc_page_with_part(part).unwrap().0;
    assert_eq!((a, b, c), (0, 1, 2));
    let update = manager.release_page(b).unwrap();
    assert_eq!(update.page_num, 1);
    assert_eq!(update.writes.len(), 3);
    assert!(!manager.is_page_allocated(b));
    assert_eq!(manager.alloc_page_with_part(part).unwrap().0, b);
    assert!(matches!(manager.release_page(90_000_000_000), Err(Error::NotFound(_))));
}

#[test]
fn page_manager_test_write_page() {
    let mut manager = PageManager::new("db".to_string());
    manager.alloc_part_with_num(2).unwrap();
    let (vpn, _) = manager.alloc_page(30_000_000_000 + 40_000).unwrap();
    let write = manager.write_page(vpn, vec![1u8; 4096]).unwrap();
    assert_eq!(write.offset, (2 + 1 + 40_000) * 4096);
}

#[test]
fn page_manager_test_read_page() {
    let mut manager = PageManager::new("db".to_string());
    manager.alloc_part_with_num(2).unwrap();
    let (vpn, _) = manager.alloc_page(30_000_000_000 + 70_000).unwrap();
    assert_eq!(manager.read_page(vpn).unwrap(), (2 + 2 + 70_000) * 4096);
    assert!(!manager.is_page_allocated(30_000_000_000 + PAGES_PER_FILE as u64));
}

#[test]
fn partition_number_too_large_for_a_virtual_page_number() {
    let mut manager = PageManager::new("db".to_string());
    let part = manager.alloc_part_with_num(1_844_674_407).unwrap();
    assert_eq!(part, 1_844_674_408);
    assert!(matches!(manager.alloc_page_with_part(part), Err(Error::Invalid(_))));
    manager.set_empty_page_metadata_size(60);
    assert_eq!(manager.empty_page_metadata_size(), 4000);
}

#[test]
fn required_space_must_be_positive_and_fit() {
    assert!(check_required_space(1, 0).is_ok());
    assert!(check_required_space(4059, 0).is_ok());
    assert!(matches!(check_required_space(0, 0), Err(Error::Invalid(_))));
    assert!(matches!(check_required_space(4060, 0), Err(Error::TooLargeSize)));
    assert!(matches!(check_required_space(60, 4000), Err(Error::TooLargeSize)));
    assert!(check_required_space(59, 4000).is_ok());
    assert!(matches!(check_required_space(1, 5000), Err(Error::TooLargeSize)));
}
