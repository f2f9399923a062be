use rookiedb::utils::bitmap::Bitmap;

#[test]
fn test() {
    let mut bitmap = Bitmap::new(2048);

    for i in 0..2048 {
        bitmap.set(i);
    }

    let mut iter = bitmap.iter();
    let mut expected = 0;
    while let Some(v) = iter.next() {
        println!("{}", v);
        assert_eq!(v, expected);
        expected += 1;
    }
    assert_eq!(expected, 2048);
}

#[test]
fn test_fragment() {
    let mut bitmap = Bitmap::new(5);

    bitmap.set(0);
    bitmap.set(2);
    bitmap.set(3);
    bitmap.set(4);

    assert_eq!(Some(1), bitmap.vacance());

    bitmap.set(1);

    assert_eq!(None, bitmap.vacance());
}

#[test]
fn set_and_clear_report_the_change_and_keep_the_count() {
    let mut bitmap = Bitmap::new(130);
    assert!(bitmap.is_empty());
    assert_eq!(bitmap.cap(), 130);
    assert!(bitmap.set(129));
    assert!(!bitmap.set(129));
    assert!(bitmap.set(64));
    assert_eq!(bitmap.len(), 2);
    assert_eq!(bitmap.free(), 128);
    assert!(bitmap.exist(64));
    assert!(!bitmap.exist(63));
    assert!(bitmap.clear(64));
    assert!(!bitmap.clear(64));
    assert_eq!(bitmap.len(), 1);
    assert!(!bitmap.is_full());
    let mut it = bitmap.iter();
    assert_eq!(it.next(), Some(129));
    assert_eq!(it.next(), None);
    assert_eq!(it.next(), None);
}

#[test]
fn iter_of_an_empty_bitmap_ends_at_once() {
    let bitmap = Bitmap::new(0);
    let mut it = bitmap.iter();
    assert_eq!(it.next(), None);
    assert!(bitmap.is_full());
    assert_eq!(bitmap.vacance(), None);
}
