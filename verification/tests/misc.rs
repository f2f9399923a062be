use rookiedb::catalog::schema::{Schema, TableIndex};
use rookiedb::catalog::Catalog;
use rookiedb::concurrency::LockType;
use rookiedb::datatypes::array::scalar::{ScalarImpl, ScalarRefImpl};
use rookiedb::datatypes::array::TypeMismatch;
use rookiedb::datatypes::record::{new_record_id, Record, RecordId};
use rookiedb::error::Error;
use rookiedb::memory::frame::Frame;
use rookiedb::options::Options;
use rookiedb::table::cache::lru::{Lru, LruEntry};
use rookiedb::table::cache::{CacheEntry, Evictor, PageCache};
use rookiedb::table::manifest::{Manifest, ManifestEntry};
use rookiedb::table::metadata::TableMetadata;
use rookiedb::table::page::error::PageError;
use rookiedb::table::page::marker::{Data, Header};
use rookiedb::table::page::{DataPage, ForceResult, HeaderPage, PageRef};
use rookiedb::utils::checksum::{is_same, same_crc};
use rookiedb::utils::compression::{
    compress, decoded_outcome, decompress_into, length_prefix, snappy_outcome, zstd_outcome,
    Compression,
};

#[test]
fn catalog_tables() {
    let mut catalog = Catalog::new();
    assert!(matches!(catalog.get_table("t"), Err(Error::NotFound(_))));
    let index = TableIndex { name: "by_id".to_string(), cols: vec![0, 2] };
    catalog.create_table("t".to_string(), Schema::new(vec![index])).unwrap();
    catalog.create_table("u".to_string(), Schema::new(vec![])).unwrap();
    assert!(matches!(
        catalog.create_table("t".to_string(), Schema::new(vec![])),
        Err(Error::Corrupted(_))
    ));
    let schema = catalog.get_table("t").unwrap();
    assert_eq!(schema.get_indcies().len(), 1);
    assert_eq!(schema.get_indcies()[0].name, "by_id");
    assert_eq!(schema.get_indcies()[0].cols, vec![0, 2]);
    assert_eq!(catalog.get_table("u").unwrap().get_indcies().len(), 0);
    catalog.drop_table("t").unwrap();
    assert!(matches!(catalog.drop_table("t"), Err(Error::NotFound(_))));
    assert!(catalog.get_table("u").is_ok());
}

#[test]
fn schema_add_keeps_the_schema() {
    let mut schema = Schema::new(vec![TableIndex { name: "a".to_string(), cols: vec![1] }]);
    schema.add();
    assert_eq!(schema.get_indcies().len(), 1);
    let meta = TableMetadata::new(schema);
    assert_eq!(meta.get_schema().get_indcies()[0].name, "a");
    let mut sized = rookiedb::table::schema::Schema::with_size(24);
    sized.add();
    assert_eq!(sized.size(), 24);
}

#[test]
fn error_kinds() {
    assert!(Error::Corrupted("x".to_string()).is_corrupted());
    assert!(Error::NotFound("x".to_string()).is_not_found());
    assert!(Error::Invalid("x".to_string()).is_invalid());
    assert!(!Error::TooLargeSize.is_invalid());
    let e = PageError::InvalidPage("header".to_string(), "data".to_string());
    match e {
        PageError::InvalidPage(want, got) => assert_eq!((want.as_str(), got.as_str()), ("header", "data")),
    }
}

#[test]
fn plain_types() {
    let id = new_record_id(9, 3);
    assert_eq!((id.0, id.1), (9, 3));
    let RecordId(page, entry) = id;
    assert_eq!((page, entry), (9, 3));
    let _ = Record {};
    let _ = Manifest {};
    assert!(matches!(LockType::SIX, LockType::SIX));
    assert!(matches!(ManifestEntry::AllocPage, ManifestEntry::AllocPage));
    let mismatch = TypeMismatch("Int32", "String");
    assert_eq!(mismatch.0, "Int32");
    assert_eq!(mismatch.1, "String");
    assert_eq!(ScalarImpl::Int32(4).identifier(), "Int32");
    assert_eq!(ScalarImpl::String("a".to_string()).identifier(), "String");
    assert_eq!(ScalarImpl::Bool(true).identifier(), "Bool");
    assert!(matches!(ScalarRefImpl::String("a"), ScalarRefImpl::String("a")));
}

#[test]
fn default_options() {
    let options = Options::default();
    assert_eq!(options.path, "");
    assert_eq!(options.num_records_per_page, 8);
    assert_eq!(options.stats_null_method, "nulls_equal");
    assert!(options.stats_persistent);
}

#[test]
fn header_pages_chain() {
    let mut first = HeaderPage::new(0, 0, true);
    assert_eq!(first.data_page_nums(), 0);
    assert!(first.iter().next().is_none());
    assert_eq!(first.get_num_data_pages(), 0);
    let mut second = HeaderPage::new(1, 1, false);
    second.set_data_page_nums(7);
    let mut third = HeaderPage::new(2, 2, false);
    third.set_data_page_nums(400);
    second.set_next(third);
    first.set_data_page_nums(3);
    first.set_next(second);
    let mut it = first.iter();
    let mut seen = Vec::new();
    while let Some(page) = it.next() {
        seen.push(page.data_page_nums());
    }
    assert_eq!(seen, vec![7, 400]);
    // The pages after the first one are counted.
    assert_eq!(first.get_num_data_pages(), 407);
}

#[test]
fn page_refs_keep_their_kind() {
    let header: PageRef<Header> = PageRef::new_header_page(0, 0, true);
    assert_eq!(header.as_header_page().data_page_nums(), 0);
    match header.forget_type().force() {
        ForceResult::Header(h) => assert_eq!(h.as_header_page().data_page_nums(), 0),
        ForceResult::Data(_) => panic!("a header page was expected"),
    }
    let mut page = DataPage::new();
    assert_eq!(page.len(), 0);
    let bytes: Vec<u8> = (0..4096).map(|i| (i % 251) as u8).collect();
    page.fill(&bytes);
    assert_eq!(page.bytes(), &bytes);
    let data: PageRef<Data> = PageRef::from_data_page(page);
    assert_eq!(data.num_records(), 0);
    assert_eq!(data.as_data_page().bytes()[250], 250);
    match data.forget_type().force() {
        ForceResult::Data(d) => assert_eq!(d.as_data_page().bytes().len(), 4096),
        ForceResult::Header(_) => panic!("a data page was expected"),
    }
    let fresh: PageRef<Data> = PageRef::new_data_page();
    assert_eq!(fresh.num_records(), 0);
    assert!(!fresh.is_header());
    assert!(PageRef::new_header_page(1, 1, false).is_header());
    let boxed = PageRef::from_header_page(HeaderPage::new(3, 4, false));
    assert!(matches!(boxed.forget_type().force(), ForceResult::Header(_)));
}

fn some_page() -> PageRef<rookiedb::table::page::marker::HeaderOrData> {
    PageRef::<Data>::new_data_page().forget_type()
}

#[test]
fn caches_drop_the_oldest_entry() {
    let mut lru = Lru::with_capacity(3);
    lru.add(LruEntry::new(1, some_page()));
    assert_eq!(lru.len(), 1);
    lru.add(LruEntry::new(2, some_page()));
    // With two entries a third would reach the capacity: the oldest leaves.
    lru.add(LruEntry::new(3, some_page()));
    assert_eq!(lru.len(), 2);
    assert!(lru.lookup(1).is_none());
    assert_eq!(lru.lookup(2).unwrap().num(), 2);
    assert_eq!(lru.lookup(3).unwrap().num(), 3);
    assert!(matches!(lru.lookup(3).unwrap().page().as_data_page().len(), 0));

    let mut cache = PageCache::with_capacity(10);
    for n in 0..20u64 {
        cache.add(CacheEntry::new(n, some_page()));
    }
    assert_eq!(cache.len(), 9);
    assert!(cache.lookup(10).is_none());
    assert_eq!(cache.lookup(11).unwrap().num(), 11);
    assert_eq!(cache.lookup(19).unwrap().page().as_data_page().len(), 0);
    let mut zero = PageCache::with_capacity(0);
    zero.add(CacheEntry::new(5, some_page()));
    zero.add(CacheEntry::new(6, some_page()));
    assert_eq!(zero.len(), 1);
    assert_eq!(zero.lookup(6).unwrap().num(), 6);
    let _ = Evictor::Lru(lru);
}

#[test]
fn frames_pin_and_free() {
    let mut frame = Frame::with_contents(bytes::Bytes::from(vec![1u8, 2, 3]), 4, 77, true);
    assert_eq!(frame.len(), 3);
    assert_eq!(frame.page_num(), 77);
    assert!(frame.is_valid() && !frame.is_freed() && !frame.is_pinned());
    frame.pin();
    assert!(frame.is_pinned());
    frame.unpin();
    assert!(!frame.is_pinned());
    // A valid dirty frame is pinned for the flush and unpinned after it.
    frame.flush();
    assert!(!frame.is_pinned());
    let mut first_free: isize = 9;
    frame.set_free(&mut first_free);
    assert_eq!(first_free, 4);
    assert!(frame.is_freed() && !frame.is_valid());
    // A frame that is not valid keeps the pin of the flush.
    frame.flush();
    assert!(frame.is_pinned());
    frame.unpin();
    frame.set_used(&mut first_free);
    assert_eq!(first_free, 9);
    assert!(frame.is_valid());
    frame.invalidate();
    assert_eq!(frame.len(), 0);
    assert!(frame.is_valid());
    let mut clean = Frame::with_contents(bytes::Bytes::new(), 0, 1, false);
    clean.invalidate();
    assert!(clean.is_pinned());
}

#[test]
fn checksum_of_known_bytes() {
    assert!(is_same(b"123456789", 0xCBF4_3926));
    assert!(!is_same(b"123456789", 0xCBF4_3927));
    assert!(is_same(b"", 0));
    assert!(same_crc(5, 5) && !same_crc(5, 6));
}

#[test]
fn compression_round_trips() {
    let raw: Vec<u8> = (0..5000u32).map(|i| (i % 7) as u8).collect();
    assert_eq!(compress(Compression::none(), &raw).unwrap(), raw);
    let snappy = compress(Compression::snappy(), &raw).unwrap();
    assert!(snappy.len() < raw.len());
    assert_ne!(snappy, raw);
    let mut target = vec![0u8; 8000];
    decompress_into(Compression::snappy(), &snappy, &mut target).unwrap();
    assert_eq!(target, raw);
    let zstd = compress(Compression::zstd(), &raw).unwrap();
    assert_eq!(&zstd[0..8], &5000u64.to_le_bytes());
    assert!(zstd.len() < raw.len());
    let mut target = Vec::with_capacity(8000);
    decompress_into(Compression::zstd(), &zstd[8..], &mut target).unwrap();
    assert_eq!(target, raw);
    let mut untouched = vec![9u8; 4];
    decompress_into(Compression::none(), &snappy, &mut untouched).unwrap();
    assert_eq!(untouched, vec![9u8; 4]);
    let mut small = vec![0u8; 10];
    assert!(matches!(
        decompress_into(Compression::snappy(), &snappy, &mut small),
        Err(Error::Corrupted(_))
    ));
    let mut junk = vec![0u8; 100];
    assert!(matches!(
        decompress_into(Compression::zstd(), &[1, 2, 3], &mut junk),
        Err(Error::Corrupted(_))
    ));
}

#[test]
fn compression_flags_and_outcomes() {
    assert_eq!(Compression::none().bits(), 1);
    assert_eq!(Compression::snappy().bits(), 2);
    assert_eq!(Compression::zstd().bits(), 4);
    assert_eq!(Compression::from_bits(6).unwrap().bits(), 6);
    assert!(Compression::from_bits(8).is_none());
    assert_eq!(length_prefix(0x0102_0304_0506_0708), vec![8, 7, 6, 5, 4, 3, 2, 1]);
    assert_eq!(snappy_outcome(Some(vec![1, 2])).unwrap(), vec![1, 2]);
    assert!(matches!(snappy_outcome(None), Err(Error::Corrupted(_))));
    assert_eq!(zstd_outcome(258, Some(vec![9])).unwrap(), vec![2, 1, 0, 0, 0, 0, 0, 0, 9]);
    assert!(matches!(zstd_outcome(1, None), Err(Error::Corrupted(_))));
    let mut target = vec![1u8, 2, 3, 4];
    decoded_outcome(&mut target, Some(2)).unwrap();
    assert_eq!(target, vec![1, 2]);
    assert!(matches!(decoded_outcome(&mut target, None), Err(Error::Corrupted(_))));
    assert_eq!(target, vec![1, 2]);
}
