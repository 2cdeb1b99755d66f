use pagestore::bytes::{decode_u32, encode_u32};
use pagestore::mm_io::{check_file_size, next_size, Error as MapError, Mapping, MIN_SIZE};
use pagestore::page::{Error as PageError, Page, DATA_SIZE, PAGE_SIZE};

#[test]
fn size_test() {
    let page = Page::default();
    assert_eq!(page.size(), PAGE_SIZE);
    assert_eq!(page.size(), 8192);
}

#[test]
fn add_test() {
    let mut page = Page::default();
    let hello: Vec<u8> = "Hello".as_bytes().to_vec();
    let world: Vec<u8> = "world!".as_bytes().to_vec();

    let idx0 = page.add(&hello).unwrap();
    assert_eq!(idx0, 0);
    assert_eq!(page.get(idx0).unwrap(), hello);

    let idx1 = page.add(&world).unwrap();
    assert_eq!(idx1, 1);
    assert_eq!(page.get(idx1).unwrap(), world);
}

#[test]
fn add_overflow_test() {
    let item_size = DATA_SIZE / 2 - 2;
    let item = vec![0u8; item_size];
    let mut page = Page::default();

    let idx0 = page.add(&item).unwrap();
    assert_eq!(idx0, 0);

    let idx1 = page.add(&item).unwrap();
    assert_eq!(idx1, 1);

    assert_eq!(page.add(&item), Err(PageError::NotEnoughSpace));
}

#[test]
fn mmap_test() {
    let (v1, idx1) = (1534u32, 0usize);
    let (v2, idx2) = (23423u32, MIN_SIZE / 4);
    let (v3, idx3) = (87u32, 1051677usize);

    let bytes = {
        let mut mapping = Mapping::new(Vec::new(), 4);
        mapping
            .insert_at(&encode_u32(v1), idx1)
            .expect("can't insert data");
        mapping
            .insert_at(&encode_u32(v2), idx2)
            .expect("can't insert data");
        mapping
            .insert_at(&encode_u32(v3), idx3)
            .expect("can't insert data");
        mapping.into_bytes()
    };

    let mapping = Mapping::new(bytes, 4);

    let p = mapping.read_at(idx1).expect("can't read from mapping");
    assert_eq!(decode_u32(&p), v1);

    let p = mapping.read_at(idx2).expect("can't read from mapping");
    assert_eq!(decode_u32(&p), v2);

    let p = mapping.read_at(idx3).expect("can't read from mapping");
    assert_eq!(decode_u32(&p), v3);
}

#[test]
fn mmap_test_index_of_bounds() {
    let mapping = Mapping::new(Vec::new(), 4);

    assert!(matches!(
        mapping.read_at(MIN_SIZE / 4),
        Err(MapError::IndexOutOfBounds)
    ));
}

#[test]
fn insert_then_read_is_identical() {
    let mut m = Mapping::new(Vec::new(), 4);
    m.insert_at(&encode_u32(1534), 0).unwrap();
    let r = m.read_at(0).unwrap();
    assert_eq!(decode_u32(&r), 1534);

    m.insert_at(&encode_u32(23423), MIN_SIZE / 4).unwrap();
    let r = m.read_at(MIN_SIZE / 4).unwrap();
    assert_eq!(decode_u32(&r), 23423);

    let r = m.read_at(0).unwrap();
    assert_eq!(decode_u32(&r), 1534);
}

#[test]
fn growth_covers_and_aligns() {
    let mut mapping = Mapping::new(Vec::new(), 12);
    assert_eq!(mapping.size(), MIN_SIZE);

    let idx = 10_000usize;
    mapping.insert_at(&vec![7u8; 12], idx).unwrap();

    assert!(mapping.size() >= (idx + 1) * 12);
    assert_eq!(mapping.size() % 12, 0);
}

#[test]
fn next_size_exact_values() {
    assert_eq!(next_size(65540, 4), 106044);
    assert_eq!(next_size(1000, 10), 1610);
}

#[test]
fn unwritten_record_reads_zero() {
    let mapping = Mapping::new(Vec::new(), 8);
    let rec = mapping.read_at(100).unwrap();
    assert_eq!(rec, vec![0u8; 8]);
}

#[test]
fn short_file_extends_to_floor() {
    let m = Mapping::new(vec![5u8; 10], 2);
    assert_eq!(m.size(), MIN_SIZE);

    let first = m.read_at(0).unwrap();
    assert_eq!(first, vec![5u8, 5u8]);

    let pad = m.read_at(8).unwrap();
    assert_eq!(pad, vec![0u8, 0u8]);
}

#[test]
fn file_size_check() {
    assert_eq!(check_file_size(12345), Ok(12345));
    assert_eq!(check_file_size(0), Ok(0));
}

#[test]
fn slots_in_order() {
    let mut page = Page::default();
    for i in 0..5usize {
        let idx = page.add(&vec![i as u8; 3]).unwrap();
        assert_eq!(idx, i);
    }
}

#[test]
fn not_enough_space_boundary() {
    let mut page = Page::default();

    assert_eq!(
        page.add(&vec![1u8; DATA_SIZE - 1]),
        Err(PageError::NotEnoughSpace)
    );

    let exact_fit = vec![2u8; DATA_SIZE - 2];
    let idx = page.add(&exact_fit).unwrap();
    assert_eq!(idx, 0);
    assert_eq!(page.get(idx).unwrap(), exact_fit);

    assert_eq!(page.add(&Vec::new()), Err(PageError::NotEnoughSpace));
}

#[test]
fn two_adds_then_overflow() {
    let mut page = Page::default();
    let a = vec![0xaau8; 6];
    let b = vec![0xbbu8; 6];
    assert_eq!(page.add(&a).unwrap(), 0);
    assert_eq!(page.add(&b).unwrap(), 1);

    let remaining = DATA_SIZE - 16;
    let big = vec![0xccu8; remaining - 1];
    assert_eq!(page.add(&big), Err(PageError::NotEnoughSpace));

    assert_eq!(page.get(0).unwrap(), a);
    assert_eq!(page.get(1).unwrap(), b);
}

#[test]
fn get_unknown_slot_is_none() {
    let mut page = Page::default();
    assert!(page.get(0).is_none());

    page.add(&vec![9u8; 4]).unwrap();
    assert!(page.get(1).is_none());
}

#[test]
fn codec_roundtrip() {
    for v in [0u32, 1, 1534, 23423, 87, u32::MAX] {
        assert_eq!(decode_u32(&encode_u32(v)), v);
    }
}

#[test]
fn page_as_mapping_record() {
    let mut page = Page::default();
    page.add(&b"alpha".to_vec()).unwrap();
    page.add(&b"beta".to_vec()).unwrap();

    let mut m = Mapping::new(Vec::new(), PAGE_SIZE);
    m.insert_at(page.as_bytes(), 9).unwrap();

    let blob = m.read_at(9).unwrap();
    assert_eq!(&blob, page.as_bytes());
}
