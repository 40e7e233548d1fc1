use rand::Rng;
use sg_search::index::postings::{PostingsBlock, PostingsInfo};
use sg_search::store::error::Error;
use sg_search::store::skip_list::layout::read_node;
use sg_search::store::skip_list::reader::Reader;
use sg_search::store::skip_list::writer::{random_level, Writer};
use sg_search::store::store_io::{MemStore, WriteableStore};
use std::collections::HashSet;

#[test]
fn skip_list_1() {
    let mut rng = rand::thread_rng();
    for _ in 0..5 {
        let mut file_store = MemStore::new();
        file_store.write_bytes(&[1], 0).unwrap();
        let mut writer: Writer<i64> = Writer::make_append(file_store).unwrap();

        let mut n: i64 = rng.gen_range(-100..100);
        let mut data = HashSet::new();
        let count: usize = rng.gen_range(1000..5000);
        for _ in 0..count {
            n += rng.gen_range(1..10i64);
            writer.push_back(n).unwrap();
            data.insert(n);
        }

        let store = writer.into_store();
        let reader: Reader<i64> = Reader::new(&store, 1);
        let metadata = reader.metadata().unwrap();

        assert_eq!(metadata.len, data.len() as u64);

        let last = i64::MIN;
        let mut it = reader.iter().unwrap();
        while let Some(i) = it.next() {
            let curr = i.unwrap();
            assert!(curr > last);
            assert!(data.contains(&curr));
        }

        for _ in 0..5000 {
            let f: i64 = rng.gen_range(-150..n);
            let result = reader.find(|i: &i64| i.cmp(&f)).unwrap();
            if data.contains(&f) {
                assert_eq!(result, Some(f));
            } else {
                assert_eq!(result, None);
            }
        }
    }
}

#[test]
fn list_walks_back_in_push_order() {
    let mut store = MemStore::new();
    store.write_bytes(&[7, 7, 7], 0).unwrap();
    let mut writer: Writer<i64> = Writer::make_append(store).unwrap();
    assert_eq!(writer.offset(), 3);
    let values: Vec<i64> = vec![5, -3, 12, 12, 0, 99];
    for v in &values {
        writer.push_back(*v).unwrap();
    }
    let reader = writer.into_reader();
    assert_eq!(reader.len().unwrap(), 6);
    assert_eq!(reader.read_all().unwrap(), values);
    let mut it = reader.iter().unwrap();
    let mut walked = Vec::new();
    while let Some(v) = it.next() {
        walked.push(v.unwrap());
    }
    assert_eq!(walked, values);
    assert!(it.next().is_none());
}

#[test]
fn new_list_is_empty_and_keeps_the_bytes_before_it() {
    let mut store = MemStore::new();
    store.write_bytes(&[1, 2, 3, 4], 0).unwrap();
    let writer: Writer<i64> = Writer::make_append(store).unwrap();
    assert_eq!(writer.offset(), 4);
    assert_eq!(writer.store().len(), 4 + 521);
    assert_eq!(&writer.store().as_bytes()[0..4], &[1, 2, 3, 4]);
    let reader = writer.into_reader();
    assert_eq!(reader.len().unwrap(), 0);
    assert_eq!(reader.read_all().unwrap(), Vec::<i64>::new());
    assert_eq!(reader.find(|i: &i64| i.cmp(&3)).unwrap(), None);
}

#[test]
fn two_lists_in_one_store_do_not_disturb_each_other() {
    let mut store = MemStore::new();
    store.write_bytes(&[0; 16], 0).unwrap();
    let mut a: Writer<i64> = Writer::make_append(store).unwrap();
    let off_a = a.offset();
    a.push_back(1).unwrap();
    let mut b: Writer<i64> = Writer::make_append(a.into_store()).unwrap();
    let off_b = b.offset();
    b.push_back(100).unwrap();
    b.push_back(200).unwrap();
    let mut a: Writer<i64> = Writer::new(b.into_store(), off_a);
    a.push_back(2).unwrap();
    a.push_back(3).unwrap();
    let store = a.into_store();
    assert_eq!(Reader::<i64>::new(&store, off_a).read_all().unwrap(), vec![1, 2, 3]);
    assert_eq!(Reader::<i64>::new(&store, off_b).read_all().unwrap(), vec![100, 200]);
}

#[test]
fn blocks_of_postings_are_read_back() {
    let mut store = MemStore::new();
    store.write_bytes(&[0; 16], 0).unwrap();
    let mut w: Writer<PostingsBlock> = Writer::make_append(store).unwrap();
    let first = vec![
        PostingsInfo { id: 1, external_id: 10, tf: 7 },
        PostingsInfo { id: 2, external_id: 20, tf: 65535 },
    ];
    let second = vec![PostingsInfo { id: 3, external_id: 30, tf: 0 }];
    w.push_back(PostingsBlock { postings: first.clone() }).unwrap();
    w.push_back(PostingsBlock { postings: second.clone() }).unwrap();
    let reader = w.into_reader();
    let blocks = reader.read_all().unwrap();
    assert_eq!(blocks.len(), 2);
    assert_eq!(blocks[0].postings, first);
    assert_eq!(blocks[1].postings, second);
}

#[test]
fn reading_where_no_list_is_fails_or_stops() {
    let store = MemStore::from_bytes(vec![0u8; 10]);
    let reader: Reader<i64> = Reader::new(&store, 3);
    assert!(matches!(reader.metadata(), Err(Error::OutOfRange)));
    assert!(reader.read_all().is_err());
    assert!(matches!(reader.len(), Err(Error::OutOfRange)));
    assert!(reader.iter().is_err());
    let zeros = MemStore::from_bytes(vec![0u8; 600]);
    let empty: Reader<i64> = Reader::new(&zeros, 40);
    assert_eq!(empty.len().unwrap(), 0);
    assert!(empty.iter().unwrap().next().is_none());
    assert_eq!(empty.read_all().unwrap(), Vec::<i64>::new());
}

#[test]
fn random_levels_stay_in_range() {
    let mut seen_above_one = false;
    for _ in 0..2000 {
        let l = random_level();
        assert!(1 <= l && l <= 32);
        if l > 1 {
            seen_above_one = true;
        }
    }
    assert!(seen_above_one);
}

#[test]
fn a_new_list_after_one_byte_is_an_empty_metadata_record() {
    let mut store = MemStore::new();
    store.write_bytes(&[1], 0).unwrap();
    let writer: Writer<i64> = Writer::make_append(store).unwrap();
    assert_eq!(writer.offset(), 1);
    let mut expected = vec![1u8];
    expected.extend(std::iter::repeat(0u8).take(521));
    assert_eq!(writer.store().as_bytes(), &expected[..]);
    let reader = writer.into_reader();
    assert!(reader.iter().unwrap().next().is_none());
}

#[test]
fn find_gives_only_an_equal_element_whatever_the_comparison() {
    let mut store = MemStore::new();
    store.write_bytes(&[0], 0).unwrap();
    let mut writer: Writer<i64> = Writer::make_append(store).unwrap();
    for v in 1..=60i64 {
        writer.push_back(v).unwrap();
    }
    let reader = writer.into_reader();
    let zigzag = |x: &i64| {
        if *x == 17 || *x == 40 {
            std::cmp::Ordering::Equal
        } else if x % 2 == 0 {
            std::cmp::Ordering::Less
        } else {
            std::cmp::Ordering::Greater
        }
    };
    if let Some(v) = reader.find(zigzag).unwrap() {
        assert!(v == 17 || v == 40);
    }
    assert_eq!(reader.find(|_: &i64| std::cmp::Ordering::Greater).unwrap(), None);
    assert_eq!(reader.find(|_: &i64| std::cmp::Ordering::Less).unwrap(), None);
    assert_eq!(reader.find(|x: &i64| x.cmp(&33)).unwrap(), Some(33));
}

#[test]
fn a_pushed_node_starts_at_the_old_end_of_the_store() {
    let mut store = MemStore::new();
    store.write_bytes(&[5, 5], 0).unwrap();
    let mut writer: Writer<i64> = Writer::make_append(store).unwrap();
    writer.push_back(11).unwrap();
    let end = writer.store().len();
    writer.push_back(42).unwrap();
    let node = read_node::<i64>(writer.store().as_bytes(), end).unwrap();
    assert_eq!(node.data, 42);
    let first = read_node::<i64>(writer.store().as_bytes(), 2 + 521).unwrap();
    assert_eq!(first.data, 11);
    assert_eq!(&writer.store().as_bytes()[0..2], &[5, 5]);
}
