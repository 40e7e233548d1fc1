use rand::Rng;
use sg_search::codec::Record;
use sg_search::index::term_index::Header;
use sg_search::store::error::{EncodingError, Error};
use sg_search::store::store_io::{byte_range, MemStore, ReadableStore, WriteableStore};
use sg_search::codec::DecodeError;

fn random_text(len: usize) -> String {
    let mut rng = rand::thread_rng();
    (0..len).map(|_| rng.gen::<char>()).collect()
}

#[test]
fn write_and_read() {
    let mut rng = rand::thread_rng();
    for _ in 0..20 {
        let data = random_text(rng.gen_range(2..100000));

        let mut file_store = MemStore::new();
        file_store.write_bytes(data.as_bytes(), 0).unwrap();
        let d1 = file_store.read_bytes(1, data.len() as u64 / 2).unwrap();
        assert_eq!(&*d1, &data.as_bytes()[1..(data.len() / 2) + 1]);

        let mmap_store = MemStore::from_bytes(file_store.into_bytes());
        let d2 = mmap_store
            .read_bytes(data.len() as u64 / 2, (data.len() - data.len() / 2) as u64)
            .unwrap();
        assert_eq!(&*d2, &data.as_bytes()[data.len() / 2..]);
    }
}

#[test]
fn writing_past_the_end_fills_the_gap_with_zeros() {
    let mut s = MemStore::from_bytes(vec![9, 9]);
    s.write_bytes(&[1, 2], 5).unwrap();
    assert_eq!(s.as_bytes(), &[9, 9, 0, 0, 0, 1, 2]);
    s.write_bytes(&[4], 1).unwrap();
    assert_eq!(s.as_bytes(), &[9, 4, 0, 0, 0, 1, 2]);
    assert_eq!(s.append_bytes(&[8, 8]).unwrap(), 7);
    assert_eq!(s.len(), 9);
}

#[test]
fn reading_outside_the_store_is_out_of_range() {
    let s = MemStore::from_bytes(vec![1, 2, 3]);
    assert_eq!(s.read_bytes(2, 2), Err(Error::OutOfRange));
    assert_eq!(s.read_bytes(4, 0), Err(Error::OutOfRange));
    assert_eq!(s.read_bytes(u64::MAX, 2), Err(Error::OutOfRange));
    assert_eq!(s.read_bytes(3, 0).unwrap(), Vec::<u8>::new());
    assert!(matches!(s.read::<Header>(3), Err(Error::OutOfRange)));
}

#[test]
fn a_value_written_is_read_back() {
    let mut s = MemStore::new();
    let h = Header { magic: 4294872394, doc_num: 77 };
    s.write(&h, 4).unwrap();
    assert_eq!(s.len(), 20);
    assert_eq!(&s.as_bytes()[0..4], &[0, 0, 0, 0]);
    assert_eq!(s.read::<Header>(4).unwrap(), h);
    let off = s.append(&-5i64).unwrap();
    assert_eq!(off, 20);
    assert_eq!(s.read::<i64>(20).unwrap(), -5);
    assert_eq!(s.read::<u64>(20).unwrap(), u64::MAX - 4);
}

#[test]
fn a_value_cut_short_is_a_decode_error() {
    let s = MemStore::from_bytes(vec![1, 2, 3, 4, 5]);
    assert_eq!(
        s.read::<u64>(0),
        Err(Error::Encoding(EncodingError::Decode(DecodeError::UnexpectedEnd)))
    );
    let mut out = Vec::new();
    7u64.encode_into(&mut out);
    assert_eq!(out, vec![7, 0, 0, 0, 0, 0, 0, 0]);
    assert_eq!(u64::decode(&out, 0).unwrap(), (7, 8));
}

#[test]
fn error_messages() {
    assert_eq!(Error::OutOfRange.message(), "out of range");
    assert_eq!(Error::Incompatible.message(), "incompatible data file");
    assert_eq!(
        Error::Encoding(EncodingError::Decode(DecodeError::UnexpectedEnd)).message(),
        "UnexpectedEnd"
    );
}

#[test]
fn byte_ranges_lie_inside_or_are_refused() {
    assert_eq!(byte_range(10, 2, 3), Some((2, 5)));
    assert_eq!(byte_range(10, 0, 10), Some((0, 10)));
    assert_eq!(byte_range(10, 10, 0), Some((10, 10)));
    assert_eq!(byte_range(10, 8, 3), None);
    assert_eq!(byte_range(10, 11, 0), None);
    assert_eq!(byte_range(10, u64::MAX, u64::MAX), None);
    assert_eq!(byte_range(10, 1, u64::MAX), None);
}
