use sg_search::codec::Record;
use sg_search::index::postings::{PostingsBlock, PostingsInfo};
use sg_search::index::term_index::Header;
use sg_search::store::skip_list::layout::{encode_meta, encode_node, read_meta, read_node, Level, MetaData, Node};

fn config() -> bincode::config::Configuration<bincode::config::LittleEndian, bincode::config::Fixint> {
    bincode::config::standard().with_little_endian().with_fixed_int_encoding()
}

fn encode<T: Record>(v: &T) -> Vec<u8> {
    let mut out = Vec::new();
    v.encode_into(&mut out);
    out
}

#[test]
fn header_bytes_match_bincode() {
    let h = Header { magic: 4294872394, doc_num: 123456789 };
    let ours = encode(&h);
    let theirs = bincode::encode_to_vec((h.magic, h.doc_num), config()).unwrap();
    assert_eq!(ours, theirs);
    assert_eq!(ours.len(), 16);
    assert_eq!(Header::decode(&ours, 0).unwrap(), (h, 16));
}

#[test]
fn integers_match_bincode() {
    for v in [0i64, 1, -1, i64::MIN, i64::MAX, 4242] {
        assert_eq!(encode(&v), bincode::encode_to_vec(v, config()).unwrap());
        assert_eq!(i64::decode(&encode(&v), 0).unwrap(), (v, 8));
    }
    for v in [0u64, 1, u64::MAX, 1 << 40] {
        assert_eq!(encode(&v), bincode::encode_to_vec(v, config()).unwrap());
    }
}

#[test]
fn postings_block_bytes_match_bincode() {
    let postings = vec![
        PostingsInfo { id: 1, external_id: 1001, tf: 3 },
        PostingsInfo { id: 2, external_id: 77, tf: 65535 },
        PostingsInfo { id: 9, external_id: 0, tf: 0 },
    ];
    let tuples: Vec<(u64, u64, u16)> = postings.iter().map(|p| (p.id, p.external_id, p.tf)).collect();
    let block = PostingsBlock { postings: postings.clone() };
    let ours = encode(&block);
    assert_eq!(ours, bincode::encode_to_vec(&tuples, config()).unwrap());
    assert_eq!(ours.len(), 8 + 3 * 18);
    let (back, end) = PostingsBlock::decode(&ours, 0).unwrap();
    assert_eq!(back.postings, postings);
    assert_eq!(end, ours.len());
    let (decoded, _): (Vec<(u64, u64, u16)>, usize) = bincode::decode_from_slice(&ours, config()).unwrap();
    assert_eq!(decoded, tuples);
}

#[test]
fn metadata_bytes_match_bincode() {
    let mut meta = MetaData::empty();
    meta.heads[0] = Level { backward: 600, forward: 521 };
    meta.heads[5] = Level { backward: 7, forward: 8 };
    meta.len = 3;
    meta.level = 6;
    let ours = encode_meta(&meta);
    let mut heads = [(0u64, 0u64); 32];
    for (i, l) in meta.heads.iter().enumerate() {
        heads[i] = (l.backward, l.forward);
    }
    let theirs = bincode::encode_to_vec((heads, meta.len, meta.level), config()).unwrap();
    assert_eq!(ours, theirs);
    assert_eq!(ours.len(), 521);
    let back = read_meta(&ours, 0).unwrap();
    assert_eq!(back.len, 3);
    assert_eq!(back.level, 6);
    assert_eq!(back.heads[5].forward, 8);
    assert!(read_meta(&ours, 1).is_err());
}

#[test]
fn node_bytes_match_bincode() {
    let node = Node {
        data: PostingsBlock { postings: vec![PostingsInfo { id: 4, external_id: 5, tf: 6 }] },
        levels: vec![Level { backward: 1, forward: 2 }, Level { backward: 3, forward: 0 }],
    };
    let ours = encode_node(&node);
    let theirs = bincode::encode_to_vec(
        (vec![(4u64, 5u64, 6u16)], vec![(1u64, 2u64), (3u64, 0u64)]),
        config(),
    )
    .unwrap();
    assert_eq!(ours, theirs);
    let mut store = vec![0xffu8; 3];
    store.extend_from_slice(&ours);
    let back: Node<PostingsBlock> = read_node(&store, 3).unwrap();
    assert_eq!(back.data.postings, node.data.postings);
    assert_eq!(back.levels.len(), 2);
    assert_eq!(back.levels[1].backward, 3);
    assert!(read_node::<PostingsBlock>(&store, 4).is_err());
}
