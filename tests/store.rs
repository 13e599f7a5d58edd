use kvs::codec::{decode_header, encode_record, Header};
use kvs::store::COMPACTION_THRESHOLD;
use kvs::{DiskOp, KvStore, KvsError, Segment};

/// Segment files held in memory, changed by the operations a store hands back.
struct Disk {
    files: Vec<Segment>,
}

impl Disk {
    fn new() -> Disk {
        Disk { files: Vec::new() }
    }

    fn apply(&mut self, ops: Vec<DiskOp>) {
        for op in ops {
            match op {
                DiskOp::Create { generation } => {
                    if !self.files.iter().any(|f| f.generation == generation) {
                        self.files.push(Segment { generation, data: Vec::new() });
                        self.files.sort_by_key(|f| f.generation);
                    }
                }
                DiskOp::Append { generation, offset, bytes } => {
                    let f = self.files.iter_mut().find(|f| f.generation == generation).unwrap();
                    assert_eq!(f.data.len() as u64, offset);
                    f.data.extend_from_slice(&bytes);
                }
                DiskOp::ZeroTimestamp { generation, offset } => {
                    let f = self.files.iter_mut().find(|f| f.generation == generation).unwrap();
                    let o = offset as usize;
                    for b in &mut f.data[o..o + 8] {
                        *b = 0;
                    }
                }
                DiskOp::Delete { generation } => {
                    self.files.retain(|f| f.generation != generation);
                }
            }
        }
    }

    fn copy(&self) -> Vec<Segment> {
        self.files
            .iter()
            .map(|f| Segment { generation: f.generation, data: f.data.clone() })
            .collect()
    }

    fn open(&mut self) -> KvStore {
        let (store, ops) = KvStore::open(self.copy());
        self.apply(ops);
        store
    }
}

fn b(s: &str) -> Vec<u8> {
    s.as_bytes().to_vec()
}

#[test]
fn test_init() {
    let mut disk = Disk::new();
    let mut kvs = disk.open();
    let ops = kvs.set(b("yongwei"), b("iewgnoy555678"));
    disk.apply(ops);
    let val = kvs.get(&b("yongwei"));
    assert_eq!(val.unwrap(), b("iewgnoy555678"));
}

#[test]
fn concrete_scenario() {
    let mut disk = Disk::new();
    let mut st = disk.open();
    disk.apply(st.set(b("a"), b("1")));
    disk.apply(st.set(b("b"), b("2")));
    disk.apply(st.set(b("a"), b("3")));
    assert_eq!(st.get(&b("a")), Ok(b("3")));
    assert_eq!(st.get(&b("b")), Ok(b("2")));
    disk.apply(st.remove(&b("b")).unwrap());
    assert_eq!(st.get(&b("b")), Err(KvsError::KeyNotFound));
    drop(st);
    let st = disk.open();
    assert_eq!(st.get(&b("a")), Ok(b("3")));
    assert_eq!(st.get(&b("b")), Err(KvsError::KeyNotFound));
}

#[test]
fn round_trip_empty_and_binary_values() {
    let mut disk = Disk::new();
    let mut st = disk.open();
    disk.apply(st.set(b("empty"), Vec::new()));
    disk.apply(st.set(vec![0, 255, 7], vec![1, 0, 0, 0, 9, 200]));
    disk.apply(st.set(Vec::new(), b("no key")));
    assert_eq!(st.get(&b("empty")), Ok(Vec::new()));
    assert_eq!(st.get(&vec![0, 255, 7]), Ok(vec![1, 0, 0, 0, 9, 200]));
    assert_eq!(st.get(&Vec::new()), Ok(b("no key")));
}

#[test]
fn overwrite_counts_dead_bytes() {
    let mut disk = Disk::new();
    let mut st = disk.open();
    disk.apply(st.set(b("k"), b("v1")));
    assert_eq!(st.uncompacted(), 0);
    disk.apply(st.set(b("k"), b("v2")));
    assert_eq!(st.get(&b("k")), Ok(b("v2")));
    // header 16 + key 1 + value 2
    assert_eq!(st.uncompacted(), 19);
}

#[test]
fn delete_then_get_and_remove_again() {
    let mut disk = Disk::new();
    let mut st = disk.open();
    disk.apply(st.set(b("k"), b("v")));
    assert!(st.remove(&b("k")).is_ok());
    assert_eq!(st.get(&b("k")), Err(KvsError::KeyNotFound));
    assert!(matches!(st.remove(&b("k")), Err(KvsError::KeyNotFound)));
    assert_eq!(st.uncompacted(), 18);
}

#[test]
fn remove_absent_key() {
    let mut disk = Disk::new();
    let mut st = disk.open();
    assert!(matches!(st.remove(&b("missing")), Err(KvsError::KeyNotFound)));
    assert_eq!(st.get(&b("missing")), Err(KvsError::KeyNotFound));
}

#[test]
fn recovery_keeps_every_key() {
    let mut disk = Disk::new();
    let mut st = disk.open();
    for i in 0..50u32 {
        disk.apply(st.set(format!("key{}", i).into_bytes(), format!("value{}", i * 3).into_bytes()));
    }
    for i in 0..50u32 {
        if i % 2 == 0 {
            disk.apply(st.set(format!("key{}", i).into_bytes(), format!("new{}", i).into_bytes()));
        }
        if i % 5 == 0 {
            disk.apply(st.remove(&format!("key{}", i).into_bytes()).unwrap());
        }
    }
    let dead = st.uncompacted();
    let first_gen = st.generation();
    drop(st);
    let st = disk.open();
    assert_eq!(st.uncompacted(), dead);
    assert_eq!(st.generation(), first_gen + 1);
    for i in 0..50u32 {
        let got = st.get(&format!("key{}", i).into_bytes());
        if i % 5 == 0 {
            assert_eq!(got, Err(KvsError::KeyNotFound));
        } else if i % 2 == 0 {
            assert_eq!(got, Ok(format!("new{}", i).into_bytes()));
        } else {
            assert_eq!(got, Ok(format!("value{}", i * 3).into_bytes()));
        }
    }
}

#[test]
fn reopen_of_empty_directory_starts_at_generation_one() {
    let mut disk = Disk::new();
    let st = disk.open();
    assert_eq!(st.generation(), 1);
    assert_eq!(st.segment_len(), 1);
    drop(st);
    // the empty active segment of the first run is dropped and reused
    let st = disk.open();
    assert_eq!(st.generation(), 1);
    assert_eq!(disk.files.len(), 1);
}

#[test]
fn compaction_is_transparent() {
    let mut disk = Disk::new();
    let mut st = disk.open();
    disk.apply(st.set(b("stay"), b("here")));
    let big = vec![7u8; 64 * 1024];
    let mut compacted = false;
    for i in 0..40u32 {
        let before = st.generation();
        disk.apply(st.set(b("hot"), [big.clone(), i.to_le_bytes().to_vec()].concat()));
        if st.generation() != before {
            compacted = true;
            assert_eq!(st.uncompacted(), 0);
            assert_eq!(st.segment_len(), 1);
            assert_eq!(disk.files.len(), 1);
        }
        assert!(st.uncompacted() <= COMPACTION_THRESHOLD);
    }
    assert!(compacted);
    assert_eq!(st.get(&b("stay")), Ok(b("here")));
    assert_eq!(st.get(&b("hot")), Ok([big.clone(), 39u32.to_le_bytes().to_vec()].concat()));
    drop(st);
    let st = disk.open();
    assert_eq!(st.get(&b("stay")), Ok(b("here")));
    assert_eq!(st.get(&b("hot")), Ok([big, 39u32.to_le_bytes().to_vec()].concat()));
}

#[test]
fn compact_on_demand() {
    let mut disk = Disk::new();
    let mut st = disk.open();
    disk.apply(st.set(b("x"), b("1")));
    disk.apply(st.set(b("x"), b("2")));
    disk.apply(st.set(b("y"), b("3")));
    let g = st.generation();
    disk.apply(st.compact());
    assert_eq!(st.generation(), g + 1);
    assert_eq!(st.uncompacted(), 0);
    assert_eq!(disk.files.len(), 1);
    // two live records: 16 + 1 + 1 bytes each
    assert_eq!(disk.files[0].data.len(), 36);
    assert_eq!(st.get(&b("x")), Ok(b("2")));
    assert_eq!(st.get(&b("y")), Ok(b("3")));
}

#[test]
fn record_layout() {
    let r = encode_record(0x0102030405060708, &b("ab"), &b("xyz"));
    assert_eq!(
        r,
        vec![8, 7, 6, 5, 4, 3, 2, 1, 2, 0, 0, 0, 3, 0, 0, 0, b'a', b'b', b'x', b'y', b'z']
    );
    let h = decode_header(&r, 0).unwrap();
    assert_eq!(h, Header { timestamp: 0x0102030405060708, key_len: 2, value_len: 3 });
}

#[test]
fn truncated_header_is_corrupt() {
    let r = encode_record(5, &b("key"), &b("value"));
    assert_eq!(decode_header(&r[..15].to_vec(), 0), Err(KvsError::CorruptRecord));
    assert_eq!(decode_header(&r[..r.len() - 1].to_vec(), 0), Err(KvsError::CorruptRecord));
    assert_eq!(decode_header(&r, 1), Err(KvsError::CorruptRecord));
    assert!(decode_header(&r, 0).is_ok());
}

#[test]
fn replay_stops_at_corrupt_tail() {
    let mut data = encode_record(9, &b("a"), &b("1"));
    data.extend_from_slice(&encode_record(9, &b("b"), &b("2"))[..10]);
    let (st, _) = KvStore::open(vec![Segment { generation: 4, data }]);
    assert_eq!(st.get(&b("a")), Ok(b("1")));
    assert_eq!(st.get(&b("b")), Err(KvsError::KeyNotFound));
    assert_eq!(st.generation(), 5);
}

#[test]
fn replay_later_record_wins_and_dead_is_skipped() {
    let mut s1 = encode_record(3, &b("k"), &b("old"));
    s1.extend_from_slice(&encode_record(0, &b("gone"), &b("x")));
    let s2 = encode_record(4, &b("k"), &b("new"));
    let (st, ops) = KvStore::open(vec![
        Segment { generation: 2, data: s1 },
        Segment { generation: 7, data: s2 },
        Segment { generation: 8, data: Vec::new() },
    ]);
    assert_eq!(st.get(&b("k")), Ok(b("new")));
    assert_eq!(st.get(&b("gone")), Err(KvsError::KeyNotFound));
    // dead record 16 + 4 + 1, superseded record 16 + 1 + 3
    assert_eq!(st.uncompacted(), 41);
    assert_eq!(st.generation(), 8);
    assert!(ops.iter().any(|o| matches!(o, DiskOp::ZeroTimestamp { generation: 2, offset: 0 })));
    assert!(ops.iter().any(|o| matches!(o, DiskOp::Delete { generation: 8 })));
    assert!(ops.iter().any(|o| matches!(o, DiskOp::Create { generation: 8 })));
}

#[test]
fn clock_is_past_epoch() {
    assert!(kvs::unix_time() > 0);
}

#[test]
fn operations_handed_back_for_the_files() {
    let (mut st, ops) = KvStore::open(Vec::new());
    assert_eq!(ops.len(), 1);
    assert!(matches!(ops[0], DiskOp::Create { generation: 1 }));
    let ops = st.set(b("k"), b("v"));
    assert_eq!(ops.len(), 1);
    match &ops[0] {
        DiskOp::Append { generation, offset, bytes } => {
            assert_eq!((*generation, *offset), (1, 0));
            assert_eq!(bytes.len(), 18);
            assert_eq!(&bytes[8..], &[1, 0, 0, 0, 1, 0, 0, 0, b'k', b'v'][..]);
            assert_ne!(&bytes[..8], &[0u8; 8][..]);
        }
        _ => panic!("expected an append"),
    }
    let ops = st.set(b("k"), b("w"));
    assert_eq!(ops.len(), 2);
    assert!(matches!(ops[0], DiskOp::Append { generation: 1, offset: 18, .. }));
    assert!(matches!(ops[1], DiskOp::ZeroTimestamp { generation: 1, offset: 0 }));
    let ops = st.remove(&b("k")).unwrap();
    assert_eq!(ops.len(), 1);
    assert!(matches!(ops[0], DiskOp::ZeroTimestamp { generation: 1, offset: 18 }));
}

#[test]
fn zero_clock_reading_is_stamped_one() {
    assert_eq!(kvs::store::record_timestamp(0), 1);
    assert_eq!(kvs::store::record_timestamp(1), 1);
    assert_eq!(kvs::store::record_timestamp(1_700_000_000), 1_700_000_000);
}

#[test]
fn compaction_writes_before_it_deletes() {
    let mut disk = Disk::new();
    let mut st = disk.open();
    disk.apply(st.set(b("x"), b("1")));
    disk.apply(st.set(b("x"), b("2")));
    let ops = st.compact();
    assert!(matches!(ops[0], DiskOp::Create { generation: 2 }));
    assert!(matches!(ops[1], DiskOp::Append { generation: 2, offset: 0, .. }));
    assert!(ops[2..].iter().all(|o| matches!(o, DiskOp::Delete { .. })));
    disk.apply(ops);
    // one live record of 16 + 1 + 1 bytes, no dead bytes left
    assert_eq!(disk.files.len(), 1);
    assert_eq!(disk.files[0].data.len(), 18);
}
