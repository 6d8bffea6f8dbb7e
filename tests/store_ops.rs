use actionkv::{encode, ActionKv, KvError};

fn reopen(store: &ActionKv) -> ActionKv {
    let mut fresh = ActionKv::new();
    fresh.load(store.log().to_vec()).unwrap();
    fresh
}

#[test]
fn empty_store_reads_nothing() {
    let mut s = ActionKv::new();
    assert_eq!(s.get(b"a"), None);
    assert_eq!(s.seek_to_end(), 0);
    assert_eq!(s.load(Vec::new()), Ok(()));
    assert_eq!(s.get(b"a"), None);
}

#[test]
fn insert_then_get() {
    let mut s = ActionKv::new();
    s.insert(b"k", b"v").unwrap();
    assert_eq!(s.get(b"k"), Some(b"v".to_vec()));
    assert_eq!(s.get(b"other"), None);
    assert_eq!(s.offset_of(b"k"), Some(0));
    assert_eq!(s.log(), &encode(b"k", b"v")[..]);
}

#[test]
fn last_write_wins_and_log_keeps_both() {
    let mut s = ActionKv::new();
    s.insert(b"key", b"first").unwrap();
    s.insert(b"key", b"second").unwrap();
    assert_eq!(s.get(b"key"), Some(b"second".to_vec()));
    let f1 = encode(b"key", b"first");
    let f2 = encode(b"key", b"second");
    let mut both = f1.clone();
    both.extend(&f2);
    assert_eq!(s.log(), &both[..]);
    assert_eq!(s.offset_of(b"key"), Some(f1.len() as u64));
}

#[test]
fn insert_but_ignore_index_appends_only() {
    let mut s = ActionKv::new();
    s.insert(b"a", b"1").unwrap();
    let end = s.seek_to_end();
    assert_eq!(s.insert_but_ignore_index(b"a", b"2"), Ok(end));
    assert_eq!(s.get(b"a"), Some(b"1".to_vec()));
    assert_eq!(s.seek_to_end(), end + encode(b"a", b"2").len() as u64);
}

#[test]
fn delete_leaves_empty_value() {
    let mut s = ActionKv::new();
    s.insert(b"gone", b"here").unwrap();
    s.delete(b"gone").unwrap();
    assert_eq!(s.get(b"gone"), Some(Vec::new()));
    s.delete(b"never").unwrap();
    assert_eq!(s.get(b"never"), Some(Vec::new()));
}

#[test]
fn reload_rebuilds_the_same_index() {
    let mut s = ActionKv::new();
    s.insert(b"x", b"1").unwrap();
    s.insert(b"y", b"2").unwrap();
    s.update(b"x", b"3").unwrap();
    s.delete(b"y").unwrap();
    s.insert(b"z", b"").unwrap();
    let r = reopen(&s);
    for k in [&b"x"[..], b"y", b"z", b"w"] {
        assert_eq!(r.offset_of(k), s.offset_of(k));
        assert_eq!(r.get(k), s.get(k));
    }
    assert_eq!(r.log(), s.log());
}

#[test]
fn end_to_end_scenario() {
    let mut s = ActionKv::new();
    s.insert(b"a", b"1").unwrap();
    s.insert(b"b", b"22").unwrap();
    s.update(b"a", b"111").unwrap();
    s.delete(b"b").unwrap();
    let r = reopen(&s);
    assert_eq!(r.get(b"a"), Some(b"111".to_vec()));
    assert_eq!(r.get(b"b"), Some(Vec::new()));
    assert_eq!(r.get(b"c"), None);
}

#[test]
fn truncated_log_fails_the_load() {
    let mut s = ActionKv::new();
    s.insert(b"one", b"1").unwrap();
    s.insert(b"two", b"22").unwrap();
    let second = s.offset_of(b"two").unwrap();
    let mut bytes = s.log().to_vec();
    bytes.pop();
    let mut r = ActionKv::new();
    assert_eq!(r.load(bytes), Err(KvError::Truncated { offset: second }));
    assert_eq!(r.get(b"one"), None);
    assert_eq!(r.seek_to_end(), 0);
}

#[test]
fn truncated_third_frame_names_its_offset() {
    let mut s = ActionKv::new();
    s.insert(b"one", b"1").unwrap();
    s.insert(b"two", b"22").unwrap();
    let end = s.seek_to_end();
    s.insert(b"three", b"333").unwrap();
    let bytes = s.log()[..end as usize + 14].to_vec();
    let mut r = ActionKv::new();
    assert_eq!(r.load(bytes), Err(KvError::Truncated { offset: end }));
}

#[test]
fn short_tail_is_a_clean_end() {
    let mut s = ActionKv::new();
    s.insert(b"one", b"1").unwrap();
    s.insert(b"two", b"22").unwrap();
    let mut bytes = s.log().to_vec();
    bytes.extend_from_slice(&[1, 2, 3, 4, 5]);
    let mut r = ActionKv::new();
    assert_eq!(r.load(bytes.clone()), Ok(()));
    assert_eq!(r.get(b"one"), Some(b"1".to_vec()));
    assert_eq!(r.get(b"two"), Some(b"22".to_vec()));
    assert_eq!(r.log(), &bytes[..]);
}

#[test]
fn corrupt_frame_fails_the_load() {
    let mut s = ActionKv::new();
    s.insert(b"one", b"1").unwrap();
    s.insert(b"two", b"22").unwrap();
    let second = s.offset_of(b"two").unwrap();
    let mut bytes = s.log().to_vec();
    let last = bytes.len() - 1;
    bytes[last] ^= 0x40;
    let mut r = ActionKv::new();
    match r.load(bytes) {
        Err(KvError::Corrupt { offset, expected, actual }) => {
            assert_eq!(offset, second);
            assert_ne!(expected, actual);
        }
        other => panic!("expected corruption, got {:?}", other),
    }
    assert_eq!(r.get(b"one"), None);
}

#[test]
fn failed_load_keeps_the_store() {
    let mut s = ActionKv::new();
    s.insert(b"kept", b"yes").unwrap();
    let before = s.log().to_vec();
    let mut bad = encode(b"k", b"v");
    bad.pop();
    assert_eq!(s.load(bad), Err(KvError::Truncated { offset: 0 }));
    assert_eq!(s.log(), &before[..]);
    assert_eq!(s.get(b"kept"), Some(b"yes".to_vec()));
}
