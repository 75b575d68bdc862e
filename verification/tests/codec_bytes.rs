use persistent_counter::counter::Counter;

fn chunk(data: &[u8]) -> Vec<u8> {
    let mut out = (data.len() as u64).to_le_bytes().to_vec();
    out.extend_from_slice(data);
    out
}

#[test]
fn default_counter_layout_is_all_zero() {
    let contract = Counter::default();
    let bytes = contract.to_bytes();
    assert_eq!(vec![0u8; 17], bytes);
}

#[test]
fn negative_value_is_twos_complement() {
    let contract = Counter::from_parts(-1, Vec::new(), Vec::new()).unwrap();
    let bytes = contract.to_bytes();
    let mut expected = vec![255u8];
    expected.extend_from_slice(&[0u8; 16]);
    assert_eq!(expected, bytes);
}

#[test]
fn full_state_layout_is_exact() {
    let records = vec![(b"k".to_vec(), b"msg".to_vec())];
    let contract = Counter::from_parts(7, records, b"id".to_vec()).unwrap();
    let bytes = contract.to_bytes();
    let mut expected = vec![7u8];
    expected.extend_from_slice(&1u64.to_le_bytes());
    expected.extend_from_slice(&chunk(b"k"));
    expected.extend_from_slice(&chunk(b"msg"));
    expected.extend_from_slice(&chunk(b"id"));
    assert_eq!(expected, bytes);
}

#[test]
fn round_trip_preserves_every_representable_value() {
    for v in i8::MIN..=i8::MAX {
        let contract = Counter::from_parts(v, Vec::new(), Vec::new()).unwrap();
        let back = Counter::from_bytes(&contract.to_bytes()).unwrap();
        assert_eq!(v, back.get_num());
    }
}

#[test]
fn round_trip_preserves_records_and_identifier() {
    let records = vec![
        (b"alice.near".to_vec(), b"hello".to_vec()),
        (b"bob.near".to_vec(), b"".to_vec()),
    ];
    let contract = Counter::from_parts(-42, records.clone(), b"local".to_vec()).unwrap();
    let back = Counter::from_bytes(&contract.to_bytes()).unwrap();
    let (val, recs, local) = back.into_parts();
    assert_eq!(-42, val);
    assert_eq!(records, recs);
    assert_eq!(b"local".to_vec(), local);
}

#[test]
fn from_bytes_rejects_short_input() {
    assert!(Counter::from_bytes(&Vec::new()).is_none());
    assert!(Counter::from_bytes(&vec![0u8; 8]).is_none());
}

#[test]
fn from_bytes_rejects_trailing_bytes() {
    let mut bytes = Counter::default().to_bytes();
    bytes.push(0);
    assert!(Counter::from_bytes(&bytes).is_none());
}

#[test]
fn from_bytes_rejects_count_beyond_data() {
    let mut bytes = vec![0u8];
    bytes.extend_from_slice(&1u64.to_le_bytes());
    bytes.extend_from_slice(&chunk(b""));
    assert!(Counter::from_bytes(&bytes).is_none());
}

#[test]
fn from_bytes_rejects_duplicate_keys() {
    let mut bytes = vec![0u8];
    bytes.extend_from_slice(&2u64.to_le_bytes());
    bytes.extend_from_slice(&chunk(b"k"));
    bytes.extend_from_slice(&chunk(b"a"));
    bytes.extend_from_slice(&chunk(b"k"));
    bytes.extend_from_slice(&chunk(b"b"));
    bytes.extend_from_slice(&chunk(b""));
    assert!(Counter::from_bytes(&bytes).is_none());
}
