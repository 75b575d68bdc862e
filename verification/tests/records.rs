use persistent_counter::counter::Counter;

#[test]
fn record_message_appends_new_key() {
    let mut contract = Counter::default();
    contract.record_message(b"alice.near".to_vec(), b"hello".to_vec());
    contract.record_message(b"bob.near".to_vec(), b"hi".to_vec());
    let (val, records, local) = contract.into_parts();
    assert_eq!(0, val);
    assert_eq!(
        vec![
            (b"alice.near".to_vec(), b"hello".to_vec()),
            (b"bob.near".to_vec(), b"hi".to_vec()),
        ],
        records
    );
    assert!(local.is_empty());
}

#[test]
fn record_message_overwrites_existing_key() {
    let mut contract = Counter::default();
    contract.record_message(b"alice.near".to_vec(), b"first".to_vec());
    contract.record_message(b"alice.near".to_vec(), b"second".to_vec());
    let (_, records, _) = contract.into_parts();
    assert_eq!(vec![(b"alice.near".to_vec(), b"second".to_vec())], records);
}

#[test]
fn apply_account_input_prepends_and_accepts() {
    let mut contract = Counter::default();
    let accepted = contract.apply_account_input(
        b"login".to_vec(),
        b"contract.near".to_vec(),
        b"message".to_vec(),
    );
    assert!(accepted);
    let accepted2 = contract.apply_account_input(
        b"re-".to_vec(),
        b"contract.near".to_vec(),
        b"other".to_vec(),
    );
    assert!(accepted2);
    let (val, records, local) = contract.into_parts();
    assert_eq!(0, val);
    assert_eq!(b"re-login".to_vec(), local);
    assert_eq!(vec![(b"contract.near".to_vec(), b"other".to_vec())], records);
}

#[test]
fn apply_account_input_rejects_empty_identifier() {
    let mut contract = Counter::default();
    let accepted = contract.apply_account_input(
        Vec::new(),
        b"contract.near".to_vec(),
        b"message".to_vec(),
    );
    assert!(!accepted);
    let (_, records, local) = contract.into_parts();
    assert!(local.is_empty());
    assert_eq!(vec![(b"contract.near".to_vec(), b"message".to_vec())], records);
}

#[test]
fn from_parts_rejects_duplicate_keys() {
    let records = vec![
        (b"k".to_vec(), b"a".to_vec()),
        (b"k".to_vec(), b"b".to_vec()),
    ];
    assert!(Counter::from_parts(0, records, Vec::new()).is_none());
}

#[test]
fn from_parts_round_trips_through_into_parts() {
    let records = vec![(b"k1".to_vec(), b"a".to_vec()), (b"k2".to_vec(), b"b".to_vec())];
    let contract = Counter::from_parts(-5, records.clone(), b"id".to_vec()).unwrap();
    let (val, recs, local) = contract.into_parts();
    assert_eq!(-5, val);
    assert_eq!(records, recs);
    assert_eq!(b"id".to_vec(), local);
}
