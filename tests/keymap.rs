use tough_keys::keymap::{decode_keys, KeyEntry, KeyMap, KeyMapError};

fn entry(keyid: &[u8], key: &str, calculated: &[u8]) -> KeyEntry<String> {
    KeyEntry { keyid: keyid.to_vec(), key: key.to_string(), calculated: Ok(calculated.to_vec()) }
}

#[test]
fn single_consistent_entry_is_accepted() {
    let map = decode_keys(vec![entry(&[0xab, 0xcd], "keyA", &[0xab, 0xcd])]).unwrap();
    assert_eq!(map.len(), 1);
    assert_eq!(map.get(&vec![0xab, 0xcd]), Some(&"keyA".to_string()));
    assert_eq!(map.get(&vec![0xff, 0xff]), None);
}

#[test]
fn mismatched_keyid_is_rejected_with_both_ids() {
    let err = decode_keys(vec![entry(&[0xab, 0xcd], "keyA", &[0xff, 0xff])]).unwrap_err();
    match err {
        KeyMapError::InvalidKeyId { keyid, calculated } => {
            assert_eq!(keyid, "abcd");
            assert_eq!(calculated, "ffff");
        }
        other => panic!("unexpected error {:?}", other),
    }
}

#[test]
fn duplicate_keyid_is_rejected() {
    let err = decode_keys(vec![
        entry(&[0xab, 0xcd], "keyA", &[0xab, 0xcd]),
        entry(&[0xab, 0xcd], "keyB", &[0xab, 0xcd]),
    ])
    .unwrap_err();
    match err {
        KeyMapError::DuplicateKeyId { keyid } => assert_eq!(keyid, "abcd"),
        other => panic!("unexpected error {:?}", other),
    }
}

#[test]
fn computation_failure_is_reported_as_such() {
    let err = decode_keys(vec![KeyEntry {
        keyid: vec![1, 2],
        key: "bad".to_string(),
        calculated: Err("cannot canonicalize".to_string()),
    }])
    .unwrap_err();
    match err {
        KeyMapError::KeyIdComputation { message } => assert_eq!(message, "cannot canonicalize"),
        other => panic!("unexpected error {:?}", other),
    }
}

#[test]
fn first_violation_in_input_order_is_reported() {
    let err = decode_keys(vec![
        entry(&[0x01], "k1", &[0x01]),
        entry(&[0x02], "k2", &[0x03]),
        entry(&[0x01], "k3", &[0x01]),
    ])
    .unwrap_err();
    match err {
        KeyMapError::InvalidKeyId { keyid, calculated } => {
            assert_eq!(keyid, "02");
            assert_eq!(calculated, "03");
        }
        other => panic!("unexpected error {:?}", other),
    }
}

#[test]
fn distinct_consistent_entries_are_all_kept() {
    let entries: Vec<KeyEntry<String>> = (0u8..5)
        .map(|b| entry(&[b, 0x10], &format!("key{}", b), &[b, 0x10]))
        .collect();
    let map = decode_keys(entries).unwrap();
    assert_eq!(map.len(), 5);
    for b in 0u8..5 {
        assert_eq!(map.get(&vec![b, 0x10]), Some(&format!("key{}", b)));
    }
}

#[test]
fn empty_input_gives_empty_map() {
    let map: KeyMap<String> = decode_keys(Vec::new()).unwrap();
    assert_eq!(map.len(), 0);
}

#[test]
fn decoding_twice_gives_the_same_result() {
    let make = || {
        vec![entry(&[0x0a], "a", &[0x0a]), entry(&[0x0b], "b", &[0x0b])]
    };
    let first = decode_keys(make()).unwrap();
    let second = decode_keys(make()).unwrap();
    assert_eq!(first.len(), second.len());
    assert_eq!(first.get(&vec![0x0a]), second.get(&vec![0x0a]));
    assert_eq!(first.get(&vec![0x0b]), second.get(&vec![0x0b]));
}

#[test]
fn refused_entry_leaves_the_map_unchanged() {
    let mut map: KeyMap<String> = KeyMap::new();
    map.validate_and_insert_entry(vec![0x01], "one".to_string(), Ok(vec![0x01])).unwrap();
    let r = map.validate_and_insert_entry(vec![0x01], "again".to_string(), Ok(vec![0x01]));
    assert!(matches!(r, Err(KeyMapError::DuplicateKeyId { .. })));
    assert_eq!(map.len(), 1);
    assert_eq!(map.get(&vec![0x01]), Some(&"one".to_string()));
    assert!(map.contains_id(&vec![0x01]));
    assert!(!map.contains_id(&vec![0x02]));
}

#[test]
fn hex_of_ids_uses_two_lowercase_digits_per_byte() {
    let err = decode_keys(vec![entry(&[0x00, 0x0f, 0xa0], "k", &[0xde, 0xad, 0xbe, 0xef])]).unwrap_err();
    match err {
        KeyMapError::InvalidKeyId { keyid, calculated } => {
            assert_eq!(keyid, "000fa0");
            assert_eq!(calculated, "deadbeef");
        }
        other => panic!("unexpected error {:?}", other),
    }
}

#[test]
fn entries_come_out_in_acceptance_order() {
    let map = decode_keys(vec![entry(&[0x02], "two", &[0x02]), entry(&[0x01], "one", &[0x01])]).unwrap();
    assert_eq!(
        map.into_entries(),
        vec![(vec![0x02], "two".to_string()), (vec![0x01], "one".to_string())]
    );
}
