use rust_udev::props::{decode_event_payload, encode_event_payload, PropertyMap};

#[test]
fn decode_splits_nul_separated_fields() {
    let pm = decode_event_payload("add@/devices/x\0ACTION=add\0SUBSYSTEM=usb\0DEVPATH=/devices/x");
    assert_eq!(pm.get("ACTION").map(|s| s.as_str()), Some("add"));
    assert_eq!(pm.get("SUBSYSTEM").map(|s| s.as_str()), Some("usb"));
    assert_eq!(pm.get("DEVPATH").map(|s| s.as_str()), Some("/devices/x"));
    assert_eq!(pm.len(), 3);
    assert!(pm.get("add@/devices/x").is_none());
}

#[test]
fn decode_ignores_fields_without_separator() {
    let pm = decode_event_payload("justtext\0KEY=value\0noequals");
    assert_eq!(pm.len(), 1);
    assert_eq!(pm.get("KEY").map(|s| s.as_str()), Some("value"));
}

#[test]
fn decode_keeps_last_value_of_repeated_key() {
    let pm = decode_event_payload("K=first\0K=second");
    assert_eq!(pm.len(), 1);
    assert_eq!(pm.get("K").map(|s| s.as_str()), Some("second"));
}

#[test]
fn decode_splits_at_first_equals_only() {
    let pm = decode_event_payload("K=a=b");
    assert_eq!(pm.get("K").map(|s| s.as_str()), Some("a=b"));
}

#[test]
fn decode_of_empty_payload_is_empty() {
    let pm = decode_event_payload("");
    assert_eq!(pm.len(), 0);
}

#[test]
fn encode_sorts_by_key() {
    let mut pm = PropertyMap::new();
    pm.insert("B".to_string(), "2".to_string());
    pm.insert("A".to_string(), "1".to_string());
    pm.insert("C".to_string(), "3".to_string());
    assert_eq!(encode_event_payload(&pm), "A=1\0B=2\0C=3");
}

#[test]
fn round_trip_keeps_the_key_set() {
    let mut pm = PropertyMap::new();
    pm.insert("SUBSYSTEM".to_string(), "usb".to_string());
    pm.insert("ACTION".to_string(), "add".to_string());
    pm.insert("DEVPATH".to_string(), "/devices/x".to_string());
    pm.insert("ID_MODEL".to_string(), "a=b c".to_string());
    let back = decode_event_payload(&encode_event_payload(&pm));
    assert_eq!(back.len(), pm.len());
    for i in 0..pm.len() {
        let k = pm.key_at(i).clone();
        assert!(back.contains_key(&k));
        assert_eq!(back.get(&k), pm.get(&k));
    }
}

#[test]
fn insert_overwrites_in_place() {
    let mut pm = PropertyMap::new();
    pm.insert("K".to_string(), "one".to_string());
    pm.insert("L".to_string(), "x".to_string());
    pm.insert("K".to_string(), "two".to_string());
    assert_eq!(pm.len(), 2);
    assert_eq!(pm.get("K").map(|s| s.as_str()), Some("two"));
    assert_eq!(pm.key_at(0).as_str(), "K");
}
