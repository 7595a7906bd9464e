use rust_udev::device::{DeviceAction, UEventDevice};
use rust_udev::props::PropertyMap;

fn event(pairs: &[(&str, &str)]) -> PropertyMap {
    let mut pm = PropertyMap::new();
    for (k, v) in pairs {
        pm.insert(k.to_string(), v.to_string());
    }
    pm
}

#[test]
fn action_parse_known_and_unknown() {
    assert!(matches!(DeviceAction::from_str("add"), DeviceAction::Add));
    assert!(matches!(DeviceAction::from_str("REMOVE"), DeviceAction::Remove));
    assert!(matches!(DeviceAction::from_str("Change"), DeviceAction::Change));
    assert!(matches!(DeviceAction::from_str("bind"), DeviceAction::Bind));
    assert!(matches!(DeviceAction::from_str("unbind"), DeviceAction::Unbind));
    assert!(matches!(DeviceAction::from_str("move"), DeviceAction::Move));
    assert!(matches!(DeviceAction::from_str("online"), DeviceAction::Online));
    assert!(matches!(DeviceAction::from_str("offline"), DeviceAction::Offline));
    match DeviceAction::from_str("Frob") {
        DeviceAction::Unknown(s) => assert_eq!(s, "Frob"),
        other => panic!("expected Unknown, got {:?}", other),
    }
}

#[test]
fn action_as_str() {
    assert_eq!(DeviceAction::Add.as_str(), "add");
    assert_eq!(DeviceAction::Offline.as_str(), "offline");
    assert_eq!(DeviceAction::Unknown("frob".to_string()).as_str(), "frob");
}

#[test]
fn from_properties_fills_fields() {
    let pm = event(&[
        ("ACTION", "add"),
        ("SUBSYSTEM", "usb"),
        ("DEVPATH", "/devices/x"),
        ("DEVTYPE", "usb_device"),
        ("KERNEL", "1-1"),
        ("DEVNAME", "bus/usb/001/002"),
        ("DRIVER", "hub"),
        ("MAJOR", "189"),
        ("MINOR", "3"),
        ("DEVNUM", "7"),
        ("SEQNUM", "4242"),
    ]);
    let d = UEventDevice::from_properties(pm, 1234).unwrap();
    assert!(matches!(d.action(), DeviceAction::Add));
    assert_eq!(d.subsystem(), "usb");
    assert_eq!(d.devpath(), "/devices/x");
    assert_eq!(d.devtype(), Some("usb_device"));
    assert_eq!(d.kernel(), Some("1-1"));
    assert_eq!(d.devnode(), Some("bus/usb/001/002"));
    assert_eq!(d.driver(), Some("hub"));
    assert_eq!(d.major(), Some(189));
    assert_eq!(d.minor(), Some(3));
    assert_eq!(d.devnum(), Some(7));
    assert_eq!(d.seqnum(), 4242);
    assert_eq!(d.timestamp(), 1234);
    assert_eq!(d.syspath(), "/sys/devices/x");
    assert!(d.is_usb_device());
    assert!(!d.is_block_device());
    assert_eq!(d.properties().get("ACTION").map(|s| s.as_str()), Some("add"));
    assert_eq!(d.sysattrs().len(), 0);
}

#[test]
fn from_properties_requires_three_keys() {
    let no_action = event(&[("SUBSYSTEM", "usb"), ("DEVPATH", "/devices/x")]);
    assert!(UEventDevice::from_properties(no_action, 0).is_none());
    let no_subsystem = event(&[("ACTION", "add"), ("DEVPATH", "/devices/x")]);
    assert!(UEventDevice::from_properties(no_subsystem, 0).is_none());
    let no_devpath = event(&[("ACTION", "add"), ("SUBSYSTEM", "usb")]);
    assert!(UEventDevice::from_properties(no_devpath, 0).is_none());
}

#[test]
fn numeric_fields_parse_best_effort() {
    let pm = event(&[
        ("ACTION", "add"),
        ("SUBSYSTEM", "block"),
        ("DEVPATH", "/devices/y"),
        ("MAJOR", "not-a-number"),
        ("DEVNUM", "c189:3"),
    ]);
    let d = UEventDevice::from_properties(pm, 0).unwrap();
    assert_eq!(d.major(), None);
    assert_eq!(d.minor(), None);
    assert_eq!(d.devnum(), None);
    assert_eq!(d.seqnum(), 0);
    assert!(d.is_block_device());
}

#[test]
fn plus_prefixed_numbers_parse() {
    let pm = event(&[
        ("ACTION", "add"),
        ("SUBSYSTEM", "usb"),
        ("DEVPATH", "/devices/x"),
        ("MAJOR", "+21"),
    ]);
    let d = UEventDevice::from_properties(pm, 0).unwrap();
    assert_eq!(d.major(), Some(21));
}

#[test]
fn unknown_action_survives() {
    let pm = event(&[("ACTION", "frobnicate"), ("SUBSYSTEM", "usb"), ("DEVPATH", "/devices/x")]);
    let d = UEventDevice::from_properties(pm, 0).unwrap();
    match d.action() {
        DeviceAction::Unknown(s) => assert_eq!(s, "frobnicate"),
        other => panic!("expected Unknown, got {:?}", other),
    }
}

#[test]
fn from_event_stamps_the_clock() {
    let pm = event(&[("ACTION", "add"), ("SUBSYSTEM", "usb"), ("DEVPATH", "/devices/x")]);
    let d = UEventDevice::from_event(pm).unwrap();
    assert_eq!(d.subsystem(), "usb");
    let missing = event(&[("SUBSYSTEM", "usb")]);
    assert!(UEventDevice::from_event(missing).is_none());
}

#[test]
fn sysattrs_can_be_filled() {
    let pm = event(&[("ACTION", "add"), ("SUBSYSTEM", "usb"), ("DEVPATH", "/devices/x")]);
    let mut d = UEventDevice::from_properties(pm, 0).unwrap();
    d.set_sysattr("idVendor".to_string(), "1d6b".to_string());
    assert_eq!(d.sysattrs().get("idVendor").map(|s| s.as_str()), Some("1d6b"));
}
