use rust_udev::query::{
    assemble_char_device_info, basename, char_sysfs_path, udevadm_cli, udevadm_info, UdevadmError,
};

#[test]
fn sysfs_path_from_device_number() {
    // The Linux encoding of major 189, minor 3.
    let rdev: u64 = (189u64 << 8) | 3u64;
    assert_eq!(char_sysfs_path(rdev), "/sys/dev/char/189:3");
    // High major and minor bits sit in the upper halves.
    let big: u64 = ((0x12345u64 & 0xfff) << 8) | ((0x12345u64 & 0xfffff000) << 32)
        | (0xabcdu64 & 0xff) | ((0xabcdu64 & 0xffffff00) << 12);
    assert_eq!(char_sysfs_path(big), format!("/sys/dev/char/{}:{}", 0x12345, 0xabcd));
}

#[test]
fn basename_of_link_targets() {
    assert_eq!(basename("../../class/tty"), Some("tty".to_string()));
    assert_eq!(basename("usb/"), Some("usb".to_string()));
    assert_eq!(basename("plain"), Some("plain".to_string()));
    assert_eq!(basename("/"), None);
    assert_eq!(basename(""), None);
}

#[test]
fn char_device_record() {
    let info = assemble_char_device_info(
        "/dev/ttyUSB0",
        Some("MAJOR=189\nMINOR=3\nDEVNAME=ttyUSB0"),
        Some("../../class/tty"),
        Some("usb_device\n"),
        Some("../../../bus/usb/drivers/hub"),
        Some("../../../devices/pci0/usb1"),
        0o20660,
    );
    assert_eq!(info.get("DEVNAME").map(|s| s.as_str()), Some("/dev/ttyUSB0"));
    assert_eq!(info.get("MAJOR").map(|s| s.as_str()), Some("189"));
    assert_eq!(info.get("MINOR").map(|s| s.as_str()), Some("3"));
    assert_eq!(info.get("SUBSYSTEM").map(|s| s.as_str()), Some("tty"));
    assert_eq!(info.get("DEVTYPE").map(|s| s.as_str()), Some("usb_device"));
    assert_eq!(info.get("DRIVER").map(|s| s.as_str()), Some("hub"));
    assert_eq!(
        info.get("PHYSDEVPATH").map(|s| s.as_str()),
        Some("../../../devices/pci0/usb1"),
    );
    assert_eq!(info.get("DEVMODE").map(|s| s.as_str()), Some("660"));
}

#[test]
fn caller_devname_wins_over_uevent() {
    let info = assemble_char_device_info(
        "/dev/x",
        Some("DEVNAME=other\nKEY=v"),
        None,
        None,
        None,
        None,
        0o600,
    );
    assert_eq!(info.get("DEVNAME").map(|s| s.as_str()), Some("/dev/x"));
    assert_eq!(info.get("KEY").map(|s| s.as_str()), Some("v"));
}

#[test]
fn info_lines_and_not_found() {
    let info = assemble_char_device_info("/dev/x", Some("A=1"), None, None, None, None, 0o644);
    let lines = udevadm_info("/dev/x", Some(&info)).unwrap();
    assert!(lines.contains(&"DEVNAME=/dev/x".to_string()));
    assert!(lines.contains(&"A=1".to_string()));
    assert!(lines.contains(&"DEVMODE=644".to_string()));
    match udevadm_info("/dev/missing", None) {
        Err(UdevadmError::DeviceNotFound(p)) => assert_eq!(p, "/dev/missing"),
        other => panic!("expected DeviceNotFound, got {:?}", other),
    }
    assert!(udevadm_cli("/dev/x", Some(&info)).is_ok());
    assert!(udevadm_cli("/dev/missing", None).is_err());
}
