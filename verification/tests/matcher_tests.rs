use rust_udev::device::UEventDevice;
use rust_udev::matcher::Rule;
use rust_udev::parser::parse_rule_line;
use rust_udev::props::PropertyMap;

fn event(pairs: &[(&str, &str)]) -> PropertyMap {
    let mut pm = PropertyMap::new();
    for (k, v) in pairs {
        pm.insert(k.to_string(), v.to_string());
    }
    pm
}

fn usb_device() -> UEventDevice {
    let pm = event(&[
        ("ACTION", "add"),
        ("SUBSYSTEM", "usb"),
        ("DEVPATH", "/devices/x"),
        ("DEVTYPE", "usb_device"),
        ("DEVNAME", "bus/usb/001/002"),
    ]);
    UEventDevice::from_properties(pm, 1000).unwrap()
}

#[test]
fn match_positive() {
    let rule = parse_rule_line(r#"SUBSYSTEM=="usb", ACTION=="add""#);
    assert!(rule.matches(&usb_device()));
}

#[test]
fn match_negative_by_action() {
    let rule = parse_rule_line(r#"SUBSYSTEM=="usb", ACTION=="remove""#);
    assert!(!rule.matches(&usb_device()));
}

#[test]
fn rule_without_predicates_never_matches() {
    let rule = Rule::new();
    assert!(!rule.matches(&usb_device()));
    let assignments_only = parse_rule_line(r#"MODE="0660", SYMLINK+="x""#);
    assert!(!assignments_only.matches(&usb_device()));
}

#[test]
fn action_only_rule_is_case_insensitive() {
    let rule = parse_rule_line(r#"ACTION=="ADD""#);
    assert!(rule.matches(&usb_device()));
    let rule2 = parse_rule_line(r#"ACTION=="Remove""#);
    assert!(!rule2.matches(&usb_device()));
}

#[test]
fn subsystem_is_case_insensitive() {
    let rule = parse_rule_line(r#"SUBSYSTEM=="USB""#);
    assert!(rule.matches(&usb_device()));
}

#[test]
fn kernel_predicate_fails_when_absent() {
    let rule = parse_rule_line(r#"KERNEL=="ttyUSB0""#);
    assert!(!rule.matches(&usb_device()));
    let pm = event(&[
        ("ACTION", "add"),
        ("SUBSYSTEM", "tty"),
        ("DEVPATH", "/devices/y"),
        ("KERNEL", "TTYUSB0"),
    ]);
    let dev = UEventDevice::from_properties(pm, 1000).unwrap();
    assert!(rule.matches(&dev));
}

#[test]
fn devpath_predicate() {
    let rule = parse_rule_line(r#"DEVPATH=="/devices/X""#);
    assert!(rule.matches(&usb_device()));
    let other = parse_rule_line(r#"DEVPATH=="/devices/other""#);
    assert!(!other.matches(&usb_device()));
}

#[test]
fn driver_predicate_reads_properties() {
    let pm = event(&[
        ("ACTION", "add"),
        ("SUBSYSTEM", "tty"),
        ("DEVPATH", "/devices/y"),
        ("DRIVER", "usbserial"),
    ]);
    let dev = UEventDevice::from_properties(pm, 0).unwrap();
    let rule = parse_rule_line(r#"DRIVER=="usbserial""#);
    assert!(rule.matches(&dev));
    let rule2 = parse_rule_line(r#"DRIVER=="other""#);
    assert!(!rule2.matches(&dev));
}

#[test]
fn tag_predicate_is_exact() {
    let pm = event(&[
        ("ACTION", "add"),
        ("SUBSYSTEM", "tty"),
        ("DEVPATH", "/devices/y"),
        ("TAG", "seat"),
    ]);
    let dev = UEventDevice::from_properties(pm, 0).unwrap();
    assert!(parse_rule_line(r#"TAG=="seat""#).matches(&dev));
    assert!(!parse_rule_line(r#"TAG=="SEAT""#).matches(&dev));
    assert!(!parse_rule_line(r#"TAG=="other""#).matches(&dev));
}

#[test]
fn env_predicates_are_exact_and_all_required() {
    let pm = event(&[
        ("ACTION", "add"),
        ("SUBSYSTEM", "usb"),
        ("DEVPATH", "/devices/x"),
        ("ID_MODEL", "Widget"),
    ]);
    let dev = UEventDevice::from_properties(pm, 0).unwrap();
    assert!(parse_rule_line(r#"ENV{ID_MODEL}=="Widget""#).matches(&dev));
    assert!(!parse_rule_line(r#"ENV{ID_MODEL}=="widget""#).matches(&dev));
    assert!(!parse_rule_line(r#"ENV{ID_MODEL}=="Widget", ENV{MISSING}=="x""#).matches(&dev));
}

#[test]
fn attr_predicates_use_trimmed_sysattrs() {
    let mut dev = usb_device();
    dev.set_sysattr("size".to_string(), "1024\n".to_string());
    assert!(parse_rule_line(r#"ATTR{size}=="1024""#).matches(&dev));
    assert!(!parse_rule_line(r#"ATTR{size}=="2048""#).matches(&dev));
    assert!(!parse_rule_line(r#"ATTR{missing}=="1""#).matches(&dev));
}

#[test]
fn run_for_finds_commands() {
    let rule = parse_rule_line(r#"ACTION=="add", RUN+="/bin/a", RUN+="/bin/b""#);
    let cmds = rule.run_for("add").unwrap();
    assert_eq!(cmds, &vec!["/bin/a".to_string(), "/bin/b".to_string()]);
    assert!(rule.run_for("remove").is_none());
}
