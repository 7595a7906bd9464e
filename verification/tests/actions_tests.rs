use rust_udev::actions::{execute_rule_actions, substitute_vars};
use rust_udev::daemon::{process_event, ProcessOutcome};
use rust_udev::device::UEventDevice;
use rust_udev::fsmodel::{FsEntry, FsOp, FsState};
use rust_udev::parser::{parse_rule_line, parse_rules_file, RuleFile};
use rust_udev::props::PropertyMap;

fn event(pairs: &[(&str, &str)]) -> PropertyMap {
    let mut pm = PropertyMap::new();
    for (k, v) in pairs {
        pm.insert(k.to_string(), v.to_string());
    }
    pm
}

fn device(pairs: &[(&str, &str)]) -> UEventDevice {
    UEventDevice::from_properties(event(pairs), 1000).unwrap()
}

fn usb(action: &str) -> UEventDevice {
    device(&[
        ("ACTION", action),
        ("SUBSYSTEM", "usb"),
        ("DEVPATH", "/devices/x"),
        ("DEVTYPE", "usb_device"),
        ("KERNEL", "ttyUSB0"),
        ("DEVNAME", "bus/usb/001/002"),
        ("MAJOR", "189"),
        ("MINOR", "3"),
    ])
}

#[test]
fn symlink_substitution() {
    let d = usb("add");
    assert_eq!(substitute_vars("by-id/%k", &d), "by-id/ttyUSB0");
}

#[test]
fn substitution_codes() {
    let d = usb("add");
    assert_eq!(substitute_vars("%n", &d), "bus/usb/001/002");
    assert_eq!(substitute_vars("%p", &d), "/devices/x");
    assert_eq!(substitute_vars("%c-%t", &d), "usb_device-usb_device");
    assert_eq!(substitute_vars("%s", &d), "usb");
    assert_eq!(substitute_vars("%m:%r", &d), "189:3");
    assert_eq!(substitute_vars("${ACTION}", &d), "add");
}

#[test]
fn substitution_leaves_missing_tokens() {
    let d = device(&[("ACTION", "add"), ("SUBSYSTEM", "usb"), ("DEVPATH", "/devices/x")]);
    assert_eq!(substitute_vars("a%kb", &d), "a%kb");
    assert_eq!(substitute_vars("%z", &d), "%z");
    assert_eq!(substitute_vars("${MISSING}", &d), "${MISSING}");
    assert_eq!(substitute_vars("${unclosed", &d), "${unclosed");
    assert_eq!(substitute_vars("100%", &d), "100%");
}

#[test]
fn add_plan_shape() {
    let rule = parse_rule_line(
        r#"SUBSYSTEM=="usb", ACTION=="add", SYMLINK+="by-id/%k", MODE="0660", OWNER="root", RUN+="/bin/true""#,
    );
    let plan = execute_rule_actions(&rule, &usb("add"));
    assert_eq!(plan.len(), 5);
    match &plan[0] {
        FsOp::Mknod { path, block, major, minor } => {
            assert_eq!(path, "bus/usb/001/002");
            assert!(!block);
            assert_eq!(*major, 189);
            assert_eq!(*minor, 3);
        }
        other => panic!("expected Mknod, got {:?}", other),
    }
    match &plan[1] {
        FsOp::SetMode { path, mode } => {
            assert_eq!(path, "bus/usb/001/002");
            assert_eq!(*mode, 0o660);
        }
        other => panic!("expected SetMode, got {:?}", other),
    }
    match &plan[2] {
        FsOp::SetOwner { owner, .. } => assert_eq!(owner, "root"),
        other => panic!("expected SetOwner, got {:?}", other),
    }
    match &plan[3] {
        FsOp::MakeLink { path, target } => {
            assert_eq!(path, "by-id/ttyUSB0");
            assert_eq!(target, "bus/usb/001/002");
        }
        other => panic!("expected MakeLink, got {:?}", other),
    }
    match &plan[4] {
        FsOp::Run { command } => assert_eq!(command, "/bin/true"),
        other => panic!("expected Run, got {:?}", other),
    }
}

#[test]
fn block_devices_get_block_nodes() {
    let d = device(&[
        ("ACTION", "add"),
        ("SUBSYSTEM", "block"),
        ("DEVPATH", "/devices/d"),
        ("DEVTYPE", "disk"),
        ("DEVNAME", "sda"),
    ]);
    let rule = parse_rule_line(r#"SUBSYSTEM=="block""#);
    let plan = execute_rule_actions(&rule, &d);
    match &plan[0] {
        FsOp::Mknod { block, major, minor, .. } => {
            assert!(block);
            assert_eq!(*major, 0);
            assert_eq!(*minor, 0);
        }
        other => panic!("expected Mknod, got {:?}", other),
    }
}

#[test]
fn bad_mode_string_is_skipped() {
    let rule = parse_rule_line(r#"ACTION=="add", MODE="99zz""#);
    let plan = execute_rule_actions(&rule, &usb("add"));
    assert!(plan.iter().all(|op| !matches!(op, FsOp::SetMode { .. })));
}

#[test]
fn devices_without_devnode_plan_nothing() {
    let d = device(&[("ACTION", "add"), ("SUBSYSTEM", "usb"), ("DEVPATH", "/devices/x")]);
    let rule = parse_rule_line(r#"SUBSYSTEM=="usb""#);
    assert!(execute_rule_actions(&rule, &d).is_empty());
}

#[test]
fn unsupported_actions_plan_nothing() {
    let rule = parse_rule_line(r#"SUBSYSTEM=="usb""#);
    assert!(execute_rule_actions(&rule, &usb("move")).is_empty());
    assert!(execute_rule_actions(&rule, &usb("frob")).is_empty());
}

#[test]
fn remove_reverses_add() {
    let rule = parse_rule_line(r#"SUBSYSTEM=="usb", SYMLINK+="by-id/%k", MODE="0660""#);
    let mut fs = FsState::new();
    fs.apply_plan(&execute_rule_actions(&rule, &usb("add")));
    assert!(fs.lookup("bus/usb/001/002").is_some());
    assert!(fs.lookup("by-id/ttyUSB0").is_some());
    fs.apply_plan(&execute_rule_actions(&rule, &usb("remove")));
    assert!(fs.lookup("bus/usb/001/002").is_none());
    assert!(fs.lookup("by-id/ttyUSB0").is_none());
    assert_eq!(fs.entry_count(), 0);
}

#[test]
fn add_twice_equals_add_once() {
    let rule = parse_rule_line(r#"SUBSYSTEM=="usb", SYMLINK+="by-id/%k", MODE="0644""#);
    let plan = execute_rule_actions(&rule, &usb("add"));
    let mut once = FsState::new();
    once.apply_plan(&plan);
    let mut twice = FsState::new();
    twice.apply_plan(&plan);
    twice.apply_plan(&plan);
    assert_eq!(once.entry_count(), twice.entry_count());
    for path in ["bus/usb/001/002", "by-id/ttyUSB0"] {
        match (once.lookup(path), twice.lookup(path)) {
            (Some(a), Some(b)) => assert_eq!(format!("{:?}", a), format!("{:?}", b)),
            (None, None) => {}
            _ => panic!("states differ at {}", path),
        }
    }
}

#[test]
fn change_reapplies_settings_only() {
    let rule = parse_rule_line(r#"SUBSYSTEM=="usb", MODE="0600", GROUP="dialout""#);
    let plan = execute_rule_actions(&rule, &usb("change"));
    assert_eq!(plan.len(), 2);
    assert!(matches!(plan[0], FsOp::SetMode { .. }));
    assert!(matches!(plan[1], FsOp::SetGroup { .. }));
}

#[test]
fn unbind_removes_links_and_runs() {
    let rule = parse_rule_line(r#"ACTION=="unbind", RUN+="/bin/u""#);
    let plan = execute_rule_actions(&rule, &usb("unbind"));
    assert_eq!(plan.len(), 2);
    assert!(matches!(plan[0], FsOp::RemoveLinksTo { .. }));
    assert!(matches!(plan[1], FsOp::Run { .. }));
}

#[test]
fn mode_applies_to_existing_node() {
    let rule_add = parse_rule_line(r#"SUBSYSTEM=="usb", MODE="0660""#);
    let mut fs = FsState::new();
    fs.apply_plan(&execute_rule_actions(&rule_add, &usb("add")));
    let rule_change = parse_rule_line(r#"SUBSYSTEM=="usb", MODE="0444""#);
    fs.apply_plan(&execute_rule_actions(&rule_change, &usb("change")));
    match fs.lookup("bus/usb/001/002") {
        Some(FsEntry::Node { mode, .. }) => assert_eq!(*mode, 0o444),
        other => panic!("expected a node, got {:?}", other),
    }
}

#[test]
fn first_file_wins() {
    let files = vec![
        RuleFile {
            name: "99-z.rules".to_string(),
            lines: vec![r#"SUBSYSTEM=="usb", SYMLINK+="z_link""#.to_string()],
        },
        RuleFile {
            name: "10-a.rules".to_string(),
            lines: vec![r#"SUBSYSTEM=="usb", SYMLINK+="a_link""#.to_string()],
        },
    ];
    let rules = parse_rules_file(files);
    match process_event(&usb("add"), &rules) {
        ProcessOutcome::Matched(i, plan) => {
            assert_eq!(i, 0);
            assert!(plan.iter().any(
                |op| matches!(op, FsOp::MakeLink { path, .. } if path == "a_link"),
            ));
            assert!(plan.iter().all(
                |op| !matches!(op, FsOp::MakeLink { path, .. } if path == "z_link"),
            ));
        }
        _ => panic!("expected a match"),
    }
}

#[test]
fn dispatch_add_then_remove_empties_the_root() {
    let rules = vec![parse_rule_line(r#"SUBSYSTEM=="usb", SYMLINK+="by-id/%k""#)];
    let mut fs = FsState::new();
    match process_event(&usb("add"), &rules) {
        ProcessOutcome::Matched(_, plan) => fs.apply_plan(&plan),
        _ => panic!("expected a match"),
    }
    assert!(fs.entry_count() > 0);
    match process_event(&usb("remove"), &rules) {
        ProcessOutcome::Matched(_, plan) => fs.apply_plan(&plan),
        _ => panic!("expected a match"),
    }
    assert_eq!(fs.entry_count(), 0);
}

#[test]
fn non_usb_devices_are_filtered() {
    let d = device(&[("ACTION", "add"), ("SUBSYSTEM", "block"), ("DEVPATH", "/devices/d")]);
    let rules = vec![parse_rule_line(r#"SUBSYSTEM=="block""#)];
    assert!(matches!(process_event(&d, &rules), ProcessOutcome::Filtered));
}

#[test]
fn no_rule_matching_is_reported() {
    let rules = vec![parse_rule_line(r#"SUBSYSTEM=="sound""#)];
    assert!(matches!(process_event(&usb("add"), &rules), ProcessOutcome::NoMatch));
}
