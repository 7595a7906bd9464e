use rust_udev::parser::{file_sort_key, load_all_rules, parse_rule_line, parse_rules_file, RuleFile};

fn file(name: &str, lines: &[&str]) -> RuleFile {
    RuleFile {
        name: name.to_string(),
        lines: lines.iter().map(|l| l.to_string()).collect(),
    }
}

#[test]
fn parse_single_rule() {
    let rules = parse_rules_file(vec![file(
        "99.rules",
        &[r#"SUBSYSTEM=="usb", ACTION=="add", SYMLINK+="my_usb", MODE="0660", RUN+="/bin/true""#],
    )]);
    assert_eq!(rules.len(), 1);
    let r = &rules[0];
    assert_eq!(r.subsystem.as_deref(), Some("usb"));
    assert_eq!(r.action.as_deref(), Some("add"));
    assert_eq!(r.symlink, vec!["my_usb".to_string()]);
    assert_eq!(r.mode.as_deref(), Some("0660"));
    assert_eq!(r.run.len(), 1);
    assert_eq!(r.run[0].0, "add");
    assert_eq!(r.run[0].1, vec!["/bin/true".to_string()]);
}

#[test]
fn parse_line_env_and_attr() {
    let r = parse_rule_line(r#"ENV{ID_MODEL}=="Widget", ATTR{size}=="1024", KERNEL=="sda""#);
    assert_eq!(r.env_vars, vec![("ID_MODEL".to_string(), "Widget".to_string())]);
    assert_eq!(r.attr, vec![("size".to_string(), "1024".to_string())]);
    assert_eq!(r.kernel.as_deref(), Some("sda"));
}

#[test]
fn parse_line_assignments_and_control() {
    let r = parse_rule_line(
        r#"NAME=="ttyX", OWNER="root", GROUP="dialout", PROGRAM=="/bin/probe", LABEL="end", GOTO="end", OPTIONS+="last_rule", OPTIONS+="ignore_device""#,
    );
    assert_eq!(r.name.as_deref(), Some("ttyX"));
    assert_eq!(r.owner.as_deref(), Some("root"));
    assert_eq!(r.group.as_deref(), Some("dialout"));
    assert_eq!(r.program.as_deref(), Some("/bin/probe"));
    assert_eq!(r.label.as_deref(), Some("end"));
    assert_eq!(r.goto.as_deref(), Some("end"));
    assert!(r.last_rule);
    assert!(r.ignore_device);
}

#[test]
fn run_without_action_is_dropped() {
    let r = parse_rule_line(r#"SUBSYSTEM=="usb", RUN+="/bin/true""#);
    assert!(r.run.is_empty());
    let r2 = parse_rule_line(r#"RUN+="/bin/early", ACTION=="add", RUN+="/bin/late""#);
    assert_eq!(r2.run.len(), 1);
    assert_eq!(r2.run[0].0, "add");
    assert_eq!(r2.run[0].1, vec!["/bin/late".to_string()]);
}

#[test]
fn run_groups_by_action() {
    let r = parse_rule_line(r#"ACTION=="add", RUN+="/bin/a", RUN+="/bin/b""#);
    assert_eq!(r.run.len(), 1);
    assert_eq!(r.run[0].1, vec!["/bin/a".to_string(), "/bin/b".to_string()]);
}

#[test]
fn malformed_line_yields_inert_rule() {
    let r = parse_rule_line("this is not a rule");
    assert!(r.action.is_none());
    assert!(r.subsystem.is_none());
    assert!(r.env_vars.is_empty());
    assert!(r.attr.is_empty());
}

#[test]
fn unknown_keys_are_ignored() {
    let r = parse_rule_line(r#"FROBNICATE=="x", SUBSYSTEM=="usb""#);
    assert_eq!(r.subsystem.as_deref(), Some("usb"));
    assert!(r.action.is_none());
}

#[test]
fn comments_and_blanks_are_skipped() {
    let rules = parse_rules_file(vec![file(
        "10.rules",
        &["# a comment", "", "   ", r#"SUBSYSTEM=="usb""#, "  # indented comment"],
    )]);
    assert_eq!(rules.len(), 1);
    assert_eq!(rules[0].subsystem.as_deref(), Some("usb"));
}

#[test]
fn numeric_prefix_keys() {
    assert_eq!(file_sort_key("10-a.rules"), 10);
    assert_eq!(file_sort_key("99-z.rules"), 99);
    assert_eq!(file_sort_key("abc.rules"), 0);
    assert_eq!(file_sort_key("a5b.rules"), 5);
    assert_eq!(file_sort_key("99999999999x7.rules"), 7);
    assert_eq!(file_sort_key(""), 0);
}

#[test]
fn file_ordering_by_numeric_prefix() {
    let rules = parse_rules_file(vec![
        file("99-z.rules", &[r#"SUBSYSTEM=="zz""#]),
        file("10-a.rules", &[r#"SUBSYSTEM=="aa""#]),
        file("5-b.rules", &[r#"SUBSYSTEM=="bb""#]),
    ]);
    assert_eq!(rules.len(), 3);
    assert_eq!(rules[0].subsystem.as_deref(), Some("bb"));
    assert_eq!(rules[1].subsystem.as_deref(), Some("aa"));
    assert_eq!(rules[2].subsystem.as_deref(), Some("zz"));
}

#[test]
fn equal_prefixes_keep_listed_order() {
    let rules = parse_rules_file(vec![
        file("10-b.rules", &[r#"SUBSYSTEM=="first""#]),
        file("10-a.rules", &[r#"SUBSYSTEM=="second""#]),
    ]);
    assert_eq!(rules[0].subsystem.as_deref(), Some("first"));
    assert_eq!(rules[1].subsystem.as_deref(), Some("second"));
}

#[test]
fn line_order_within_file_is_kept() {
    let rules = parse_rules_file(vec![file(
        "10.rules",
        &[r#"KERNEL=="a""#, r#"KERNEL=="b""#, r#"KERNEL=="c""#],
    )]);
    let kernels: Vec<_> = rules.iter().map(|r| r.kernel.clone().unwrap()).collect();
    assert_eq!(kernels, vec!["a".to_string(), "b".to_string(), "c".to_string()]);
}

#[test]
fn directories_keep_configured_order() {
    let rules = load_all_rules(vec![
        vec![file("99.rules", &[r#"SUBSYSTEM=="late""#])],
        vec![file("10.rules", &[r#"SUBSYSTEM=="early""#])],
    ]);
    assert_eq!(rules[0].subsystem.as_deref(), Some("late"));
    assert_eq!(rules[1].subsystem.as_deref(), Some("early"));
}

#[test]
fn value_may_hold_spaces_and_braces() {
    let r = parse_rule_line(r#"ENV{K}=="a b c", SYMLINK+="x y""#);
    assert_eq!(r.env_vars, vec![("K".to_string(), "a b c".to_string())]);
    assert_eq!(r.symlink, vec!["x y".to_string()]);
}

#[test]
fn operators_are_told_apart() {
    let r = parse_rule_line(r#"MODE="0644""#);
    assert_eq!(r.mode.as_deref(), Some("0644"));
    let r2 = parse_rule_line(r#"MODE=="0644""#);
    assert!(r2.mode.is_none());
    let r3 = parse_rule_line(r#"SYMLINK="plain""#);
    assert!(r3.symlink.is_empty());
}
