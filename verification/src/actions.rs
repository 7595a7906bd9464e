//! The action executor: variable substitution for symlink patterns and
//! commands, and the plan of filesystem operations a matched rule yields
//! for a device.

use vstd::prelude::*;
use vstd::string::*;

use crate::device::DeviceAction;
use crate::device::UEventDevice;
use crate::fsmodel::FsOp;
use crate::fsmodel::FsOpV;
use crate::fsmodel::FsEntryV;
use crate::fsmodel::is_link_to;
use crate::fsmodel::apply_op;
use crate::fsmodel::apply_ops;
use crate::fsmodel::lemma_apply_ops_concat;
use crate::matcher::Rule;
use crate::matcher::RuleV;
use crate::matcher::lookup_run_spec;
use crate::props::lookup_spec;
use crate::strutil::dec_str;
use crate::strutil::append_dec_u64;
use crate::strutil::find_char;
use crate::strutil::find_char_spec;
use crate::strutil::lemma_find_char_in_range;
use crate::strutil::lemma_find_shift;
use crate::strutil::parse_octal_spec;
use crate::strutil::parse_octal_u32;
use crate::strutil::substr_string;

verus! {

/// Is `c` one of the single-character substitution codes?
pub open spec fn is_pct_code(c: char) -> bool {
    c == 'k' || c == 'n' || c == 'p' || c == 'c' || c == 't' || c == 'd' || c == 's' || c == 'm'
        || c == 'r'
}

/// The text a `%`-code stands for on this device, when its source field is
/// present: kernel, devnode, devpath, devtype (twice), devnum, subsystem,
/// major, minor.
pub open spec fn pct_value(d: &UEventDevice, c: char) -> Option<Seq<char>> {
    if c == 'k' {
        d.s_kernel()
    } else if c == 'n' {
        d.s_devnode()
    } else if c == 'p' {
        Option::Some(d.s_devpath())
    } else if c == 'c' || c == 't' {
        d.s_devtype()
    } else if c == 'd' {
        match d.s_devnum() {
            Option::Some(n) => Option::Some(dec_str(n as nat)),
            Option::None => Option::None,
        }
    } else if c == 's' {
        Option::Some(d.s_subsystem())
    } else if c == 'm' {
        match d.s_major() {
            Option::Some(n) => Option::Some(dec_str(n as nat)),
            Option::None => Option::None,
        }
    } else if c == 'r' {
        match d.s_minor() {
            Option::Some(n) => Option::Some(dec_str(n as nat)),
            Option::None => Option::None,
        }
    } else {
        Option::None
    }
}

/// The substitution of `s` for device `d`, scanning left to right: a
/// `%`-code becomes its value, `${NAME}` becomes the property's value, and
/// a token whose value is missing stays as it stands.
pub open spec fn subst_spec(s: Seq<char>, d: &UEventDevice) -> Seq<char>
    decreases s.len()
        via subst_spec_dec
{
    if s.len() == 0 {
        Seq::empty()
    } else if s[0] == '%' && s.len() >= 2 {
        match pct_value(d, s[1]) {
            Option::Some(v) => v + subst_spec(s.skip(2), d),
            Option::None => if is_pct_code(s[1]) {
                seq!['%', s[1]] + subst_spec(s.skip(2), d)
            } else {
                seq!['%'] + subst_spec(s.skip(1), d)
            },
        }
    } else if s[0] == '$' && s.len() >= 2 && s[1] == '{' {
        match find_char_spec(s, '}', 2) {
            Option::Some(m) => match lookup_spec(d.s_props(), s.subrange(2, m)) {
                Option::Some(v) => v + subst_spec(s.skip(m + 1), d),
                Option::None => s.subrange(0, m + 1) + subst_spec(s.skip(m + 1), d),
            },
            Option::None => seq!['$'] + subst_spec(s.skip(1), d),
        }
    } else {
        seq![s[0]] + subst_spec(s.skip(1), d)
    }
}

#[via_fn]
proof fn subst_spec_dec(s: Seq<char>, d: &UEventDevice) {
    if s.len() >= 2 && s[0] == '$' && s[1] == '{' {
        lemma_find_char_in_range(s, '}', 2);
    }
}

/// Append the replacement of the `%`-code at `input[i + 1]`, or report
/// that the character is no code at all.
fn append_pct(out: &mut String, input: &str, i: usize, device: &UEventDevice) -> (took: bool)
    requires
        input@.len() <= usize::MAX,
        i + 1 < input@.len(),
        input@[i as int] == '%',
    ensures
        ({
            let c = input@[i as int + 1];
            match pct_value(device, c) {
                Option::Some(v) => took && final(out)@ == old(out)@ + v,
                Option::None => if is_pct_code(c) {
                    took && final(out)@ == old(out)@ + seq!['%', c]
                } else {
                    !took && final(out)@ == old(out)@
                },
            }
        }),
{
    let c = input.get_char(i + 1);
    if c == 'k' {
        match device.kernel() {
            Some(v) => out.append(v),
            None => append_token(out, input, i),
        }
        true
    } else if c == 'n' {
        match device.devnode() {
            Some(v) => out.append(v),
            None => append_token(out, input, i),
        }
        true
    } else if c == 'p' {
        out.append(device.devpath());
        true
    } else if c == 'c' || c == 't' {
        match device.devtype() {
            Some(v) => out.append(v),
            None => append_token(out, input, i),
        }
        true
    } else if c == 'd' {
        match device.devnum() {
            Some(n) => append_dec_u64(out, n),
            None => append_token(out, input, i),
        }
        true
    } else if c == 's' {
        out.append(device.subsystem());
        true
    } else if c == 'm' {
        match device.major() {
            Some(n) => append_dec_u64(out, n as u64),
            None => append_token(out, input, i),
        }
        true
    } else if c == 'r' {
        match device.minor() {
            Some(n) => append_dec_u64(out, n as u64),
            None => append_token(out, input, i),
        }
        true
    } else {
        false
    }
}

/// Append the two-character token `input[i..i + 2]` unchanged.
fn append_token(out: &mut String, input: &str, i: usize)
    requires
        input@.len() <= usize::MAX,
        i + 1 < input@.len(),
    ensures
        final(out)@ == old(out)@ + seq![input@[i as int], input@[i as int + 1]],
{
    let piece = input.substring_char(i, i + 2);
    proof {
        assert(piece@ =~= seq![input@[i as int], input@[i as int + 1]]);
    }
    out.append(piece);
}

/// Replace `%`-codes and `${NAME}` property references in `input` with the
/// device's values, left to right; tokens whose value is missing stay
/// unchanged.
pub fn substitute_vars(input: &str, device: &UEventDevice) -> (r: String)
    ensures
        r@ == subst_spec(input@, device),
{
    let n = input.unicode_len();
    let mut out = String::new();
    let mut i: usize = 0;
    proof {
        assert(input@.skip(0) =~= input@);
        assert(out@ + subst_spec(input@, device) =~= subst_spec(input@, device));
    }
    while i < n
        invariant
            0 <= i <= n,
            n == input@.len(),
            out@ + subst_spec(input@.skip(i as int), device) == subst_spec(input@, device),
        decreases n - i,
    {
        let ghost rest = input@.skip(i as int);
        let ghost obefore = out@;
        proof {
            assert(rest[0] == input@[i as int]);
            assert(rest.len() == n - i);
            if rest.len() >= 2 {
                assert(rest[1] == input@[i as int + 1]);
            }
            assert(rest.skip(1) =~= input@.skip(i as int + 1));
            if rest.len() >= 2 {
                assert(rest.skip(2) =~= input@.skip(i as int + 2));
            }
        }
        let c = input.get_char(i);
        if c == '%' && i + 1 < n {
            let took = append_pct(&mut out, input, i, device);
            if took {
                proof {
                    assert(obefore + (subst_spec(rest, device)) == subst_spec(input@, device));
                    match pct_value(device, rest[1]) {
                        Option::Some(v) => {
                            assert(subst_spec(rest, device) == v + subst_spec(
                                rest.skip(2),
                                device,
                            ));
                            assert(out@ + subst_spec(input@.skip(i as int + 2), device)
                                =~= subst_spec(input@, device));
                        },
                        Option::None => {
                            assert(subst_spec(rest, device) == seq!['%', rest[1]] + subst_spec(
                                rest.skip(2),
                                device,
                            ));
                            assert(out@ + subst_spec(input@.skip(i as int + 2), device)
                                =~= subst_spec(input@, device));
                        },
                    }
                }
                i = i + 2;
            } else {
                out.append("%");
                proof {
                    reveal_strlit("%");
                    assert("%"@ =~= seq!['%']);
                    assert(subst_spec(rest, device) == seq!['%'] + subst_spec(
                        rest.skip(1),
                        device,
                    ));
                    assert(out@ + subst_spec(input@.skip(i as int + 1), device) =~= subst_spec(
                        input@,
                        device,
                    ));
                }
                i = i + 1;
            }
        } else if c == '$' && i + 1 < n && input.get_char(i + 1) == '{' {
            proof {
                lemma_find_shift(input@, '}', i as int, i as int + 2);
            }
            match find_char(input, '}', i + 2) {
                Some(m) => {
                    proof {
                        assert(find_char_spec(rest, '}', 2) == Option::Some(m - i));
                        assert(rest.subrange(2, m - i) =~= input@.subrange(i as int + 2, m as int));
                        assert(rest.skip(m - i + 1) =~= input@.skip(m as int + 1));
                        assert(rest.subrange(0, m - i + 1) =~= input@.subrange(
                            i as int,
                            m as int + 1,
                        ));
                    }
                    let key = substr_string(input, i + 2, m);
                    match device.properties().get(key.as_str()) {
                        Some(v) => {
                            out.append(v.as_str());
                            proof {
                                assert(out@ + subst_spec(input@.skip(m as int + 1), device)
                                    =~= subst_spec(input@, device));
                            }
                        },
                        None => {
                            let token = substr_string(input, i, m + 1);
                            out.append(token.as_str());
                            proof {
                                assert(out@ + subst_spec(input@.skip(m as int + 1), device)
                                    =~= subst_spec(input@, device));
                            }
                        },
                    }
                    i = m + 1;
                },
                None => {
                    proof {
                        assert(find_char_spec(rest, '}', 2).is_none());
                    }
                    out.append("$");
                    proof {
                        reveal_strlit("$");
                        assert("$"@ =~= seq!['$']);
                        assert(subst_spec(rest, device) == seq!['$'] + subst_spec(
                            rest.skip(1),
                            device,
                        ));
                        assert(out@ + subst_spec(input@.skip(i as int + 1), device) =~= subst_spec(
                            input@,
                            device,
                        ));
                    }
                    i = i + 1;
                },
            }
        } else {
            let piece = input.substring_char(i, i + 1);
            proof {
                assert(piece@ =~= seq![input@[i as int]]);
            }
            out.append(piece);
            proof {
                assert(subst_spec(rest, device) == seq![rest[0]] + subst_spec(
                    rest.skip(1),
                    device,
                ));
                assert(out@ + subst_spec(input@.skip(i as int + 1), device) =~= subst_spec(
                    input@,
                    device,
                ));
            }
            i = i + 1;
        }
    }
    proof {
        assert(input@.skip(n as int).len() == 0);
        assert(out@ + Seq::<char>::empty() =~= out@);
    }
    out
}

/// Does the device's type call for a block node rather than a character
/// node?
pub open spec fn is_block_devtype(d: &UEventDevice) -> bool {
    d.s_devtype() == Option::Some("disk"@) || d.s_devtype() == Option::Some("partition"@)
}

/// A missing device number defaults to zero.
pub open spec fn or_zero(o: Option<u32>) -> u32 {
    match o {
        Option::Some(n) => n,
        Option::None => 0,
    }
}

/// The permission bits a rule's mode string asks for, when it parses as
/// octal and fits.
pub open spec fn mode_val(r: RuleV) -> Option<u32> {
    match r.mode {
        Option::Some(ms) => match parse_octal_spec(ms) {
            Option::Some(v) => if v <= u32::MAX as nat {
                Option::Some(v as u32)
            } else {
                Option::None
            },
            Option::None => Option::None,
        },
        Option::None => Option::None,
    }
}

/// The permission operation of a rule, when its mode string parses.
pub open spec fn mode_ops(r: RuleV, node: Seq<char>) -> Seq<FsOpV> {
    match mode_val(r) {
        Option::Some(v) => seq![FsOpV::SetMode { path: node, mode: v }],
        Option::None => Seq::empty(),
    }
}

/// The ownership operation of a rule, when it names an owner.
pub open spec fn owner_ops(r: RuleV, node: Seq<char>) -> Seq<FsOpV> {
    match r.owner {
        Option::Some(o) => seq![FsOpV::SetOwner { path: node, owner: o }],
        Option::None => Seq::empty(),
    }
}

/// The group operation of a rule, when it names a group.
pub open spec fn group_ops(r: RuleV, node: Seq<char>) -> Seq<FsOpV> {
    match r.group {
        Option::Some(g) => seq![FsOpV::SetGroup { path: node, group: g }],
        Option::None => Seq::empty(),
    }
}

/// Mode, owner and group applications, in that order.
pub open spec fn settings_ops(r: RuleV, node: Seq<char>) -> Seq<FsOpV> {
    mode_ops(r, node) + owner_ops(r, node) + group_ops(r, node)
}

/// Node creation followed by the rule's settings.
pub open spec fn mknod_ops(r: RuleV, d: &UEventDevice, node: Seq<char>) -> Seq<FsOpV> {
    seq![
        FsOpV::Mknod {
            path: node,
            block: is_block_devtype(d),
            major: or_zero(d.s_major()),
            minor: or_zero(d.s_minor()),
        },
    ] + settings_ops(r, node)
}

/// One symlink creation per pattern, each target the device node, each
/// path the substituted pattern.
pub open spec fn link_ops(r: RuleV, d: &UEventDevice, node: Seq<char>) -> Seq<FsOpV> {
    Seq::new(
        r.symlink.len(),
        |i: int| FsOpV::MakeLink { path: subst_spec(r.symlink[i], d), target: node },
    )
}

/// One command per entry stored under the action name, in order.
pub open spec fn run_ops(r: RuleV, a: Seq<char>) -> Seq<FsOpV> {
    match lookup_run_spec(r.run, a) {
        Option::Some(cmds) => Seq::new(cmds.len(), |i: int| FsOpV::Run { command: cmds[i] }),
        Option::None => Seq::empty(),
    }
}

/// The whole plan of a matched rule for a device: nothing without a
/// devnode; creation, settings, symlinks and commands on add; symlink and
/// node removal and commands on remove; settings alone on change;
/// settings, symlinks and commands on bind; symlink removal and commands
/// on unbind; nothing for the remaining actions.
pub open spec fn plan_spec(r: RuleV, d: &UEventDevice) -> Seq<FsOpV> {
    match d.s_devnode() {
        Option::None => Seq::empty(),
        Option::Some(node) => match d.s_action() {
            DeviceAction::Add => mknod_ops(r, d, node) + link_ops(r, d, node) + run_ops(
                r,
                "add"@,
            ),
            DeviceAction::Remove => seq![
                FsOpV::RemoveLinksTo { target: node },
                FsOpV::RemoveNode { path: node },
            ] + run_ops(r, "remove"@),
            DeviceAction::Change => settings_ops(r, node),
            DeviceAction::Bind => settings_ops(r, node) + link_ops(r, d, node) + run_ops(
                r,
                "bind"@,
            ),
            DeviceAction::Unbind => seq![FsOpV::RemoveLinksTo { target: node }] + run_ops(
                r,
                "unbind"@,
            ),
            _ => Seq::empty(),
        },
    }
}

/// Append the rule's mode, owner and group operations for the node path.
fn push_settings(ops: &mut Vec<FsOp>, rule: &Rule, node: &str)
    ensures
        final(ops).deep_view() == old(ops).deep_view() + settings_ops(rule@, node@),
{
    let ghost base = ops.deep_view();
    match &rule.mode {
        Some(ms) => {
            match parse_octal_u32(ms.as_str()) {
                Some(v) => {
                    ops.push(FsOp::SetMode { path: node.to_owned(), mode: v });
                    proof {
                        assert(ops.deep_view() =~= base + mode_ops(rule@, node@));
                    }
                },
                None => {
                    proof {
                        assert(ops.deep_view() =~= base + mode_ops(rule@, node@));
                    }
                },
            }
        },
        None => {
            proof {
                assert(ops.deep_view() =~= base + mode_ops(rule@, node@));
            }
        },
    }
    let ghost base2 = ops.deep_view();
    match &rule.owner {
        Some(o) => {
            ops.push(FsOp::SetOwner { path: node.to_owned(), owner: o.clone() });
            proof {
                assert(ops.deep_view() =~= base2 + owner_ops(rule@, node@));
            }
        },
        None => {
            proof {
                assert(ops.deep_view() =~= base2 + owner_ops(rule@, node@));
            }
        },
    }
    let ghost base3 = ops.deep_view();
    match &rule.group {
        Some(g) => {
            ops.push(FsOp::SetGroup { path: node.to_owned(), group: g.clone() });
            proof {
                assert(ops.deep_view() =~= base3 + group_ops(rule@, node@));
            }
        },
        None => {
            proof {
                assert(ops.deep_view() =~= base3 + group_ops(rule@, node@));
            }
        },
    }
    proof {
        assert(ops.deep_view() =~= base + settings_ops(rule@, node@));
    }
}

/// Append one symlink creation per pattern, substituted for the device.
fn push_links(ops: &mut Vec<FsOp>, rule: &Rule, device: &UEventDevice, node: &str)
    ensures
        final(ops).deep_view() == old(ops).deep_view() + link_ops(rule@, device, node@),
{
    let ghost base = ops.deep_view();
    let n = rule.symlink.len();
    let mut i: usize = 0;
    proof {
        assert(ops.deep_view() =~= base + link_ops(rule@, device, node@).take(0));
    }
    while i < n
        invariant
            0 <= i <= n,
            n == rule.symlink.len(),
            rule@.symlink.len() == n,
            ops.deep_view() == base + link_ops(rule@, device, node@).take(i as int),
        decreases n - i,
    {
        proof {
            assert(rule@.symlink[i as int] == rule.symlink@[i as int]@);
        }
        let sub = substitute_vars(rule.symlink[i].as_str(), device);
        let ghost before = ops.deep_view();
        ops.push(FsOp::MakeLink { path: sub, target: node.to_owned() });
        proof {
            let lops = link_ops(rule@, device, node@);
            assert(lops[i as int] == FsOpV::MakeLink { path: sub@, target: node@ });
            assert(ops.deep_view() =~= before.push(lops[i as int]));
            assert(before.push(lops[i as int]) =~= base + lops.take(i + 1));
        }
        i = i + 1;
    }
    proof {
        assert(link_ops(rule@, device, node@).take(n as int) =~= link_ops(rule@, device, node@));
    }
}

/// Append one command operation per stored command for the action name.
fn push_runs(ops: &mut Vec<FsOp>, rule: &Rule, action: &str)
    ensures
        final(ops).deep_view() == old(ops).deep_view() + run_ops(rule@, action@),
{
    let ghost base = ops.deep_view();
    match rule.run_for(action) {
        Some(cmds) => {
            let n = cmds.len();
            let mut i: usize = 0;
            proof {
                assert(ops.deep_view() =~= base + run_ops(rule@, action@).take(0));
            }
            while i < n
                invariant
                    0 <= i <= n,
                    n == cmds.len(),
                    cmds.deep_view().len() == n,
                    lookup_run_spec(rule@.run, action@) == Some(cmds.deep_view()),
                    ops.deep_view() == base + run_ops(rule@, action@).take(i as int),
                decreases n - i,
            {
                proof {
                    assert(cmds.deep_view()[i as int] == cmds@[i as int]@);
                }
                let ghost before = ops.deep_view();
                ops.push(FsOp::Run { command: cmds[i].clone() });
                proof {
                    let rops = run_ops(rule@, action@);
                    assert(rops[i as int] == FsOpV::Run { command: cmds.deep_view()[i as int] });
                    assert(ops.deep_view() =~= before.push(rops[i as int]));
                    assert(before.push(rops[i as int]) =~= base + rops.take(i + 1));
                }
                i = i + 1;
            }
            proof {
                assert(run_ops(rule@, action@).take(n as int) =~= run_ops(rule@, action@));
            }
        },
        None => {
            proof {
                assert(ops.deep_view() =~= base + run_ops(rule@, action@));
            }
        },
    }
}

/// The plan of filesystem operations and commands that a matched rule
/// yields for a device, as `plan_spec` lays it out.
pub fn execute_rule_actions(rule: &Rule, device: &UEventDevice) -> (r: Vec<FsOp>)
    ensures
        r.deep_view() == plan_spec(rule@, device),
{
    let node: String = match device.devnode() {
        Some(s) => s.to_owned(),
        None => {
            let r: Vec<FsOp> = Vec::new();
            proof {
                assert(r.deep_view() =~= plan_spec(rule@, device));
            }
            return r;
        },
    };
    let mut ops: Vec<FsOp> = Vec::new();
    proof {
        assert(ops.deep_view() =~= Seq::<FsOpV>::empty());
    }
    match device.action() {
        DeviceAction::Add => {
            let block = match device.devtype() {
                Some(t) => crate::strutil::str_eq(t, "disk") || crate::strutil::str_eq(
                    t,
                    "partition",
                ),
                None => false,
            };
            let major = match device.major() {
                Some(n) => n,
                None => 0,
            };
            let minor = match device.minor() {
                Some(n) => n,
                None => 0,
            };
            ops.push(FsOp::Mknod { path: node.clone(), block, major, minor });
            push_settings(&mut ops, rule, node.as_str());
            proof {
                assert(ops.deep_view() =~= mknod_ops(rule@, device, node@));
            }
            push_links(&mut ops, rule, device, node.as_str());
            push_runs(&mut ops, rule, "add");
            proof {
                assert(ops.deep_view() =~= plan_spec(rule@, device));
            }
        },
        DeviceAction::Remove => {
            ops.push(FsOp::RemoveLinksTo { target: node.clone() });
            ops.push(FsOp::RemoveNode { path: node.clone() });
            push_runs(&mut ops, rule, "remove");
            proof {
                assert(ops.deep_view() =~= plan_spec(rule@, device));
            }
        },
        DeviceAction::Change => {
            push_settings(&mut ops, rule, node.as_str());
            proof {
                assert(ops.deep_view() =~= plan_spec(rule@, device));
            }
        },
        DeviceAction::Bind => {
            push_settings(&mut ops, rule, node.as_str());
            push_links(&mut ops, rule, device, node.as_str());
            push_runs(&mut ops, rule, "bind");
            proof {
                assert(ops.deep_view() =~= plan_spec(rule@, device));
            }
        },
        DeviceAction::Unbind => {
            ops.push(FsOp::RemoveLinksTo { target: node.clone() });
            push_runs(&mut ops, rule, "unbind");
            proof {
                assert(ops.deep_view() =~= plan_spec(rule@, device));
            }
        },
        _ => {
            proof {
                assert(ops.deep_view() =~= plan_spec(rule@, device));
            }
        },
    }
    ops
}

/// A node entry as `Mknod` first creates it.
pub open spec fn default_node(d: &UEventDevice) -> FsEntryV {
    FsEntryV::Node {
        major: or_zero(d.s_major()),
        minor: or_zero(d.s_minor()),
        block: is_block_devtype(d),
        mode: 0o660,
        owner: Option::None,
        group: Option::None,
    }
}

/// What the rule's settings leave of an entry: on a node, the mode when
/// the rule's mode string parses, the owner and group when named; a
/// symbolic link is untouched.
pub open spec fn settle_entry(e: FsEntryV, r: RuleV) -> FsEntryV {
    match e {
        FsEntryV::Node { major, minor, block, mode, owner, group } => FsEntryV::Node {
            major,
            minor,
            block,
            mode: match mode_val(r) {
                Option::Some(v) => v,
                Option::None => mode,
            },
            owner: match r.owner {
                Option::Some(o) => Option::Some(o),
                Option::None => owner,
            },
            group: match r.group {
                Option::Some(g) => Option::Some(g),
                Option::None => group,
            },
        },
        FsEntryV::Symlink { .. } => e,
    }
}

/// The entry at the node path after `Mknod` and the settings: the settled
/// old entry, or the settled fresh node when the path was empty.
pub open spec fn node_after(
    m: Map<Seq<char>, FsEntryV>,
    node: Seq<char>,
    r: RuleV,
    d: &UEventDevice,
) -> FsEntryV {
    if m.dom().contains(node) {
        settle_entry(m[node], r)
    } else {
        settle_entry(default_node(d), r)
    }
}

/// Settling twice settles once.
proof fn lemma_settle_idem(e: FsEntryV, r: RuleV)
    ensures
        settle_entry(settle_entry(e, r), r) == settle_entry(e, r),
{
}

/// A single operation as a one-element sequence.
proof fn lemma_apply_ops_single(m: Map<Seq<char>, FsEntryV>, op: FsOpV)
    ensures
        apply_ops(m, seq![op]) == apply_op(m, op),
{
    assert(seq![op].skip(1) =~= Seq::<FsOpV>::empty());
    assert(apply_ops(apply_op(m, op), seq![op].skip(1)) == apply_op(m, op));
}

/// Command operations leave the directory state alone.
proof fn lemma_runs_noop(m: Map<Seq<char>, FsEntryV>, ops: Seq<FsOpV>)
    requires
        forall|i: int| 0 <= i < ops.len() ==> (#[trigger] ops[i]) matches FsOpV::Run { .. },
    ensures
        apply_ops(m, ops) == m,
    decreases ops.len(),
{
    if ops.len() > 0 {
        assert(ops[0] matches FsOpV::Run { .. });
        assert(forall|i: int|
            0 <= i < ops.skip(1).len() ==> (#[trigger] ops.skip(1)[i]) matches FsOpV::Run { .. });
        lemma_runs_noop(m, ops.skip(1));
    }
}

/// The settings segment settles the entry at the node path, if one is
/// there, and does nothing else.
proof fn lemma_apply_settings(m: Map<Seq<char>, FsEntryV>, r: RuleV, node: Seq<char>)
    ensures
        apply_ops(m, settings_ops(r, node)) == (if m.dom().contains(node) {
            m.insert(node, settle_entry(m[node], r))
        } else {
            m
        }),
{
    let s1 = mode_ops(r, node);
    let s2 = owner_ops(r, node);
    let s3 = group_ops(r, node);
    assert(settings_ops(r, node) =~= (s1 + s2) + s3);
    lemma_apply_ops_concat(m, s1 + s2, s3);
    lemma_apply_ops_concat(m, s1, s2);
    let ma = apply_ops(m, s1);
    let mb = apply_ops(ma, s2);
    let mc = apply_ops(mb, s3);
    assert(apply_ops(m, settings_ops(r, node)) == mc);
    if mode_val(r).is_some() {
        assert(s1 =~= seq![s1[0]]);
        lemma_apply_ops_single(m, s1[0]);
        assert(ma == apply_op(m, s1[0]));
    }
    if r.owner.is_some() {
        assert(s2 =~= seq![s2[0]]);
        lemma_apply_ops_single(ma, s2[0]);
        assert(mb == apply_op(ma, s2[0]));
    }
    if r.group.is_some() {
        assert(s3 =~= seq![s3[0]]);
        lemma_apply_ops_single(mb, s3[0]);
        assert(mc == apply_op(mb, s3[0]));
    }
    if m.dom().contains(node) {
        match m[node] {
            FsEntryV::Node { .. } => {
                assert(mc =~= m.insert(node, settle_entry(m[node], r)));
            },
            FsEntryV::Symlink { .. } => {
                assert(mc == m);
                assert(m.insert(node, settle_entry(m[node], r)) =~= m);
            },
        }
    } else {
        assert(mc == m);
    }
}

/// The creation segment leaves the node path settled and everything else
/// alone.
proof fn lemma_apply_setup(
    m: Map<Seq<char>, FsEntryV>,
    r: RuleV,
    d: &UEventDevice,
    node: Seq<char>,
)
    ensures
        apply_ops(m, mknod_ops(r, d, node)) == m.insert(node, node_after(m, node, r, d)),
{
    let first = FsOpV::Mknod {
        path: node,
        block: is_block_devtype(d),
        major: or_zero(d.s_major()),
        minor: or_zero(d.s_minor()),
    };
    assert(mknod_ops(r, d, node) =~= seq![first] + settings_ops(r, node));
    lemma_apply_ops_concat(m, seq![first], settings_ops(r, node));
    lemma_apply_ops_single(m, first);
    let m1 = apply_op(m, first);
    lemma_apply_settings(m1, r, node);
    assert(apply_ops(m, mknod_ops(r, d, node)) == apply_ops(m1, settings_ops(r, node)));
    if m.dom().contains(node) {
        assert(m1 == m);
        assert(apply_ops(m, mknod_ops(r, d, node)) =~= m.insert(
            node,
            settle_entry(m[node], r),
        ));
    } else {
        assert(m1 == m.insert(node, default_node(d)));
        assert(m1[node] == default_node(d));
        assert(m1.insert(node, settle_entry(default_node(d), r)) =~= m.insert(
            node,
            settle_entry(default_node(d), r),
        ));
    }
}

/// Does some link operation in the sequence aim at path `k`?
pub open spec fn link_has_path(lops: Seq<FsOpV>, k: Seq<char>) -> bool
    decreases lops.len(),
{
    if lops.len() == 0 {
        false
    } else {
        (lops[0] matches FsOpV::MakeLink { path, .. } && path == k) || link_has_path(
            lops.skip(1),
            k,
        )
    }
}

/// A sequence of link creations with one common target: a path some link
/// aims at ends up a link to the target; any other path is untouched.
proof fn lemma_apply_links_at(
    m: Map<Seq<char>, FsEntryV>,
    lops: Seq<FsOpV>,
    node: Seq<char>,
    k: Seq<char>,
)
    requires
        forall|i: int|
            0 <= i < lops.len() ==> ((#[trigger] lops[i]) matches FsOpV::MakeLink {
                path: _,
                target,
            } && target == node),
    ensures
        link_has_path(lops, k) ==> apply_ops(m, lops).dom().contains(k) && apply_ops(m, lops)[k]
            == (FsEntryV::Symlink { target: node }),
        !link_has_path(lops, k) ==> (apply_ops(m, lops).dom().contains(k) == m.dom().contains(k)
            && (m.dom().contains(k) ==> apply_ops(m, lops)[k] == m[k])),
    decreases lops.len(),
{
    if lops.len() > 0 {
        assert(lops[0] matches FsOpV::MakeLink { path: _, target } && target == node);
        assert(forall|i: int|
            0 <= i < lops.skip(1).len() ==> ((#[trigger] lops.skip(1)[i]) matches FsOpV::MakeLink {
                path: _,
                target,
            } && target == node));
        let m1 = apply_op(m, lops[0]);
        lemma_apply_links_at(m1, lops.skip(1), node, k);
        assert(apply_ops(m, lops) == apply_ops(m1, lops.skip(1)));
    }
}

/// Law: executing the add plan twice leaves the directory exactly as
/// executing it once does — re-creation is skipped, the settings are
/// re-applied with the same values, and the symlinks are re-made with the
/// same targets.
pub proof fn lemma_add_plan_idempotent(m: Map<Seq<char>, FsEntryV>, r: RuleV, d: &UEventDevice)
    requires
        d.s_devnode() matches Some(node),
        d.s_action() matches DeviceAction::Add,
    ensures
        apply_ops(apply_ops(m, plan_spec(r, d)), plan_spec(r, d)) == apply_ops(m, plan_spec(r, d)),
{
    let node = d.s_devnode()->Some_0;
    let setup = mknod_ops(r, d, node);
    let lops = link_ops(r, d, node);
    let rops = run_ops(r, "add"@);
    assert(plan_spec(r, d) == setup + lops + rops);
    assert(forall|i: int|
        0 <= i < lops.len() ==> ((#[trigger] lops[i]) matches FsOpV::MakeLink { path: _, target }
            && target == node));
    assert(forall|i: int|
        0 <= i < rops.len() ==> (#[trigger] rops[i]) matches FsOpV::Run { .. }) by {
        match lookup_run_spec(r.run, "add"@) {
            Option::Some(cmds) => {},
            Option::None => {},
        }
    }
    let m1 = effect_of_add(m, r, d, node);
    let m2 = effect_of_add(m1, r, d, node);
    assert(m1 == apply_ops(m, plan_spec(r, d)) && m2 == apply_ops(m1, plan_spec(r, d))) by {
        lemma_add_effect(m, r, d, node);
        lemma_add_effect(m1, r, d, node);
    }
    lemma_apply_setup(m, r, d, node);
    lemma_apply_setup(m1, r, d, node);
    let s_m = m.insert(node, node_after(m, node, r, d));
    let s_m1 = m1.insert(node, node_after(m1, node, r, d));
    lemma_runs_noop(apply_ops(s_m, lops), rops);
    lemma_runs_noop(apply_ops(s_m1, lops), rops);
    assert(m1 == apply_ops(s_m, lops));
    assert(m2 == apply_ops(s_m1, lops));
    assert forall|k: Seq<char>|
        #![trigger m2.dom().contains(k)]
        m2.dom().contains(k) == m1.dom().contains(k) && (m1.dom().contains(k) ==> m2[k]
            == m1[k]) by {
        lemma_apply_links_at(s_m, lops, node, k);
        lemma_apply_links_at(s_m1, lops, node, k);
        if link_has_path(lops, k) {
            assert(m1.dom().contains(k) && m1[k] == (FsEntryV::Symlink { target: node }));
            assert(m2.dom().contains(k) && m2[k] == (FsEntryV::Symlink { target: node }));
        } else {
            if k == node {
                assert(m1[node] == node_after(m, node, r, d));
                assert(m1.dom().contains(node));
                assert(s_m1[node] == node_after(m1, node, r, d));
                assert(node_after(m1, node, r, d) == settle_entry(m1[node], r));
                assert(settle_entry(node_after(m, node, r, d), r) == node_after(m, node, r, d))
                    by {
                    if m.dom().contains(node) {
                        lemma_settle_idem(m[node], r);
                    } else {
                        lemma_settle_idem(default_node(d), r);
                    }
                }
                assert(m2.dom().contains(k) && m2[k] == m1[k]);
            } else {
                assert(s_m.dom().contains(k) == m.dom().contains(k) && (m.dom().contains(k)
                    ==> s_m[k] == m[k]));
                assert(s_m1.dom().contains(k) == m1.dom().contains(k) && (m1.dom().contains(k)
                    ==> s_m1[k] == m1[k]));
                assert(m2.dom().contains(k) == s_m1.dom().contains(k) && (s_m1.dom().contains(k)
                    ==> m2[k] == s_m1[k]));
            }
        }
    }
    assert(m2 =~= m1);
}

/// The directory after an add plan, named for the idempotence proof.
spec fn effect_of_add(
    m: Map<Seq<char>, FsEntryV>,
    r: RuleV,
    d: &UEventDevice,
    node: Seq<char>,
) -> Map<Seq<char>, FsEntryV> {
    apply_ops(
        apply_ops(m.insert(node, node_after(m, node, r, d)), link_ops(r, d, node)),
        run_ops(r, "add"@),
    )
}

/// An add plan is its three segments applied in order.
proof fn lemma_add_effect(m: Map<Seq<char>, FsEntryV>, r: RuleV, d: &UEventDevice, node: Seq<char>)
    requires
        d.s_devnode() == Some(node),
        d.s_action() matches DeviceAction::Add,
    ensures
        apply_ops(m, plan_spec(r, d)) == effect_of_add(m, r, d, node),
{
    let setup = mknod_ops(r, d, node);
    let lops = link_ops(r, d, node);
    let rops = run_ops(r, "add"@);
    assert(plan_spec(r, d) == setup + lops + rops);
    assert((setup + lops) + rops =~= setup + lops + rops);
    lemma_apply_ops_concat(m, setup + lops, rops);
    lemma_apply_ops_concat(m, setup, lops);
    lemma_apply_setup(m, r, d, node);
}

/// Law: after an add plan and then a remove plan for the same device
/// node, the directory holds no entry at the node path and no symbolic
/// link whose target is that path — whatever stood there before.
pub proof fn lemma_add_then_remove(
    m: Map<Seq<char>, FsEntryV>,
    r_add: RuleV,
    r_rem: RuleV,
    d_add: &UEventDevice,
    d_rem: &UEventDevice,
)
    requires
        d_add.s_devnode() matches Some(node),
        d_rem.s_devnode() == d_add.s_devnode(),
        d_add.s_action() matches DeviceAction::Add,
        d_rem.s_action() matches DeviceAction::Remove,
    ensures
        ({
            let node = d_add.s_devnode()->Some_0;
            let after = apply_ops(
                apply_ops(m, plan_spec(r_add, d_add)),
                plan_spec(r_rem, d_rem),
            );
            &&& !after.dom().contains(node)
            &&& forall|k: Seq<char>|
                #[trigger] after.dom().contains(k) ==> !is_link_to(after[k], node)
        }),
{
    let node = d_add.s_devnode()->Some_0;
    lemma_remove_plan(apply_ops(m, plan_spec(r_add, d_add)), r_rem, d_rem);
}

/// Law: a remove plan leaves no entry at the device-node path and no
/// symbolic link whose target is that path, whatever the directory held.
pub proof fn lemma_remove_plan(m: Map<Seq<char>, FsEntryV>, r: RuleV, d: &UEventDevice)
    requires
        d.s_devnode() matches Some(node),
        d.s_action() matches DeviceAction::Remove,
    ensures
        ({
            let node = d.s_devnode()->Some_0;
            let after = apply_ops(m, plan_spec(r, d));
            &&& !after.dom().contains(node)
            &&& forall|k: Seq<char>|
                #[trigger] after.dom().contains(k) ==> !is_link_to(after[k], node)
        }),
{
    let node = d.s_devnode()->Some_0;
    let head = seq![
        FsOpV::RemoveLinksTo { target: node },
        FsOpV::RemoveNode { path: node },
    ];
    let rops = run_ops(r, "remove"@);
    assert(plan_spec(r, d) == head + rops);
    lemma_apply_ops_concat(m, head, rops);
    assert(head.skip(1) =~= seq![FsOpV::RemoveNode { path: node }]);
    assert(head.skip(1).skip(1) =~= Seq::<FsOpV>::empty());
    let m1 = apply_op(m, head[0]);
    let m2 = apply_op(m1, head.skip(1)[0]);
    assert(apply_ops(m, head) == apply_ops(m1, head.skip(1)));
    assert(apply_ops(m1, head.skip(1)) == apply_ops(m2, head.skip(1).skip(1)));
    assert(apply_ops(m, head) == m2);
    assert(forall|i: int|
        0 <= i < rops.len() ==> (#[trigger] rops[i]) matches FsOpV::Run { .. }) by {
        match lookup_run_spec(r.run, "remove"@) {
            Option::Some(cmds) => {},
            Option::None => {},
        }
    }
    lemma_runs_noop(m2, rops);
}

} // verus!
