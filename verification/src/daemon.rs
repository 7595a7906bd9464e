//! The per-event decision: filter the device, walk the rules in order,
//! and plan the first matching rule's actions.  The surrounding binary
//! receives the events, hands each one here on a worker, and carries the
//! returned plan out.

use vstd::prelude::*;
use vstd::string::*;

use crate::actions::execute_rule_actions;
use crate::actions::plan_spec;
use crate::device::UEventDevice;
use crate::fsmodel::FsOp;
use crate::matcher::Rule;
use crate::matcher::rule_matches;

verus! {

/// What processing one event decided.
pub enum ProcessOutcome {
    /// The device fell outside the daemon's filter; nothing to do.
    Filtered,
    /// No rule matched; the event is logged and dropped.
    NoMatch,
    /// The rule at the index matched first; its plan is to be carried out.
    Matched(usize, Vec<FsOp>),
}

/// Process one event against a rule-list snapshot: whole USB devices
/// only; the first matching rule wins and its action plan is returned.
pub fn process_event(device: &UEventDevice, rules: &Vec<Rule>) -> (r: ProcessOutcome)
    ensures
        (r matches ProcessOutcome::Filtered) <==> device.s_devtype() != Some("usb_device"@),
        r matches ProcessOutcome::NoMatch ==> forall|j: int|
            0 <= j < rules.deep_view().len() ==> !rule_matches(
                #[trigger] rules.deep_view()[j],
                device,
            ),
        r matches ProcessOutcome::Matched(i, plan) ==> i < rules.deep_view().len()
            && rule_matches(rules.deep_view()[i as int], device) && (forall|j: int|
            0 <= j < i ==> !rule_matches(#[trigger] rules.deep_view()[j], device))
            && plan.deep_view() == plan_spec(rules.deep_view()[i as int], device),
{
    if !device.is_usb_device() {
        return ProcessOutcome::Filtered;
    }
    let n = rules.len();
    let mut i: usize = 0;
    while i < n
        invariant
            device.s_devtype() == Some("usb_device"@),
            0 <= i <= n,
            n == rules.len(),
            rules.deep_view().len() == n,
            forall|j: int| 0 <= j < i ==> !rule_matches(#[trigger] rules.deep_view()[j], device),
        decreases n - i,
    {
        proof {
            assert(rules.deep_view()[i as int] == rules@[i as int]@);
        }
        if rules[i].matches(device) {
            let plan = execute_rule_actions(&rules[i], device);
            return ProcessOutcome::Matched(i, plan);
        }
        i = i + 1;
    }
    ProcessOutcome::NoMatch
}

} // verus!
