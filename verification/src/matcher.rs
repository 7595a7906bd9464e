//! One parsed rule — match predicates, assignments, commands and control
//! flags — and the predicate evaluation of a rule against a device record.

use vstd::prelude::*;
use vstd::string::*;

use crate::device::UEventDevice;
use crate::device::action_str;
use crate::props::lookup_spec;
use crate::strutil::lower;
use crate::strutil::eq_ignore_case;
use crate::strutil::str_eq;
use crate::strutil::trim;
use crate::strutil::trim_spec;

verus! {

/// One rule line: predicates that must all hold, assignments applied on a
/// match, commands to run, and control flags.
#[derive(Debug, Clone)]
pub struct Rule {
    pub action: Option<String>,
    pub kernel: Option<String>,
    pub subsystem: Option<String>,
    pub driver: Option<String>,
    pub devpath: Option<String>,
    pub tag: Option<String>,
    pub attr: Vec<(String, String)>,
    pub env_vars: Vec<(String, String)>,
    pub name: Option<String>,
    pub symlink: Vec<String>,
    pub owner: Option<String>,
    pub group: Option<String>,
    pub mode: Option<String>,
    pub run: Vec<(String, Vec<String>)>,
    pub program: Option<String>,
    pub label: Option<String>,
    pub goto: Option<String>,
    pub ignore_device: bool,
    pub last_rule: bool,
}

/// The mathematical shadow of a `Rule`: the same fields over character
/// sequences.
pub struct RuleV {
    pub action: Option<Seq<char>>,
    pub kernel: Option<Seq<char>>,
    pub subsystem: Option<Seq<char>>,
    pub driver: Option<Seq<char>>,
    pub devpath: Option<Seq<char>>,
    pub tag: Option<Seq<char>>,
    pub attr: Seq<(Seq<char>, Seq<char>)>,
    pub env_vars: Seq<(Seq<char>, Seq<char>)>,
    pub name: Option<Seq<char>>,
    pub symlink: Seq<Seq<char>>,
    pub owner: Option<Seq<char>>,
    pub group: Option<Seq<char>>,
    pub mode: Option<Seq<char>>,
    pub run: Seq<(Seq<char>, Seq<Seq<char>>)>,
    pub program: Option<Seq<char>>,
    pub label: Option<Seq<char>>,
    pub goto: Option<Seq<char>>,
    pub ignore_device: bool,
    pub last_rule: bool,
}

/// The view of an optional string.
pub open spec fn view_opt(o: &Option<String>) -> Option<Seq<char>> {
    match o {
        Option::Some(s) => Option::Some(s@),
        Option::None => Option::None,
    }
}

impl View for Rule {
    type V = RuleV;

    open spec fn view(&self) -> RuleV {
        RuleV {
            action: view_opt(&self.action),
            kernel: view_opt(&self.kernel),
            subsystem: view_opt(&self.subsystem),
            driver: view_opt(&self.driver),
            devpath: view_opt(&self.devpath),
            tag: view_opt(&self.tag),
            attr: self.attr.deep_view(),
            env_vars: self.env_vars.deep_view(),
            name: view_opt(&self.name),
            symlink: self.symlink.deep_view(),
            owner: view_opt(&self.owner),
            group: view_opt(&self.group),
            mode: view_opt(&self.mode),
            run: self.run.deep_view(),
            program: view_opt(&self.program),
            label: view_opt(&self.label),
            goto: view_opt(&self.goto),
            ignore_device: self.ignore_device,
            last_rule: self.last_rule,
        }
    }
}

impl DeepView for Rule {
    type V = RuleV;

    open spec fn deep_view(&self) -> RuleV {
        self@
    }
}

/// The rule with nothing set: no predicates, no assignments, no flags.
pub open spec fn empty_rule() -> RuleV {
    RuleV {
        action: Option::None,
        kernel: Option::None,
        subsystem: Option::None,
        driver: Option::None,
        devpath: Option::None,
        tag: Option::None,
        attr: Seq::empty(),
        env_vars: Seq::empty(),
        name: Option::None,
        symlink: Seq::empty(),
        owner: Option::None,
        group: Option::None,
        mode: Option::None,
        run: Seq::empty(),
        program: Option::None,
        label: Option::None,
        goto: Option::None,
        ignore_device: false,
        last_rule: false,
    }
}

impl Rule {
    /// A rule with nothing set.
    pub fn new() -> (r: Rule)
        ensures
            r@ == empty_rule(),
    {
        let r = Rule {
            action: None,
            kernel: None,
            subsystem: None,
            driver: None,
            devpath: None,
            tag: None,
            attr: Vec::new(),
            env_vars: Vec::new(),
            name: None,
            symlink: Vec::new(),
            owner: None,
            group: None,
            mode: None,
            run: Vec::new(),
            program: None,
            label: None,
            goto: None,
            ignore_device: false,
            last_rule: false,
        };
        proof {
            assert(r.attr.deep_view() =~= Seq::<(Seq<char>, Seq<char>)>::empty());
            assert(r.env_vars.deep_view() =~= Seq::<(Seq<char>, Seq<char>)>::empty());
            assert(r.symlink.deep_view() =~= Seq::<Seq<char>>::empty());
            assert(r.run.deep_view() =~= Seq::<(Seq<char>, Seq<Seq<char>>)>::empty());
        }
        r
    }
}

/// The commands stored for an action name, if any.
pub open spec fn lookup_run_spec(
    run: Seq<(Seq<char>, Seq<Seq<char>>)>,
    k: Seq<char>,
) -> Option<Seq<Seq<char>>>
    decreases run.len(),
{
    if run.len() == 0 {
        Option::None
    } else if run[0].0 == k {
        Option::Some(run[0].1)
    } else {
        lookup_run_spec(run.skip(1), k)
    }
}

/// Does the rule declare any predicate at all?
pub open spec fn has_conditions(r: RuleV) -> bool {
    ||| r.action.is_some()
    ||| r.subsystem.is_some()
    ||| r.kernel.is_some()
    ||| r.devpath.is_some()
    ||| r.driver.is_some()
    ||| r.tag.is_some()
    ||| r.env_vars.len() > 0
    ||| r.attr.len() > 0
}

/// Does rule `r` match device `d`?  A rule with no predicates matches
/// nothing; otherwise every declared predicate must hold: action,
/// subsystem, kernel, devpath and driver ASCII case-insensitively; the
/// `TAG` property and every environment predicate exactly; and every
/// attribute predicate against the record's sysfs attribute values,
/// whitespace-trimmed.
pub open spec fn rule_matches(r: RuleV, d: &UEventDevice) -> bool {
    &&& has_conditions(r)
    &&& (r.action matches Some(a) ==> lower(action_str(d.s_action())) == lower(a))
    &&& (r.subsystem matches Some(s) ==> lower(d.s_subsystem()) == lower(s))
    &&& (r.kernel matches Some(k) ==> d.s_kernel() matches Some(dk) && lower(dk) == lower(k))
    &&& (r.devpath matches Some(p) ==> lower(d.s_devpath()) == lower(p))
    &&& (r.driver matches Some(v) ==> d.s_driver() matches Some(dd) && lower(dd) == lower(v))
    &&& (r.tag matches Some(t) ==> lookup_spec(d.s_props(), "TAG"@) == Some(t))
    &&& (forall|i: int|
        0 <= i < r.env_vars.len() ==> lookup_spec(d.s_props(), (#[trigger] r.env_vars[i]).0)
            == Some(r.env_vars[i].1))
    &&& (forall|i: int|
        0 <= i < r.attr.len() ==> match lookup_spec(d.s_sysattrs(), (#[trigger] r.attr[i]).0) {
            Option::Some(av) => trim_spec(av) == r.attr[i].1,
            Option::None => false,
        })
}

/// Law: a rule that declares no predicate matches no device.
pub proof fn lemma_inert_rule_never_matches(r: RuleV, d: &UEventDevice)
    requires
        !has_conditions(r),
    ensures
        !rule_matches(r, d),
{
}

/// Law: a rule whose only predicate is `ACTION==a` matches exactly the
/// devices whose action spells `a`, ASCII case-insensitively.
pub proof fn lemma_action_only_rule(r: RuleV, d: &UEventDevice)
    requires
        r.action matches Some(a),
        r.subsystem.is_none(),
        r.kernel.is_none(),
        r.devpath.is_none(),
        r.driver.is_none(),
        r.tag.is_none(),
        r.env_vars.len() == 0,
        r.attr.len() == 0,
    ensures
        rule_matches(r, d) <==> lower(action_str(d.s_action())) == lower(r.action->Some_0),
{
}

impl Rule {
    /// Evaluate this rule's predicates against a device record,
    /// short-circuiting on the first failure.
    pub fn matches(&self, device: &UEventDevice) -> (r: bool)
        ensures
            r == rule_matches(self@, device),
    {
        let has_conds = self.action.is_some() || self.subsystem.is_some() || self.kernel.is_some()
            || self.devpath.is_some() || self.driver.is_some() || self.tag.is_some()
            || self.env_vars.len() > 0 || self.attr.len() > 0;
        if !has_conds {
            return false;
        }
        match &self.action {
            Some(a) => {
                if !eq_ignore_case(device.action().as_str(), a.as_str()) {
                    return false;
                }
            },
            None => {},
        }
        match &self.subsystem {
            Some(s) => {
                if !eq_ignore_case(device.subsystem(), s.as_str()) {
                    return false;
                }
            },
            None => {},
        }
        match &self.kernel {
            Some(k) => {
                match device.kernel() {
                    Some(dk) => {
                        if !eq_ignore_case(dk, k.as_str()) {
                            return false;
                        }
                    },
                    None => {
                        return false;
                    },
                }
            },
            None => {},
        }
        match &self.devpath {
            Some(p) => {
                if !eq_ignore_case(device.devpath(), p.as_str()) {
                    return false;
                }
            },
            None => {},
        }
        match &self.driver {
            Some(v) => {
                match device.driver() {
                    Some(dd) => {
                        if !eq_ignore_case(dd, v.as_str()) {
                            return false;
                        }
                    },
                    None => {
                        return false;
                    },
                }
            },
            None => {},
        }
        match &self.tag {
            Some(t) => {
                match device.properties().get("TAG") {
                    Some(dt) => {
                        if !str_eq(dt.as_str(), t.as_str()) {
                            return false;
                        }
                    },
                    None => {
                        return false;
                    },
                }
            },
            None => {},
        }
        let n_env = self.env_vars.len();
        let mut i: usize = 0;
        while i < n_env
            invariant
                0 <= i <= n_env,
                n_env == self.env_vars.len(),
                self@.env_vars.len() == n_env,
                forall|j: int|
                    0 <= j < i ==> lookup_spec(
                        device.s_props(),
                        (#[trigger] self@.env_vars[j]).0,
                    ) == Some(self@.env_vars[j].1),
            decreases n_env - i,
        {
            proof {
                assert(self@.env_vars[i as int] == (
                    self.env_vars@[i as int].0@,
                    self.env_vars@[i as int].1@,
                ));
            }
            let key = &self.env_vars[i].0;
            let want = &self.env_vars[i].1;
            match device.properties().get(key.as_str()) {
                Some(dv) => {
                    if !str_eq(dv.as_str(), want.as_str()) {
                        return false;
                    }
                },
                None => {
                    return false;
                },
            }
            i = i + 1;
        }
        let n_attr = self.attr.len();
        let mut t: usize = 0;
        while t < n_attr
            invariant
                0 <= t <= n_attr,
                n_attr == self.attr.len(),
                self@.attr.len() == n_attr,
                forall|j: int|
                    0 <= j < t ==> match lookup_spec(
                        device.s_sysattrs(),
                        (#[trigger] self@.attr[j]).0,
                    ) {
                        Option::Some(av) => trim_spec(av) == self@.attr[j].1,
                        Option::None => false,
                    },
            decreases n_attr - t,
        {
            proof {
                assert(self@.attr[t as int] == (
                    self.attr@[t as int].0@,
                    self.attr@[t as int].1@,
                ));
            }
            let key = &self.attr[t].0;
            let want = &self.attr[t].1;
            match device.sysattrs().get(key.as_str()) {
                Some(av) => {
                    let trimmed = trim(av.as_str());
                    if !str_eq(trimmed.as_str(), want.as_str()) {
                        return false;
                    }
                },
                None => {
                    return false;
                },
            }
            t = t + 1;
        }
        true
    }

    /// The commands this rule runs for an action name, if any.
    pub fn run_for(&self, action: &str) -> (r: Option<&Vec<String>>)
        ensures
            match r {
                Some(cmds) => lookup_run_spec(self@.run, action@) == Some(cmds.deep_view()),
                None => lookup_run_spec(self@.run, action@).is_none(),
            },
    {
        let n = self.run.len();
        let mut i: usize = 0;
        proof {
            assert(self@.run.skip(0) =~= self@.run);
        }
        while i < n
            invariant
                0 <= i <= n,
                n == self.run.len(),
                self@.run.len() == n,
                lookup_run_spec(self@.run, action@) == lookup_run_spec(
                    self@.run.skip(i as int),
                    action@,
                ),
            decreases n - i,
        {
            proof {
                assert(self@.run.skip(i as int)[0] == self@.run[i as int]);
                assert(self@.run[i as int] == (
                    self.run@[i as int].0@,
                    self.run@[i as int].1.deep_view(),
                ));
            }
            if str_eq(self.run[i].0.as_str(), action) {
                return Some(&self.run[i].1);
            }
            proof {
                assert(self@.run.skip(i as int).skip(1) =~= self@.run.skip(i + 1));
            }
            i = i + 1;
        }
        proof {
            assert(self@.run.skip(n as int).len() == 0);
        }
        None
    }
}

} // verus!
