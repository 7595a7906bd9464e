//! The device model: the action variant of a hot-plug event and the typed
//! record a decoded event is normalised into.
//!
//! A record is built from an event's property mapping; the kernel's sysfs
//! attribute values that rule matching may consult are filled in afterwards
//! by the caller, which alone can read files.

use vstd::prelude::*;
use vstd::string::*;

use crate::props::PropertyMap;
use crate::props::entries_unique;
use crate::props::lookup_spec;
use crate::props::upsert_spec;
use crate::strutil::lower;
use crate::strutil::eq_ignore_case;
use crate::strutil::parse_u32;
use crate::strutil::parse_u64;
use crate::strutil::parse_uint_spec;
use crate::strutil::str_eq;

verus! {

/// What a hot-plug event announces.  Unrecognised action strings survive as
/// `Unknown` and are skipped by the executor.
#[derive(Debug, Clone, PartialEq, Eq)]
pub enum DeviceAction {
    Add,
    Remove,
    Change,
    Bind,
    Unbind,
    Move,
    Online,
    Offline,
    Unknown(String),
}

/// Is `t` the lower-cased spelling of a recognised action?
pub open spec fn is_known_action_str(t: Seq<char>) -> bool {
    ||| t == seq!['a', 'd', 'd']
    ||| t == seq!['r', 'e', 'm', 'o', 'v', 'e']
    ||| t == seq!['c', 'h', 'a', 'n', 'g', 'e']
    ||| t == seq!['b', 'i', 'n', 'd']
    ||| t == seq!['u', 'n', 'b', 'i', 'n', 'd']
    ||| t == seq!['m', 'o', 'v', 'e']
    ||| t == seq!['o', 'n', 'l', 'i', 'n', 'e']
    ||| t == seq!['o', 'f', 'f', 'l', 'i', 'n', 'e']
}

/// Is `a` what parsing the action string `s` yields?  Recognised spellings
/// are matched ASCII case-insensitively; anything else is kept verbatim as
/// `Unknown`.
pub open spec fn action_matches_str(a: DeviceAction, s: Seq<char>) -> bool {
    match a {
        DeviceAction::Add => lower(s) == seq!['a', 'd', 'd'],
        DeviceAction::Remove => lower(s) == seq!['r', 'e', 'm', 'o', 'v', 'e'],
        DeviceAction::Change => lower(s) == seq!['c', 'h', 'a', 'n', 'g', 'e'],
        DeviceAction::Bind => lower(s) == seq!['b', 'i', 'n', 'd'],
        DeviceAction::Unbind => lower(s) == seq!['u', 'n', 'b', 'i', 'n', 'd'],
        DeviceAction::Move => lower(s) == seq!['m', 'o', 'v', 'e'],
        DeviceAction::Online => lower(s) == seq!['o', 'n', 'l', 'i', 'n', 'e'],
        DeviceAction::Offline => lower(s) == seq!['o', 'f', 'f', 'l', 'i', 'n', 'e'],
        DeviceAction::Unknown(u) => u@ == s && !is_known_action_str(lower(s)),
    }
}

/// How an action prints: the lower-case spelling for recognised variants,
/// the stored string for `Unknown`.
pub open spec fn action_str(a: DeviceAction) -> Seq<char> {
    match a {
        DeviceAction::Add => seq!['a', 'd', 'd'],
        DeviceAction::Remove => seq!['r', 'e', 'm', 'o', 'v', 'e'],
        DeviceAction::Change => seq!['c', 'h', 'a', 'n', 'g', 'e'],
        DeviceAction::Bind => seq!['b', 'i', 'n', 'd'],
        DeviceAction::Unbind => seq!['u', 'n', 'b', 'i', 'n', 'd'],
        DeviceAction::Move => seq!['m', 'o', 'v', 'e'],
        DeviceAction::Online => seq!['o', 'n', 'l', 'i', 'n', 'e'],
        DeviceAction::Offline => seq!['o', 'f', 'f', 'l', 'i', 'n', 'e'],
        DeviceAction::Unknown(u) => u@,
    }
}

impl DeviceAction {
    /// Parse an action string, ASCII case-insensitively; unrecognised
    /// spellings are kept verbatim as `Unknown`.
    pub fn from_str(s: &str) -> (r: DeviceAction)
        ensures
            action_matches_str(r, s@),
    {
        proof {
            reveal_strlit("add");
            reveal_strlit("remove");
            reveal_strlit("change");
            reveal_strlit("bind");
            reveal_strlit("unbind");
            reveal_strlit("move");
            reveal_strlit("online");
            reveal_strlit("offline");
            assert(lower("add"@) =~= seq!['a', 'd', 'd']);
            assert(lower("remove"@) =~= seq!['r', 'e', 'm', 'o', 'v', 'e']);
            assert(lower("change"@) =~= seq!['c', 'h', 'a', 'n', 'g', 'e']);
            assert(lower("bind"@) =~= seq!['b', 'i', 'n', 'd']);
            assert(lower("unbind"@) =~= seq!['u', 'n', 'b', 'i', 'n', 'd']);
            assert(lower("move"@) =~= seq!['m', 'o', 'v', 'e']);
            assert(lower("online"@) =~= seq!['o', 'n', 'l', 'i', 'n', 'e']);
            assert(lower("offline"@) =~= seq!['o', 'f', 'f', 'l', 'i', 'n', 'e']);
        }
        if eq_ignore_case(s, "add") {
            DeviceAction::Add
        } else if eq_ignore_case(s, "remove") {
            DeviceAction::Remove
        } else if eq_ignore_case(s, "change") {
            DeviceAction::Change
        } else if eq_ignore_case(s, "bind") {
            DeviceAction::Bind
        } else if eq_ignore_case(s, "unbind") {
            DeviceAction::Unbind
        } else if eq_ignore_case(s, "move") {
            DeviceAction::Move
        } else if eq_ignore_case(s, "online") {
            DeviceAction::Online
        } else if eq_ignore_case(s, "offline") {
            DeviceAction::Offline
        } else {
            DeviceAction::Unknown(s.to_owned())
        }
    }

    /// The spelling `action_str` gives, as a string slice.
    pub fn as_str(&self) -> (r: &str)
        ensures
            r@ == action_str(*self),
    {
        proof {
            reveal_strlit("add");
            reveal_strlit("remove");
            reveal_strlit("change");
            reveal_strlit("bind");
            reveal_strlit("unbind");
            reveal_strlit("move");
            reveal_strlit("online");
            reveal_strlit("offline");
            assert("add"@ =~= seq!['a', 'd', 'd']);
            assert("remove"@ =~= seq!['r', 'e', 'm', 'o', 'v', 'e']);
            assert("change"@ =~= seq!['c', 'h', 'a', 'n', 'g', 'e']);
            assert("bind"@ =~= seq!['b', 'i', 'n', 'd']);
            assert("unbind"@ =~= seq!['u', 'n', 'b', 'i', 'n', 'd']);
            assert("move"@ =~= seq!['m', 'o', 'v', 'e']);
            assert("online"@ =~= seq!['o', 'n', 'l', 'i', 'n', 'e']);
            assert("offline"@ =~= seq!['o', 'f', 'f', 'l', 'i', 'n', 'e']);
        }
        match self {
            DeviceAction::Add => "add",
            DeviceAction::Remove => "remove",
            DeviceAction::Change => "change",
            DeviceAction::Bind => "bind",
            DeviceAction::Unbind => "unbind",
            DeviceAction::Move => "move",
            DeviceAction::Online => "online",
            DeviceAction::Offline => "offline",
            DeviceAction::Unknown(u) => u.as_str(),
        }
    }
}

/// One hot-plug event, normalised: the typed fields the matcher and the
/// executor read, plus the full property mapping they came from.
pub struct UEventDevice {
    action: DeviceAction,
    devpath: String,
    subsystem: String,
    devtype: Option<String>,
    kernel: Option<String>,
    major: Option<u32>,
    minor: Option<u32>,
    devnum: Option<u64>,
    seqnum: u64,
    timestamp: u64,
    properties: PropertyMap,
    sysattrs: PropertyMap,
}

/// `str::parse::<u32>` applied to an optional string.
pub open spec fn opt_parse_u32(o: Option<Seq<char>>) -> Option<u32> {
    match o {
        Option::None => Option::None,
        Option::Some(s) => match parse_uint_spec(s) {
            Option::Some(n) => if n <= u32::MAX as nat {
                Option::Some(n as u32)
            } else {
                Option::None
            },
            Option::None => Option::None,
        },
    }
}

/// `str::parse::<u64>` applied to an optional string.
pub open spec fn opt_parse_u64(o: Option<Seq<char>>) -> Option<u64> {
    match o {
        Option::None => Option::None,
        Option::Some(s) => match parse_uint_spec(s) {
            Option::Some(n) => if n <= u64::MAX as nat {
                Option::Some(n as u64)
            } else {
                Option::None
            },
            Option::None => Option::None,
        },
    }
}

/// `d` is the record that normalising `event` at time `now` yields.
pub open spec fn device_matches_event(
    d: &UEventDevice,
    event: Seq<(Seq<char>, Seq<char>)>,
    now: u64,
) -> bool {
    &&& action_matches_str(d.s_action(), lookup_spec(event, "ACTION"@)->Some_0)
    &&& Option::Some(d.s_subsystem()) == lookup_spec(event, "SUBSYSTEM"@)
    &&& Option::Some(d.s_devpath()) == lookup_spec(event, "DEVPATH"@)
    &&& d.s_devtype() == lookup_spec(event, "DEVTYPE"@)
    &&& d.s_kernel() == lookup_spec(event, "KERNEL"@)
    &&& d.s_major() == opt_parse_u32(lookup_spec(event, "MAJOR"@))
    &&& d.s_minor() == opt_parse_u32(lookup_spec(event, "MINOR"@))
    &&& d.s_devnum() == opt_parse_u64(lookup_spec(event, "DEVNUM"@))
    &&& d.s_seqnum() == match opt_parse_u64(lookup_spec(event, "SEQNUM"@)) {
        Option::Some(n) => n,
        Option::None => 0u64,
    }
    &&& d.s_timestamp() == now
    &&& d.s_props() == event
    &&& d.s_sysattrs() == Seq::<(Seq<char>, Seq<char>)>::empty()
}

impl UEventDevice {
    /// The parsed action variant.
    pub closed spec fn s_action(&self) -> DeviceAction {
        self.action
    }

    /// The device path under sysfs, as text.
    pub closed spec fn s_devpath(&self) -> Seq<char> {
        self.devpath@
    }

    /// The subsystem name.
    pub closed spec fn s_subsystem(&self) -> Seq<char> {
        self.subsystem@
    }

    /// The device type, when the event carried one.
    pub closed spec fn s_devtype(&self) -> Option<Seq<char>> {
        match self.devtype {
            Option::Some(ref s) => Option::Some(s@),
            Option::None => Option::None,
        }
    }

    /// The kernel name, when the event carried one.
    pub closed spec fn s_kernel(&self) -> Option<Seq<char>> {
        match self.kernel {
            Option::Some(ref s) => Option::Some(s@),
            Option::None => Option::None,
        }
    }

    /// The parsed major device number, when present.
    pub closed spec fn s_major(&self) -> Option<u32> {
        self.major
    }

    /// The parsed minor device number, when present.
    pub closed spec fn s_minor(&self) -> Option<u32> {
        self.minor
    }

    /// The parsed device number, when present.
    pub closed spec fn s_devnum(&self) -> Option<u64> {
        self.devnum
    }

    /// The kernel's event sequence number, zero when absent.
    pub closed spec fn s_seqnum(&self) -> u64 {
        self.seqnum
    }

    /// When the record was created, in seconds since the epoch.
    pub closed spec fn s_timestamp(&self) -> u64 {
        self.timestamp
    }

    /// The full property mapping of the event.
    pub closed spec fn s_props(&self) -> Seq<(Seq<char>, Seq<char>)> {
        self.properties@
    }

    /// The sysfs attribute values filled in for rule matching.
    pub closed spec fn s_sysattrs(&self) -> Seq<(Seq<char>, Seq<char>)> {
        self.sysattrs@
    }

    /// Both internal mappings keep their keys unique.
    pub open spec fn wf(&self) -> bool {
        entries_unique(self.s_props()) && entries_unique(self.s_sysattrs())
    }

    /// The name under which a device node is created, from `DEVNAME`.
    pub open spec fn s_devnode(&self) -> Option<Seq<char>> {
        lookup_spec(self.s_props(), "DEVNAME"@)
    }

    /// The driver name, from `DRIVER`.
    pub open spec fn s_driver(&self) -> Option<Seq<char>> {
        lookup_spec(self.s_props(), "DRIVER"@)
    }

    /// Normalise an event at the given time.  `ACTION`, `SUBSYSTEM` and
    /// `DEVPATH` are required; numeric fields are parsed best-effort.
    pub fn from_properties(event: PropertyMap, now: u64) -> (r: Option<UEventDevice>)
        requires
            event.wf(),
        ensures
            r.is_some() <==> lookup_spec(event@, "ACTION"@).is_some() && lookup_spec(
                event@,
                "SUBSYSTEM"@,
            ).is_some() && lookup_spec(event@, "DEVPATH"@).is_some(),
            r matches Some(d) ==> device_matches_event(&d, event@, now) && d.wf(),
    {
        let action_string = match event.get("ACTION") {
            Some(s) => s.clone(),
            None => {
                return None;
            },
        };
        let subsystem = match event.get("SUBSYSTEM") {
            Some(s) => s.clone(),
            None => {
                return None;
            },
        };
        let devpath = match event.get("DEVPATH") {
            Some(s) => s.clone(),
            None => {
                return None;
            },
        };
        let major = match event.get("MAJOR") {
            Some(s) => parse_u32(s.as_str()),
            None => None,
        };
        let minor = match event.get("MINOR") {
            Some(s) => parse_u32(s.as_str()),
            None => None,
        };
        let devnum = match event.get("DEVNUM") {
            Some(s) => parse_u64(s.as_str()),
            None => None,
        };
        let seqnum = match event.get("SEQNUM") {
            Some(s) => match parse_u64(s.as_str()) {
                Some(n) => n,
                None => 0,
            },
            None => 0,
        };
        let devtype = match event.get("DEVTYPE") {
            Some(s) => Some(s.clone()),
            None => None,
        };
        let kernel = match event.get("KERNEL") {
            Some(s) => Some(s.clone()),
            None => None,
        };
        let action = DeviceAction::from_str(action_string.as_str());
        Some(
            UEventDevice {
                action,
                devpath,
                subsystem,
                devtype,
                kernel,
                major,
                minor,
                devnum,
                seqnum,
                timestamp: now,
                properties: event,
                sysattrs: PropertyMap::new(),
            },
        )
    }

    /// Normalise an event, stamping it with the wall clock.
    ///
    /// What the clock returns is outside the library's control; the record's
    /// own timestamp is the witness, and `from_properties` pins every other
    /// field.  `None` comes on missing required keys, or if the clock read
    /// before the epoch.
    pub fn from_event(event: PropertyMap) -> (r: Option<UEventDevice>)
        requires
            event.wf(),
        ensures
            r matches Some(d) ==> device_matches_event(&d, event@, d.s_timestamp()) && d.wf(),
            !(lookup_spec(event@, "ACTION"@).is_some() && lookup_spec(
                event@,
                "SUBSYSTEM"@,
            ).is_some() && lookup_spec(event@, "DEVPATH"@).is_some()) ==> r.is_none(),
    {
        match now_unix_secs() {
            Some(now) => Self::from_properties(event, now),
            None => None,
        }
    }

    /// Fill in one sysfs attribute value for rule matching; the caller reads
    /// the file, this records what it found.
    pub fn set_sysattr(&mut self, key: String, value: String)
        requires
            old(self).wf(),
        ensures
            final(self).s_sysattrs() == upsert_spec(old(self).s_sysattrs(), key@, value@),
            final(self).wf(),
            final(self).s_action() == old(self).s_action(),
            final(self).s_devpath() == old(self).s_devpath(),
            final(self).s_subsystem() == old(self).s_subsystem(),
            final(self).s_devtype() == old(self).s_devtype(),
            final(self).s_kernel() == old(self).s_kernel(),
            final(self).s_major() == old(self).s_major(),
            final(self).s_minor() == old(self).s_minor(),
            final(self).s_devnum() == old(self).s_devnum(),
            final(self).s_seqnum() == old(self).s_seqnum(),
            final(self).s_timestamp() == old(self).s_timestamp(),
            final(self).s_props() == old(self).s_props(),
    {
        self.sysattrs.insert(key, value);
    }

    /// The name under which a device node should be created, from `DEVNAME`.
    pub fn devnode(&self) -> (r: Option<&str>)
        ensures
            match r {
                Some(s) => self.s_devnode() == Some(s@),
                None => self.s_devnode().is_none(),
            },
    {
        match self.properties.get("DEVNAME") {
            Some(s) => Some(s.as_str()),
            None => None,
        }
    }

    /// The driver name, from `DRIVER`.
    pub fn driver(&self) -> (r: Option<&str>)
        ensures
            match r {
                Some(s) => self.s_driver() == Some(s@),
                None => self.s_driver().is_none(),
            },
    {
        match self.properties.get("DRIVER") {
            Some(s) => Some(s.as_str()),
            None => None,
        }
    }

    /// The device's sysfs path: `/sys` followed by the device path.
    pub fn syspath(&self) -> (r: String)
        ensures
            r@ == "/sys"@ + self.s_devpath(),
    {
        let mut out = String::new();
        out.append("/sys");
        out.append(self.devpath.as_str());
        proof {
            assert(Seq::<char>::empty() + "/sys"@ + self.s_devpath() =~= "/sys"@
                + self.s_devpath());
        }
        out
    }

    /// The device path under sysfs.
    pub fn devpath(&self) -> (r: &str)
        ensures
            r@ == self.s_devpath(),
    {
        self.devpath.as_str()
    }

    /// Is this a block-subsystem device?
    pub fn is_block_device(&self) -> (r: bool)
        ensures
            r == (self.s_subsystem() == "block"@),
    {
        str_eq(self.subsystem.as_str(), "block")
    }

    /// Is this a whole USB device, by its device type?
    pub fn is_usb_device(&self) -> (r: bool)
        ensures
            r == (self.s_devtype() == Some("usb_device"@)),
    {
        match &self.devtype {
            Some(t) => str_eq(t.as_str(), "usb_device"),
            None => false,
        }
    }

    /// The parsed action variant.
    pub fn action(&self) -> (r: &DeviceAction)
        ensures
            *r == self.s_action(),
    {
        &self.action
    }

    /// The subsystem name.
    pub fn subsystem(&self) -> (r: &str)
        ensures
            r@ == self.s_subsystem(),
    {
        self.subsystem.as_str()
    }

    /// The device type, when the event carried one.
    pub fn devtype(&self) -> (r: Option<&str>)
        ensures
            match r {
                Some(s) => self.s_devtype() == Some(s@),
                None => self.s_devtype().is_none(),
            },
    {
        match &self.devtype {
            Some(s) => Some(s.as_str()),
            None => None,
        }
    }

    /// The kernel name, when the event carried one.
    pub fn kernel(&self) -> (r: Option<&str>)
        ensures
            match r {
                Some(s) => self.s_kernel() == Some(s@),
                None => self.s_kernel().is_none(),
            },
    {
        match &self.kernel {
            Some(s) => Some(s.as_str()),
            None => None,
        }
    }

    /// The parsed major device number, when present.
    pub fn major(&self) -> (r: Option<u32>)
        ensures
            r == self.s_major(),
    {
        self.major
    }

    /// The parsed minor device number, when present.
    pub fn minor(&self) -> (r: Option<u32>)
        ensures
            r == self.s_minor(),
    {
        self.minor
    }

    /// The parsed device number, when present.
    pub fn devnum(&self) -> (r: Option<u64>)
        ensures
            r == self.s_devnum(),
    {
        self.devnum
    }

    /// The kernel's event sequence number, zero when the event had none.
    pub fn seqnum(&self) -> (r: u64)
        ensures
            r == self.s_seqnum(),
    {
        self.seqnum
    }

    /// When the record was created, in seconds since the epoch.
    pub fn timestamp(&self) -> (r: u64)
        ensures
            r == self.s_timestamp(),
    {
        self.timestamp
    }

    /// The full property mapping of the event.
    pub fn properties(&self) -> (r: &PropertyMap)
        ensures
            r@ == self.s_props(),
    {
        &self.properties
    }

    /// The sysfs attribute values filled in for rule matching.
    pub fn sysattrs(&self) -> (r: &PropertyMap)
        ensures
            r@ == self.s_sysattrs(),
    {
        &self.sysattrs
    }
}

/// Relies on `std::time::SystemTime::now` and `duration_since`: whole
/// seconds since the Unix epoch, `None` when the clock reads before it.
/// Nothing is assumed about the value.
#[verifier::external_body]
fn now_unix_secs() -> Option<u64> {
    match std::time::SystemTime::now().duration_since(std::time::UNIX_EPOCH) {
        Ok(d) => Some(d.as_secs()),
        Err(_) => None,
    }
}

} // verus!
