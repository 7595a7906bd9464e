//! The device-information query: assembling a record from what the
//! synthetic filesystem exposes about a device node, and the lines the
//! query command prints.
//!
//! The caller stats the node and reads the files; this module computes the
//! sysfs path from the device number, merges the pieces into one record,
//! and formats the output.

use vstd::prelude::*;
use vstd::string::*;

use crate::props::PropertyMap;
use crate::props::field_kv;
use crate::props::upsert_spec;
use crate::strutil::find_char;
use crate::strutil::oct_str;
use crate::strutil::append_oct_u32;
use crate::strutil::dec_str;
use crate::strutil::append_dec_u64;
use crate::strutil::split_str;
use crate::strutil::substr_string;
use crate::strutil::trim;
use crate::strutil::trim_spec;

verus! {

/// What can go wrong answering a device query.
#[derive(Debug)]
pub enum UdevadmError {
    /// The device node does not exist or is of no queryable kind.
    DeviceNotFound(String),
    /// Reading the node or its sysfs files failed; the path and the
    /// error's text.
    IoError(String, String),
    /// The sysfs entry for the device is missing or malformed.
    SysfsError(String),
}

/// The major half of a Linux device number, as `libc` decodes it.
pub open spec fn major_of(dev: u64) -> u32 {
    (((dev & 0x00000000000fff00) >> 8) | ((dev & 0xfffff00000000000) >> 32)) as u32
}

/// The minor half of a Linux device number, as `libc` decodes it.
pub open spec fn minor_of(dev: u64) -> u32 {
    ((dev & 0x00000000000000ff) | ((dev & 0x00000ffffff00000) >> 12)) as u32
}

/// Relies on `libc::major`: on Linux it computes exactly
/// `((dev & 0xfff00) >> 8) | ((dev & 0xfffff00000000000) >> 32)`.
#[verifier::external_body]
pub(crate) fn dev_major(dev: u64) -> (r: u32)
    ensures
        r == major_of(dev),
{
    libc::major(dev)
}

/// Relies on `libc::minor`: on Linux it computes exactly
/// `(dev & 0xff) | ((dev & 0x00000ffffff00000) >> 12)`.
#[verifier::external_body]
pub(crate) fn dev_minor(dev: u64) -> (r: u32)
    ensures
        r == minor_of(dev),
{
    libc::minor(dev)
}

/// The sysfs lookup path for a character device number:
/// `/sys/dev/char/MAJOR:MINOR`.
pub open spec fn char_sysfs_path_spec(rdev: u64) -> Seq<char> {
    "/sys/dev/char/"@ + dec_str(major_of(rdev) as nat) + seq![':'] + dec_str(
        minor_of(rdev) as nat,
    )
}

/// Build the sysfs lookup path for a character device number.
pub fn char_sysfs_path(rdev: u64) -> (r: String)
    ensures
        r@ == char_sysfs_path_spec(rdev),
{
    let major = dev_major(rdev);
    let minor = dev_minor(rdev);
    let mut out = String::new();
    out.append("/sys/dev/char/");
    append_dec_u64(&mut out, major as u64);
    out.append(":");
    append_dec_u64(&mut out, minor as u64);
    proof {
        reveal_strlit(":");
        assert(":"@ =~= seq![':']);
        assert(out@ =~= char_sysfs_path_spec(rdev));
    }
    out
}

/// Fold the lines of a `uevent` file into the record: each `KEY=VALUE`
/// line is taken up; with `skip_devname` set, a `DEVNAME` line is left
/// out so the caller's own name is preserved.
pub open spec fn uevent_fold(
    es: Seq<(Seq<char>, Seq<char>)>,
    lines: Seq<Seq<char>>,
    skip_devname: bool,
) -> Seq<(Seq<char>, Seq<char>)>
    decreases lines.len(),
{
    if lines.len() == 0 {
        es
    } else {
        let before = uevent_fold(es, lines.drop_last(), skip_devname);
        match field_kv(lines.last()) {
            Option::Some(kv) => if skip_devname && kv.0 == "DEVNAME"@ {
                before
            } else {
                upsert_spec(before, kv.0, kv.1)
            },
            Option::None => before,
        }
    }
}

/// Read the lines of a `uevent` file into the record.
fn merge_uevent(info: &mut PropertyMap, content: &str, skip_devname: bool)
    requires
        old(info).wf(),
    ensures
        final(info).wf(),
        final(info)@ == uevent_fold(
            old(info)@,
            crate::strutil::split_spec(content@, '\n'),
            skip_devname,
        ),
{
    let lines = split_str(content, '\n');
    let n = lines.len();
    let mut i: usize = 0;
    proof {
        assert(lines.deep_view().take(0) =~= Seq::<Seq<char>>::empty());
    }
    while i < n
        invariant
            0 <= i <= n,
            n == lines.len(),
            lines.deep_view() == crate::strutil::split_spec(content@, '\n'),
            lines.deep_view().len() == n,
            info.wf(),
            info@ == uevent_fold(old(info)@, lines.deep_view().take(i as int), skip_devname),
        decreases n - i,
    {
        let line: &String = &lines[i];
        proof {
            assert(line@ == lines.deep_view()[i as int]);
            assert(lines.deep_view().take(i + 1).drop_last() =~= lines.deep_view().take(i as int));
            assert(lines.deep_view().take(i + 1).last() == line@);
        }
        let llen = line.as_str().unicode_len();
        match find_char(line.as_str(), '=', 0) {
            Some(p) => {
                let k = substr_string(line.as_str(), 0, p);
                let v = substr_string(line.as_str(), p + 1, llen);
                proof {
                    assert(k@ =~= line@.take(p as int));
                    assert(v@ =~= line@.skip(p + 1));
                }
                if skip_devname && crate::strutil::str_eq(k.as_str(), "DEVNAME") {
                } else {
                    info.insert(k, v);
                }
            },
            None => {},
        }
        i = i + 1;
    }
    proof {
        assert(lines.deep_view().take(n as int) =~= lines.deep_view());
    }
}

/// `p` without its trailing slashes.
pub open spec fn strip_slashes(p: Seq<char>) -> Seq<char>
    decreases p.len(),
{
    if p.len() > 0 && p.last() == '/' {
        strip_slashes(p.drop_last())
    } else {
        p
    }
}

/// The characters of `p` after its last slash.
pub open spec fn suffix_after_slash(p: Seq<char>) -> Seq<char>
    decreases p.len(),
{
    if p.len() == 0 || p.last() == '/' {
        Seq::empty()
    } else {
        suffix_after_slash(p.drop_last()).push(p.last())
    }
}

/// The final component of a path: the text after the last slash, with
/// trailing slashes ignored; `None` when nothing is left.  This is the
/// library's reading of a symlink target's file name.
pub open spec fn basename_spec(p: Seq<char>) -> Option<Seq<char>> {
    let c = suffix_after_slash(strip_slashes(p));
    if c.len() == 0 {
        Option::None
    } else {
        Option::Some(c)
    }
}

proof fn lemma_strip_take(s: Seq<char>, i: int)
    requires
        0 <= i <= s.len(),
        forall|j: int| i <= j < s.len() ==> s[j] == '/',
    ensures
        strip_slashes(s) == strip_slashes(s.take(i)),
    decreases s.len() - i,
{
    if i < s.len() {
        assert(s.last() == '/');
        assert(s.drop_last().take(i) =~= s.take(i));
        lemma_strip_take(s.drop_last(), i);
    } else {
        assert(s.take(i) =~= s);
    }
}

proof fn lemma_suffix_is(t: Seq<char>, start: int)
    requires
        0 <= start <= t.len(),
        forall|j: int| start <= j < t.len() ==> t[j] != '/',
        start > 0 ==> t[start - 1] == '/',
    ensures
        suffix_after_slash(t) == t.subrange(start, t.len() as int),
    decreases t.len() - start,
{
    if t.len() == start {
        if start == 0 {
            assert(suffix_after_slash(t) =~= t.subrange(0, 0));
        } else {
            assert(t.last() == '/');
            assert(suffix_after_slash(t) =~= t.subrange(start, t.len() as int));
        }
    } else {
        assert(t.last() != '/');
        assert(forall|j: int|
            start <= j < t.drop_last().len() ==> t.drop_last()[j] != '/');
        if start > 0 {
            assert(t.drop_last()[start - 1] == t[start - 1]);
        }
        lemma_suffix_is(t.drop_last(), start);
        assert(t.drop_last().subrange(start, t.drop_last().len() as int).push(t.last())
            =~= t.subrange(start, t.len() as int));
    }
}

/// The final path component, as `basename_spec` reads it.
pub fn basename(p: &str) -> (r: Option<String>)
    ensures
        match r {
            Some(s) => basename_spec(p@) == Some(s@),
            None => basename_spec(p@).is_none(),
        },
{
    let n = p.unicode_len();
    let mut end: usize = n;
    while end > 0 && p.get_char(end - 1) == '/'
        invariant
            0 <= end <= n,
            n == p@.len(),
            forall|j: int| end <= j < n ==> p@[j] == '/',
        decreases end,
    {
        end = end - 1;
    }
    let mut start: usize = end;
    while start > 0 && p.get_char(start - 1) != '/'
        invariant
            0 <= start <= end,
            end <= n,
            n == p@.len(),
            forall|j: int| start <= j < end ==> p@[j] != '/',
        decreases start,
    {
        start = start - 1;
    }
    proof {
        lemma_strip_take(p@, end as int);
        if end > 0 {
            assert(p@.take(end as int).last() == p@[end - 1]);
            assert(strip_slashes(p@.take(end as int)) == p@.take(end as int));
        } else {
            assert(p@.take(0) =~= Seq::<char>::empty());
            assert(strip_slashes(p@.take(0)) =~= p@.take(0));
        }
        let t = p@.take(end as int);
        assert(forall|j: int| start <= j < t.len() ==> t[j] != '/');
        if start > 0 {
            assert(t[start - 1] == p@[start - 1]);
        }
        lemma_suffix_is(t, start as int);
        assert(t.subrange(start as int, t.len() as int) =~= p@.subrange(
            start as int,
            end as int,
        ));
    }
    if start == end {
        None
    } else {
        Some(substr_string(p, start, end))
    }
}

/// The query record of a character device node, assembled from what the
/// caller read: the node path itself as `DEVNAME`; the `uevent` lines with
/// `DEVNAME` preserved; the subsystem and driver symlink targets by final
/// component; the trimmed `type` file as `DEVTYPE`; the device symlink
/// target as `PHYSDEVPATH`; and the node's permission bits, octal, as
/// `DEVMODE`.
pub open spec fn char_info_spec(
    devname: Seq<char>,
    uevent: Option<Seq<char>>,
    subsystem_link: Option<Seq<char>>,
    devtype: Option<Seq<char>>,
    driver_link: Option<Seq<char>>,
    device_link: Option<Seq<char>>,
    mode_bits: u32,
) -> Seq<(Seq<char>, Seq<char>)> {
    let e0 = upsert_spec(Seq::empty(), "DEVNAME"@, devname);
    let e1 = match uevent {
        Option::Some(c) => uevent_fold(e0, crate::strutil::split_spec(c, '\n'), true),
        Option::None => e0,
    };
    let e2 = match subsystem_link {
        Option::Some(p) => match basename_spec(p) {
            Option::Some(b) => upsert_spec(e1, "SUBSYSTEM"@, b),
            Option::None => e1,
        },
        Option::None => e1,
    };
    let e3 = match devtype {
        Option::Some(c) => upsert_spec(e2, "DEVTYPE"@, trim_spec(c)),
        Option::None => e2,
    };
    let e4 = match driver_link {
        Option::Some(p) => match basename_spec(p) {
            Option::Some(b) => upsert_spec(e3, "DRIVER"@, b),
            Option::None => e3,
        },
        Option::None => e3,
    };
    let e5 = match device_link {
        Option::Some(p) => upsert_spec(e4, "PHYSDEVPATH"@, p),
        Option::None => e4,
    };
    upsert_spec(e5, "DEVMODE"@, oct_str((mode_bits & 0o777) as nat))
}

/// Assemble the query record of a character device node from the pieces
/// the caller read out of sysfs.
pub fn assemble_char_device_info(
    devname: &str,
    uevent: Option<&str>,
    subsystem_link: Option<&str>,
    devtype: Option<&str>,
    driver_link: Option<&str>,
    device_link: Option<&str>,
    mode_bits: u32,
) -> (r: PropertyMap)
    ensures
        r.wf(),
        r@ == char_info_spec(
            devname@,
            match uevent {
                Some(s) => Some(s@),
                None => None,
            },
            match subsystem_link {
                Some(s) => Some(s@),
                None => None,
            },
            match devtype {
                Some(s) => Some(s@),
                None => None,
            },
            match driver_link {
                Some(s) => Some(s@),
                None => None,
            },
            match device_link {
                Some(s) => Some(s@),
                None => None,
            },
            mode_bits,
        ),
{
    let mut info = PropertyMap::new();
    info.insert("DEVNAME".to_owned(), devname.to_owned());
    match uevent {
        Some(content) => merge_uevent(&mut info, content, true),
        None => {},
    }
    match subsystem_link {
        Some(p) => {
            match basename(p) {
                Some(b) => info.insert("SUBSYSTEM".to_owned(), b),
                None => {},
            }
        },
        None => {},
    }
    match devtype {
        Some(content) => {
            let t = trim(content);
            info.insert("DEVTYPE".to_owned(), t);
        },
        None => {},
    }
    match driver_link {
        Some(p) => {
            match basename(p) {
                Some(b) => info.insert("DRIVER".to_owned(), b),
                None => {},
            }
        },
        None => {},
    }
    match device_link {
        Some(p) => info.insert("PHYSDEVPATH".to_owned(), p.to_owned()),
        None => {},
    }
    let mut mode_text = String::new();
    append_oct_u32(&mut mode_text, mode_bits & 0o777);
    proof {
        assert(Seq::<char>::empty() + oct_str((mode_bits & 0o777) as nat) =~= oct_str(
            (mode_bits & 0o777) as nat,
        ));
    }
    info.insert("DEVMODE".to_owned(), mode_text);
    info
}

/// The query record of a sysfs directory that carries a `uevent` file:
/// all the file's `KEY=VALUE` lines, and the subsystem symlink target by
/// final component.
pub open spec fn syspath_info_spec(
    uevent: Seq<char>,
    subsystem_link: Option<Seq<char>>,
) -> Seq<(Seq<char>, Seq<char>)> {
    let e1 = uevent_fold(Seq::empty(), crate::strutil::split_spec(uevent, '\n'), false);
    match subsystem_link {
        Option::Some(p) => match basename_spec(p) {
            Option::Some(b) => upsert_spec(e1, "SUBSYSTEM"@, b),
            Option::None => e1,
        },
        Option::None => e1,
    }
}

/// Assemble the query record of a sysfs directory from its `uevent` file
/// and its subsystem symlink target.
pub fn assemble_syspath_info(uevent: &str, subsystem_link: Option<&str>) -> (r: PropertyMap)
    ensures
        r.wf(),
        r@ == syspath_info_spec(
            uevent@,
            match subsystem_link {
                Some(s) => Some(s@),
                None => None,
            },
        ),
{
    let mut info = PropertyMap::new();
    merge_uevent(&mut info, uevent, false);
    match subsystem_link {
        Some(p) => {
            match basename(p) {
                Some(b) => info.insert("SUBSYSTEM".to_owned(), b),
                None => {},
            }
        },
        None => {},
    }
    info
}

/// The `KEY=VALUE` lines of a record, in entry order.
pub open spec fn info_lines_spec(es: Seq<(Seq<char>, Seq<char>)>) -> Seq<Seq<char>> {
    Seq::new(es.len(), |i: int| es[i].0 + seq!['='] + es[i].1)
}

/// The query command's body: one `KEY=VALUE` line per record entry, or
/// `DeviceNotFound` exactly when no record could be read for the path.
pub fn udevadm_info(device_path: &str, info: Option<&PropertyMap>) -> (r: Result<
    Vec<String>,
    UdevadmError,
>)
    ensures
        info.is_some() <==> r.is_ok(),
        r matches Ok(lines) ==> lines.deep_view() == info_lines_spec(info->Some_0@),
        r matches Err(e) ==> e matches UdevadmError::DeviceNotFound(p) && p@ == device_path@,
{
    match info {
        Some(pm) => {
            let n = pm.len();
            let mut lines: Vec<String> = Vec::new();
            let mut i: usize = 0;
            proof {
                reveal_strlit("=");
                assert("="@ =~= seq!['=']);
                assert(lines.deep_view() =~= info_lines_spec(pm@).take(0));
            }
            while i < n
                invariant
                    0 <= i <= n,
                    n == pm@.len(),
                    lines.deep_view() == info_lines_spec(pm@).take(i as int),
                decreases n - i,
            {
                let mut line = String::new();
                line.append(pm.key_at(i).as_str());
                line.append("=");
                line.append(pm.value_at(i).as_str());
                let ghost before = lines.deep_view();
                lines.push(line);
                proof {
                    reveal_strlit("=");
                    assert("="@ =~= seq!['=']);
                    assert(line@ =~= info_lines_spec(pm@)[i as int]);
                    assert(lines.deep_view() =~= before.push(line@));
                    assert(before.push(line@) =~= info_lines_spec(pm@).take(i + 1));
                }
                i = i + 1;
            }
            proof {
                assert(info_lines_spec(pm@).take(n as int) =~= info_lines_spec(pm@));
            }
            Ok(lines)
        },
        None => Err(UdevadmError::DeviceNotFound(device_path.to_owned())),
    }
}

/// The query command: as `udevadm_info`.
pub fn udevadm_cli(device_path: &str, info: Option<&PropertyMap>) -> (r: Result<
    Vec<String>,
    UdevadmError,
>)
    ensures
        info.is_some() <==> r.is_ok(),
        r matches Ok(lines) ==> lines.deep_view() == info_lines_spec(info->Some_0@),
        r matches Err(e) ==> e matches UdevadmError::DeviceNotFound(p) && p@ == device_path@,
{
    udevadm_info(device_path, info)
}

} // verus!
