//! A model of the device-node directory: entries under root-relative
//! paths, the operations the action executor plans, and their semantics
//! as a map from paths to entries.
//!
//! The surrounding binary interprets each operation with the real
//! syscalls; the model says what state those calls leave behind, and the
//! executor's laws are proved against it.

use vstd::prelude::*;
use vstd::string::*;

use crate::strutil::str_eq;

verus! {

/// One entry under the device-node root: a device node with its metadata,
/// or a symbolic link.
#[derive(Debug, Clone)]
pub enum FsEntry {
    Node {
        major: u32,
        minor: u32,
        block: bool,
        mode: u32,
        owner: Option<String>,
        group: Option<String>,
    },
    Symlink { target: String },
}

/// The mathematical shadow of `FsEntry`.
pub enum FsEntryV {
    Node {
        major: u32,
        minor: u32,
        block: bool,
        mode: u32,
        owner: Option<Seq<char>>,
        group: Option<Seq<char>>,
    },
    Symlink { target: Seq<char> },
}

/// The view of an optional string.
pub open spec fn opt_view(o: &Option<String>) -> Option<Seq<char>> {
    match o {
        Option::Some(s) => Option::Some(s@),
        Option::None => Option::None,
    }
}

impl View for FsEntry {
    type V = FsEntryV;

    open spec fn view(&self) -> FsEntryV {
        match self {
            FsEntry::Node { major, minor, block, mode, owner, group } => FsEntryV::Node {
                major: *major,
                minor: *minor,
                block: *block,
                mode: *mode,
                owner: opt_view(owner),
                group: opt_view(group),
            },
            FsEntry::Symlink { target } => FsEntryV::Symlink { target: target@ },
        }
    }
}

impl DeepView for FsEntry {
    type V = FsEntryV;

    open spec fn deep_view(&self) -> FsEntryV {
        self@
    }
}

/// One planned filesystem operation.  Paths are relative to the
/// device-node root; the `Run` operation carries a shell command and does
/// not touch the model.
#[derive(Debug, Clone)]
pub enum FsOp {
    /// Create a device node with permissions `0o660`; an existing entry at
    /// the path is left alone.
    Mknod { path: String, block: bool, major: u32, minor: u32 },
    /// Set the permission bits of the node at the path; anything else
    /// there is left alone.
    SetMode { path: String, mode: u32 },
    /// Record the owner name on the node at the path.
    SetOwner { path: String, owner: String },
    /// Record the group name on the node at the path.
    SetGroup { path: String, group: String },
    /// Create a symbolic link, replacing whatever stood at the path.
    MakeLink { path: String, target: String },
    /// Remove every symbolic link whose target is the given path.
    RemoveLinksTo { target: String },
    /// Remove the entry at the path, if any.
    RemoveNode { path: String },
    /// Run a shell command with the event's properties in its environment.
    Run { command: String },
}

/// The mathematical shadow of `FsOp`.
pub enum FsOpV {
    Mknod { path: Seq<char>, block: bool, major: u32, minor: u32 },
    SetMode { path: Seq<char>, mode: u32 },
    SetOwner { path: Seq<char>, owner: Seq<char> },
    SetGroup { path: Seq<char>, group: Seq<char> },
    MakeLink { path: Seq<char>, target: Seq<char> },
    RemoveLinksTo { target: Seq<char> },
    RemoveNode { path: Seq<char> },
    Run { command: Seq<char> },
}

impl View for FsOp {
    type V = FsOpV;

    open spec fn view(&self) -> FsOpV {
        match self {
            FsOp::Mknod { path, block, major, minor } => FsOpV::Mknod {
                path: path@,
                block: *block,
                major: *major,
                minor: *minor,
            },
            FsOp::SetMode { path, mode } => FsOpV::SetMode { path: path@, mode: *mode },
            FsOp::SetOwner { path, owner } => FsOpV::SetOwner { path: path@, owner: owner@ },
            FsOp::SetGroup { path, group } => FsOpV::SetGroup { path: path@, group: group@ },
            FsOp::MakeLink { path, target } => FsOpV::MakeLink { path: path@, target: target@ },
            FsOp::RemoveLinksTo { target } => FsOpV::RemoveLinksTo { target: target@ },
            FsOp::RemoveNode { path } => FsOpV::RemoveNode { path: path@ },
            FsOp::Run { command } => FsOpV::Run { command: command@ },
        }
    }
}

impl DeepView for FsOp {
    type V = FsOpV;

    open spec fn deep_view(&self) -> FsOpV {
        self@
    }
}

/// Is `e` a symbolic link whose target is `t`?
pub open spec fn is_link_to(e: FsEntryV, t: Seq<char>) -> bool {
    e matches FsEntryV::Symlink { target } && target == t
}

/// What one operation does to the directory state.
pub open spec fn apply_op(m: Map<Seq<char>, FsEntryV>, op: FsOpV) -> Map<Seq<char>, FsEntryV> {
    match op {
        FsOpV::Mknod { path, block, major, minor } => if m.dom().contains(path) {
            m
        } else {
            m.insert(
                path,
                FsEntryV::Node {
                    major,
                    minor,
                    block,
                    mode: 0o660,
                    owner: Option::None,
                    group: Option::None,
                },
            )
        },
        FsOpV::SetMode { path, mode } => if m.dom().contains(path) {
            match m[path] {
                FsEntryV::Node { major, minor, block, mode: _, owner, group } => m.insert(
                    path,
                    FsEntryV::Node { major, minor, block, mode, owner, group },
                ),
                FsEntryV::Symlink { .. } => m,
            }
        } else {
            m
        },
        FsOpV::SetOwner { path, owner } => if m.dom().contains(path) {
            match m[path] {
                FsEntryV::Node { major, minor, block, mode, owner: _, group } => m.insert(
                    path,
                    FsEntryV::Node { major, minor, block, mode, owner: Option::Some(owner), group },
                ),
                FsEntryV::Symlink { .. } => m,
            }
        } else {
            m
        },
        FsOpV::SetGroup { path, group } => if m.dom().contains(path) {
            match m[path] {
                FsEntryV::Node { major, minor, block, mode, owner, group: _ } => m.insert(
                    path,
                    FsEntryV::Node { major, minor, block, mode, owner, group: Option::Some(group) },
                ),
                FsEntryV::Symlink { .. } => m,
            }
        } else {
            m
        },
        FsOpV::MakeLink { path, target } => m.insert(path, FsEntryV::Symlink { target }),
        FsOpV::RemoveLinksTo { target } => Map::new(
            |k: Seq<char>| m.dom().contains(k) && !is_link_to(m[k], target),
            |k: Seq<char>| m[k],
        ),
        FsOpV::RemoveNode { path } => m.remove(path),
        FsOpV::Run { .. } => m,
    }
}

/// What a whole operation sequence does, first to last.
pub open spec fn apply_ops(
    m: Map<Seq<char>, FsEntryV>,
    ops: Seq<FsOpV>,
) -> Map<Seq<char>, FsEntryV>
    decreases ops.len(),
{
    if ops.len() == 0 {
        m
    } else {
        apply_ops(apply_op(m, ops[0]), ops.skip(1))
    }
}

/// Applying a concatenation applies the parts in order.
pub proof fn lemma_apply_ops_concat(m: Map<Seq<char>, FsEntryV>, a: Seq<FsOpV>, b: Seq<FsOpV>)
    ensures
        apply_ops(m, a + b) == apply_ops(apply_ops(m, a), b),
    decreases a.len(),
{
    if a.len() == 0 {
        assert(a + b =~= b);
    } else {
        assert((a + b)[0] == a[0]);
        assert((a + b).skip(1) =~= a.skip(1) + b);
        lemma_apply_ops_concat(apply_op(m, a[0]), a.skip(1), b);
    }
}

/// The model directory, held as an entry list with unique paths.
pub struct FsState {
    entries: Vec<(String, FsEntry)>,
}

/// The map an entry list denotes; a later entry would win, though the
/// state keeps paths unique.
pub open spec fn map_of(es: Seq<(Seq<char>, FsEntryV)>) -> Map<Seq<char>, FsEntryV>
    decreases es.len(),
{
    if es.len() == 0 {
        Map::empty()
    } else {
        map_of(es.drop_last()).insert(es.last().0, es.last().1)
    }
}

/// No two entries share a path.
pub open spec fn paths_unique(es: Seq<(Seq<char>, FsEntryV)>) -> bool {
    forall|i: int, j: int| 0 <= i < j < es.len() ==> (#[trigger] es[i]).0 != (#[trigger] es[j]).0
}

impl View for FsState {
    type V = Map<Seq<char>, FsEntryV>;

    closed spec fn view(&self) -> Map<Seq<char>, FsEntryV> {
        map_of(self.entries.deep_view())
    }
}

/// A path is in the map exactly when some entry carries it.
proof fn lemma_map_of_contains(es: Seq<(Seq<char>, FsEntryV)>, k: Seq<char>)
    ensures
        map_of(es).dom().contains(k) <==> exists|i: int|
            0 <= i < es.len() && (#[trigger] es[i]).0 == k,
    decreases es.len(),
{
    if es.len() > 0 {
        lemma_map_of_contains(es.drop_last(), k);
        if es.last().0 == k {
            assert(es[es.len() - 1].0 == k);
        } else if map_of(es).dom().contains(k) {
            let i = choose|i: int| 0 <= i < es.drop_last().len() && (#[trigger] es.drop_last()[i]).0
                == k;
            assert(es[i].0 == k);
        } else {
            assert forall|i: int| 0 <= i < es.len() implies (#[trigger] es[i]).0 != k by {
                if i < es.len() - 1 {
                    assert(es.drop_last()[i] == es[i]);
                }
            }
        }
    }
}

/// With unique paths, the entry that carries `k` gives the map's value.
proof fn lemma_map_of_at(es: Seq<(Seq<char>, FsEntryV)>, i: int)
    requires
        paths_unique(es),
        0 <= i < es.len(),
    ensures
        map_of(es).dom().contains(es[i].0),
        map_of(es)[es[i].0] == es[i].1,
    decreases es.len(),
{
    if i == es.len() - 1 {
    } else {
        assert(paths_unique(es.drop_last())) by {
            assert(forall|a: int|
                0 <= a < es.drop_last().len() ==> es.drop_last()[a] == es[a]);
        }
        assert(es.drop_last()[i] == es[i]);
        lemma_map_of_at(es.drop_last(), i);
        assert(es[i].0 != es[es.len() - 1].0);
    }
}

impl FsState {
    /// The state keeps its entry paths unique.
    pub closed spec fn wf(&self) -> bool {
        paths_unique(self.entries.deep_view())
    }

    /// The empty directory.
    pub fn new() -> (r: FsState)
        ensures
            r@ == Map::<Seq<char>, FsEntryV>::empty(),
            r.wf(),
    {
        let r = FsState { entries: Vec::new() };
        proof {
            assert(r.entries.deep_view() =~= Seq::<(Seq<char>, FsEntryV)>::empty());
        }
        r
    }

    /// The entry at a path, if any.
    pub fn lookup(&self, path: &str) -> (r: Option<&FsEntry>)
        requires
            self.wf(),
        ensures
            match r {
                Some(e) => self@.dom().contains(path@) && self@[path@] == e@,
                None => !self@.dom().contains(path@),
            },
    {
        let ghost es = self.entries.deep_view();
        let n = self.entries.len();
        let mut i: usize = 0;
        proof {
            assert(es.len() == self.entries@.len());
        }
        while i < n
            invariant
                0 <= i <= n,
                n == self.entries.len(),
                es == self.entries.deep_view(),
                es.len() == n,
                self.wf(),
                forall|j: int| 0 <= j < i ==> (#[trigger] es[j]).0 != path@,
            decreases n - i,
        {
            proof {
                assert(es[i as int] == (self.entries@[i as int].0@, self.entries@[i as int].1@));
            }
            if str_eq(self.entries[i].0.as_str(), path) {
                proof {
                    lemma_map_of_at(es, i as int);
                }
                return Some(&self.entries[i].1);
            }
            i = i + 1;
        }
        proof {
            lemma_map_of_contains(es, path@);
        }
        None
    }

    /// How many entries the directory holds.
    pub fn entry_count(&self) -> (r: usize)
        ensures
            r == self.spec_entry_count(),
    {
        self.entries.len()
    }

    /// The number of entries.
    pub closed spec fn spec_entry_count(&self) -> nat {
        self.entries.deep_view().len()
    }
}

/// Updating the entry at `i` updates its path in the map.
proof fn lemma_map_of_update(es: Seq<(Seq<char>, FsEntryV)>, i: int, v: FsEntryV)
    requires
        paths_unique(es),
        0 <= i < es.len(),
    ensures
        map_of(es.update(i, (es[i].0, v))) == map_of(es).insert(es[i].0, v),
        paths_unique(es.update(i, (es[i].0, v))),
    decreases es.len(),
{
    let k = es[i].0;
    let es2 = es.update(i, (k, v));
    assert forall|a: int, b: int| 0 <= a < b < es2.len() implies (#[trigger] es2[a]).0 != (
    #[trigger] es2[b]).0 by {
        assert(es2[a].0 == es[a].0 && es2[b].0 == es[b].0);
    }
    if i == es.len() - 1 {
        assert(es2.drop_last() =~= es.drop_last());
        assert(map_of(es2) == map_of(es.drop_last()).insert(k, v));
        assert(map_of(es.drop_last()).insert(k, es[i].1).insert(k, v) =~= map_of(
            es.drop_last(),
        ).insert(k, v));
    } else {
        assert(paths_unique(es.drop_last())) by {
            assert(forall|a: int| 0 <= a < es.drop_last().len() ==> es.drop_last()[a] == es[a]);
        }
        assert(es.drop_last()[i] == es[i]);
        lemma_map_of_update(es.drop_last(), i, v);
        assert(es2.drop_last() =~= es.drop_last().update(i, (k, v)));
        assert(es2.last() == es.last());
        assert(es[i].0 != es[es.len() - 1].0);
        assert(map_of(es.drop_last()).insert(k, v).insert(es.last().0, es.last().1) =~= map_of(
            es.drop_last(),
        ).insert(es.last().0, es.last().1).insert(k, v));
    }
}

/// Removing the entry at `i` removes its path from the map.
proof fn lemma_map_of_remove(es: Seq<(Seq<char>, FsEntryV)>, i: int)
    requires
        paths_unique(es),
        0 <= i < es.len(),
    ensures
        map_of(es.remove(i)) == map_of(es).remove(es[i].0),
        paths_unique(es.remove(i)),
    decreases es.len(),
{
    let k = es[i].0;
    let es2 = es.remove(i);
    assert forall|a: int, b: int| 0 <= a < b < es2.len() implies (#[trigger] es2[a]).0 != (
    #[trigger] es2[b]).0 by {
        es.remove_ensures(i);
    }
    if i == es.len() - 1 {
        assert(es2 =~= es.drop_last());
        lemma_map_of_contains(es.drop_last(), k);
        assert forall|a: int| 0 <= a < es.drop_last().len() implies (
        #[trigger] es.drop_last()[a]).0 != k by {
            assert(es.drop_last()[a] == es[a]);
        }
        assert(!map_of(es.drop_last()).dom().contains(k));
        assert(map_of(es.drop_last()).insert(k, es[i].1).remove(k) =~= map_of(es.drop_last()));
    } else {
        assert(paths_unique(es.drop_last())) by {
            assert(forall|a: int| 0 <= a < es.drop_last().len() ==> es.drop_last()[a] == es[a]);
        }
        assert(es.drop_last()[i] == es[i]);
        lemma_map_of_remove(es.drop_last(), i);
        assert(es2.drop_last() =~= es.drop_last().remove(i));
        assert(es2.last() == es.last()) by {
            es.remove_ensures(i);
        }
        assert(es[i].0 != es[es.len() - 1].0);
        assert(map_of(es.drop_last()).remove(k).insert(es.last().0, es.last().1) =~= map_of(
            es.drop_last(),
        ).insert(es.last().0, es.last().1).remove(k));
    }
}

/// Keeping only the entries whose value satisfies a keep-predicate
/// restricts the map accordingly.
proof fn lemma_map_of_filter(es: Seq<(Seq<char>, FsEntryV)>, t: Seq<char>)
    requires
        paths_unique(es),
    ensures
        map_of(es.filter(|p: (Seq<char>, FsEntryV)| !is_link_to(p.1, t))) == Map::new(
            |k: Seq<char>| map_of(es).dom().contains(k) && !is_link_to(map_of(es)[k], t),
            |k: Seq<char>| map_of(es)[k],
        ),
        paths_unique(es.filter(|p: (Seq<char>, FsEntryV)| !is_link_to(p.1, t))),
    decreases es.len(),
{
    reveal(Seq::filter);
    let pred = |p: (Seq<char>, FsEntryV)| !is_link_to(p.1, t);
    let goal = Map::new(
        |k: Seq<char>| map_of(es).dom().contains(k) && !is_link_to(map_of(es)[k], t),
        |k: Seq<char>| map_of(es)[k],
    );
    if es.len() == 0 {
        assert(es.filter(pred) =~= es);
        assert(map_of(es) =~= goal);
    } else {
        let dl = es.drop_last();
        let last = es.last();
        assert(paths_unique(dl)) by {
            assert(forall|a: int| 0 <= a < dl.len() ==> dl[a] == es[a]);
        }
        lemma_map_of_filter(dl, t);
        lemma_map_of_contains(dl, last.0);
        assert forall|a: int| 0 <= a < dl.len() implies (#[trigger] dl[a]).0 != last.0 by {
            assert(dl[a] == es[a]);
            assert(last == es[es.len() - 1]);
        }
        assert(!map_of(dl).dom().contains(last.0));
        let fdl = dl.filter(pred);
        assert(paths_unique(fdl) && map_of(fdl) == Map::new(
            |k: Seq<char>| map_of(dl).dom().contains(k) && !is_link_to(map_of(dl)[k], t),
            |k: Seq<char>| map_of(dl)[k],
        ));
        if pred(last) {
            assert(es.filter(pred) == fdl.push(last));
            assert(fdl.push(last).drop_last() =~= fdl);
            assert(map_of(es.filter(pred)) == map_of(fdl).insert(last.0, last.1));
            assert(map_of(es) == map_of(dl).insert(last.0, last.1));
            assert(map_of(fdl).insert(last.0, last.1) =~= goal);
            lemma_map_of_contains(fdl, last.0);
            assert forall|a: int| 0 <= a < fdl.len() implies (#[trigger] fdl[a]).0 != last.0 by {
                assert(fdl.contains(fdl[a]));
                dl.lemma_filter_contains_rev(pred, fdl[a]);
                let m = choose|m: int| 0 <= m < dl.len() && dl[m] == fdl[a];
            }
            assert(paths_unique(fdl.push(last))) by {
                assert forall|a: int, b: int|
                    0 <= a < b < fdl.push(last).len() implies (#[trigger] fdl.push(last)[a]).0 != (
                #[trigger] fdl.push(last)[b]).0 by {
                    if b < fdl.len() {
                        assert(fdl.push(last)[a] == fdl[a] && fdl.push(last)[b] == fdl[b]);
                    } else {
                        assert(fdl.push(last)[b] == last);
                        assert(fdl.push(last)[a] == fdl[a]);
                    }
                }
            }
        } else {
            assert(es.filter(pred) == fdl);
            assert(map_of(es) == map_of(dl).insert(last.0, last.1));
            assert(map_of(fdl) =~= goal);
        }
    }
}

impl FsState {
    /// Apply one planned operation to the model directory.
    pub fn apply(&mut self, op: &FsOp)
        requires
            old(self).wf(),
        ensures
            final(self)@ == apply_op(old(self)@, op@),
            final(self).wf(),
    {
        match op {
            FsOp::Mknod { path, block, major, minor } => {
                match self.find_index(path.as_str()) {
                    Some(_) => {},
                    None => {
                        let entry = FsEntry::Node {
                            major: *major,
                            minor: *minor,
                            block: *block,
                            mode: 0o660,
                            owner: None,
                            group: None,
                        };
                        self.push_absent(path.clone(), entry);
                    },
                }
            },
            FsOp::SetMode { path, mode } => {
                match self.find_index(path.as_str()) {
                    Some(i) => {
                        proof {
                            assert(self.entries.deep_view()[i as int] == (
                                self.entries@[i as int].0@,
                                self.entries@[i as int].1@,
                            ));
                        }
                        let e2opt: Option<FsEntry> = match &self.entries[i].1 {
                            FsEntry::Node { major, minor, block, mode: _, owner, group } => Some(
                                FsEntry::Node {
                                    major: *major,
                                    minor: *minor,
                                    block: *block,
                                    mode: *mode,
                                    owner: clone_opt(owner),
                                    group: clone_opt(group),
                                },
                            ),
                            FsEntry::Symlink { .. } => None,
                        };
                        match e2opt {
                            Some(e2) => {
                                self.replace_at(i, e2);
                            },
                            None => {},
                        }
                    },
                    None => {},
                }
            },
            FsOp::SetOwner { path, owner } => {
                match self.find_index(path.as_str()) {
                    Some(i) => {
                        proof {
                            assert(self.entries.deep_view()[i as int] == (
                                self.entries@[i as int].0@,
                                self.entries@[i as int].1@,
                            ));
                        }
                        let e2opt: Option<FsEntry> = match &self.entries[i].1 {
                            FsEntry::Node { major, minor, block, mode, owner: _, group } => Some(
                                FsEntry::Node {
                                    major: *major,
                                    minor: *minor,
                                    block: *block,
                                    mode: *mode,
                                    owner: Some(owner.clone()),
                                    group: clone_opt(group),
                                },
                            ),
                            FsEntry::Symlink { .. } => None,
                        };
                        match e2opt {
                            Some(e2) => {
                                self.replace_at(i, e2);
                            },
                            None => {},
                        }
                    },
                    None => {},
                }
            },
            FsOp::SetGroup { path, group } => {
                match self.find_index(path.as_str()) {
                    Some(i) => {
                        proof {
                            assert(self.entries.deep_view()[i as int] == (
                                self.entries@[i as int].0@,
                                self.entries@[i as int].1@,
                            ));
                        }
                        let e2opt: Option<FsEntry> = match &self.entries[i].1 {
                            FsEntry::Node { major, minor, block, mode, owner, group: _ } => Some(
                                FsEntry::Node {
                                    major: *major,
                                    minor: *minor,
                                    block: *block,
                                    mode: *mode,
                                    owner: clone_opt(owner),
                                    group: Some(group.clone()),
                                },
                            ),
                            FsEntry::Symlink { .. } => None,
                        };
                        match e2opt {
                            Some(e2) => {
                                self.replace_at(i, e2);
                            },
                            None => {},
                        }
                    },
                    None => {},
                }
            },
            FsOp::MakeLink { path, target } => {
                let e2 = FsEntry::Symlink { target: target.clone() };
                match self.find_index(path.as_str()) {
                    Some(i) => {
                        self.replace_at(i, e2);
                    },
                    None => {
                        self.push_absent(path.clone(), e2);
                    },
                }
            },
            FsOp::RemoveLinksTo { target } => {
                let ghost es = old(self).entries.deep_view();
                let mut kept: Vec<(String, FsEntry)> = Vec::new();
                let total = self.entries.len();
                let mut done: usize = 0;
                proof {
                    reveal(Seq::filter);
                    assert(es.take(0) =~= Seq::<(Seq<char>, FsEntryV)>::empty());
                    assert(es.take(0).filter(
                        |p: (Seq<char>, FsEntryV)| !is_link_to(p.1, target@),
                    ) =~= Seq::<(Seq<char>, FsEntryV)>::empty());
                    assert(kept.deep_view() =~= Seq::<(Seq<char>, FsEntryV)>::empty());
                    assert(es.skip(0) =~= es);
                    assert(es.len() == old(self).entries@.len());
                }
                while self.entries.len() > 0
                    invariant
                        es.len() == total,
                        done + self.entries.len() == es.len(),
                        self.entries.deep_view() == es.skip(done as int),
                        kept.deep_view() == es.take(done as int).filter(
                            |p: (Seq<char>, FsEntryV)| !is_link_to(p.1, target@),
                        ),
                    decreases self.entries.len(),
                {
                    let ghost pre = self.entries.deep_view();
                    let ghost pre_vec = self.entries@;
                    let (p, e) = self.entries.remove(0);
                    proof {
                        reveal(Seq::filter);
                        assert(pre[0] == (pre_vec[0].0@, pre_vec[0].1@));
                        assert((p@, e@) == es[done as int]);
                        assert forall|m: int|
                            0 <= m < self.entries.deep_view().len() implies self.entries.deep_view()[m]
                            == es.skip(done as int + 1)[m] by {
                            assert(self.entries.deep_view()[m] == (
                                self.entries@[m].0@,
                                self.entries@[m].1@,
                            ));
                            assert(self.entries@[m] == pre_vec[m + 1]);
                            assert(pre[m + 1] == (pre_vec[m + 1].0@, pre_vec[m + 1].1@));
                            assert(pre[m + 1] == es.skip(done as int)[m + 1]);
                        }
                        assert(self.entries.deep_view() =~= es.skip(done as int + 1));
                        assert(es.take(done as int + 1).drop_last() =~= es.take(done as int));
                        assert(es.take(done as int + 1).last() == es[done as int]);
                    }
                    let keep: bool = match &e {
                        FsEntry::Symlink { target: t } => !str_eq(t.as_str(), target.as_str()),
                        FsEntry::Node { .. } => true,
                    };
                    if keep {
                        let ghost kbefore = kept.deep_view();
                        kept.push((p, e));
                        proof {
                            assert(kept.deep_view() =~= kbefore.push(es[done as int]));
                        }
                    }
                    done = done + 1;
                }
                self.entries = kept;
                proof {
                    assert(es.take(done as int) =~= es);
                    lemma_map_of_filter(es, target@);
                    es.lemma_filter_len(|p: (Seq<char>, FsEntryV)| !is_link_to(p.1, target@));
                }
            },
            FsOp::RemoveNode { path } => {
                match self.find_index(path.as_str()) {
                    Some(i) => {
                        let ghost es = old(self).entries.deep_view();
                        let _removed = self.entries.remove(i);
                        proof {
                            lemma_map_of_remove(es, i as int);
                            assert forall|m: int|
                                0 <= m < self.entries.deep_view().len() implies self.entries.deep_view()[m]
                                == es.remove(i as int)[m] by {
                                assert(self.entries.deep_view()[m] == (
                                    self.entries@[m].0@,
                                    self.entries@[m].1@,
                                ));
                                es.remove_ensures(i as int);
                                if m < i {
                                    assert(self.entries@[m] == old(self).entries@[m]);
                                    assert(es[m] == (
                                        old(self).entries@[m].0@,
                                        old(self).entries@[m].1@,
                                    ));
                                } else {
                                    assert(self.entries@[m] == old(self).entries@[m + 1]);
                                    assert(es[m + 1] == (
                                        old(self).entries@[m + 1].0@,
                                        old(self).entries@[m + 1].1@,
                                    ));
                                }
                            }
                            assert(self.entries.deep_view() =~= es.remove(i as int));
                        }
                    },
                    None => {
                        proof {
                            assert(old(self)@.remove(path@) =~= old(self)@);
                        }
                    },
                }
            },
            FsOp::Run { .. } => {},
        }
    }

    /// Apply a whole plan, first operation to last.
    pub fn apply_plan(&mut self, ops: &Vec<FsOp>)
        requires
            old(self).wf(),
        ensures
            final(self)@ == apply_ops(old(self)@, ops.deep_view()),
            final(self).wf(),
    {
        let n = ops.len();
        let mut i: usize = 0;
        proof {
            assert(ops.deep_view().skip(0) =~= ops.deep_view());
        }
        while i < n
            invariant
                0 <= i <= n,
                n == ops.len(),
                ops.deep_view().len() == n,
                self.wf(),
                apply_ops(old(self)@, ops.deep_view()) == apply_ops(
                    self@,
                    ops.deep_view().skip(i as int),
                ),
            decreases n - i,
        {
            proof {
                assert(ops.deep_view()[i as int] == ops@[i as int]@);
                assert(ops.deep_view().skip(i as int)[0] == ops.deep_view()[i as int]);
                assert(ops.deep_view().skip(i as int).skip(1) =~= ops.deep_view().skip(i + 1));
            }
            self.apply(&ops[i]);
            i = i + 1;
        }
        proof {
            assert(ops.deep_view().skip(n as int).len() == 0);
        }
    }

    /// The position of the entry at a path, if any.
    fn find_index(&self, path: &str) -> (r: Option<usize>)
        requires
            self.wf(),
        ensures
            match r {
                Some(i) => i < self.entries.deep_view().len() && self.entries.deep_view()[
                    i as int
                ].0 == path@ && self@.dom().contains(path@) && self@[path@]
                    == self.entries.deep_view()[i as int].1,
                None => !self@.dom().contains(path@),
            },
    {
        let ghost es = self.entries.deep_view();
        let n = self.entries.len();
        let mut i: usize = 0;
        proof {
            assert(es.len() == self.entries@.len());
        }
        while i < n
            invariant
                0 <= i <= n,
                n == self.entries.len(),
                es == self.entries.deep_view(),
                es.len() == n,
                self.wf(),
                forall|j: int| 0 <= j < i ==> (#[trigger] es[j]).0 != path@,
            decreases n - i,
        {
            proof {
                assert(es[i as int] == (self.entries@[i as int].0@, self.entries@[i as int].1@));
            }
            if str_eq(self.entries[i].0.as_str(), path) {
                proof {
                    lemma_map_of_at(es, i as int);
                }
                return Some(i);
            }
            i = i + 1;
        }
        proof {
            lemma_map_of_contains(es, path@);
        }
        None
    }

    /// Append an entry whose path is not present yet.
    fn push_absent(&mut self, path: String, entry: FsEntry)
        requires
            old(self).wf(),
            !old(self)@.dom().contains(path@),
        ensures
            final(self)@ == old(self)@.insert(path@, entry@),
            final(self).wf(),
    {
        let ghost es = old(self).entries.deep_view();
        proof {
            lemma_map_of_contains(es, path@);
        }
        self.entries.push((path, entry));
        proof {
            assert(self.entries.deep_view() =~= es.push(
                (self.entries@[es.len() as int].0@, self.entries@[es.len() as int].1@),
            ));
            assert(self.entries.deep_view().drop_last() =~= es);
            assert forall|a: int, b: int|
                0 <= a < b < self.entries.deep_view().len() implies (
            #[trigger] self.entries.deep_view()[a]).0 != (
            #[trigger] self.entries.deep_view()[b]).0 by {
                if b == es.len() {
                    assert(self.entries.deep_view()[a] == es[a]);
                }
            }
        }
    }

    /// Replace the entry value at position `i`, keeping its path.
    fn replace_at(&mut self, i: usize, e2: FsEntry)
        requires
            old(self).wf(),
            i < old(self).entries.deep_view().len(),
        ensures
            final(self)@ == old(self)@.insert(old(self).entries.deep_view()[i as int].0, e2@),
            final(self).wf(),
            final(self).entries.deep_view() == old(self).entries.deep_view().update(
                i as int,
                (old(self).entries.deep_view()[i as int].0, e2@),
            ),
    {
        let ghost es = old(self).entries.deep_view();
        let ghost ev = e2@;
        let (p, _e) = self.entries.remove(i);
        let ghost pv = p@;
        proof {
            assert(es[i as int] == (old(self).entries@[i as int].0@, old(self).entries@[
                i as int
            ].1@));
            assert(pv == es[i as int].0);
        }
        let ghost mid_vec = self.entries@;
        self.entries.insert(i, (p, e2));
        proof {
            let nv = self.entries@;
            assert(nv[i as int].0@ == pv && nv[i as int].1@ == ev);
            assert forall|m: int| 0 <= m < nv.len() && m != i implies nv[m] == old(
                self,
            ).entries@[m] by {
                if m < i {
                    assert(nv[m] == mid_vec[m]);
                    assert(mid_vec[m] == old(self).entries@[m]);
                } else {
                    assert(nv[m] == mid_vec[m - 1]);
                    assert(mid_vec[m - 1] == old(self).entries@[m]);
                }
            }
            assert forall|m: int| 0 <= m < self.entries.deep_view().len() implies self.entries.deep_view()[m]
                == es.update(i as int, (es[i as int].0, ev))[m] by {
                assert(self.entries.deep_view()[m] == (nv[m].0@, nv[m].1@));
                if m != i {
                    assert(es[m] == (old(self).entries@[m].0@, old(self).entries@[m].1@));
                }
            }
            assert(self.entries.deep_view() =~= es.update(i as int, (es[i as int].0, ev)));
            lemma_map_of_update(es, i as int, ev);
        }
    }
}

/// A field-for-field copy of an optional owner or group name.
fn clone_opt(o: &Option<String>) -> (r: Option<String>)
    ensures
        opt_view(&r) == opt_view(o),
{
    match o {
        Some(s) => Some(s.clone()),
        None => None,
    }
}

} // verus!
