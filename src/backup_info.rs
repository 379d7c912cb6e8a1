//! The snapshot tree: datastore, group (type and id), and snapshot (time).
//!
//! Paths are kept as strings: `<store>/<type>/<id>/<time stamp>`.

use vstd::prelude::*;
use vstd::multiset::Multiset;
use vstd::string::*;

use crate::time::{digit_value, epoch_in_range, epoch_to_rfc3339_utc, is_digit, num_at, parse_rfc3339, parse_rfc3339_spec, rfc3339_of, TimeError};

use core::cmp::Ordering;

verus! {

/// The kind of machine a group backs up.
#[derive(Clone, Copy, Debug, PartialEq, Eq, Structural)]
pub enum BackupType {
    /// A virtual machine.
    Vm,
    /// A container.
    Ct,
    /// A host.
    Host,
}

pub open spec fn backup_type_name(t: BackupType) -> Seq<char> {
    match t {
        BackupType::Vm => seq!['v', 'm'],
        BackupType::Ct => seq!['c', 't'],
        BackupType::Host => seq!['h', 'o', 's', 't'],
    }
}

/// The name of the snapshot manifest inside a snapshot directory.
pub open spec fn manifest_blob_name() -> Seq<char> {
    seq!['i', 'n', 'd', 'e', 'x', '.', 'j', 's', 'o', 'n', '.', 'b', 'l', 'o', 'b']
}

/// The name of the protection marker inside a snapshot directory.
pub open spec fn protected_marker_name() -> Seq<char> {
    seq!['.', 'p', 'r', 'o', 't', 'e', 'c', 't', 'e', 'd']
}

/// Directory that holds the manifest locks of all datastores.
pub open spec fn lock_base_dir() -> Seq<char> {
    "/run/proxmox-backup/locks"@
}

/// Suffix of a manifest lock file name.
pub open spec fn manifest_lock_suffix() -> Seq<char> {
    ".index.json.lck"@
}

/// `base/rel`.
pub open spec fn join_path(base: Seq<char>, rel: Seq<char>) -> Seq<char> {
    base + seq!['/'] + rel
}

/// `type/id`.
pub open spec fn group_rel_path(ty: BackupType, id: Seq<char>) -> Seq<char> {
    join_path(backup_type_name(ty), id)
}

impl BackupType {
    /// The type with this directory name.
    pub fn from_name(s: &str) -> (r: Option<BackupType>)
        ensures
            r is Some <==> s@ == backup_type_name(BackupType::Vm) || s@ == backup_type_name(
                BackupType::Ct,
            ) || s@ == backup_type_name(BackupType::Host),
            r is Some ==> backup_type_name(r->Some_0) == s@,
    {
        let name = String::from_str(s);
        let vm = String::from_str("vm");
        let ct = String::from_str("ct");
        let host = String::from_str("host");
        proof {
            reveal_strlit("vm");
            reveal_strlit("ct");
            reveal_strlit("host");
            assert(vm@ =~= backup_type_name(BackupType::Vm));
            assert(ct@ =~= backup_type_name(BackupType::Ct));
            assert(host@ =~= backup_type_name(BackupType::Host));
        }
        if name == vm {
            Some(BackupType::Vm)
        } else if name == ct {
            Some(BackupType::Ct)
        } else if name == host {
            Some(BackupType::Host)
        } else {
            None
        }
    }

    /// The directory name of the type.
    pub fn as_str(&self) -> (r: &'static str)
        ensures
            r@ == backup_type_name(*self),
    {
        match self {
            BackupType::Vm => {
                proof { reveal_strlit("vm"); }
                "vm"
            },
            BackupType::Ct => {
                proof { reveal_strlit("ct"); }
                "ct"
            },
            BackupType::Host => {
                proof { reveal_strlit("host"); }
                "host"
            },
        }
    }
}

fn join(base: &String, rel: &str) -> (r: String)
    ensures
        r@ == join_path(base@, rel@),
{
    let mut r = base.clone();
    proof { reveal_strlit("/"); }
    r.append("/");
    r.append(rel);
    r
}

/// Identity of a group: its type and id.
#[derive(Clone, Debug)]
pub struct GroupId {
    pub ty: BackupType,
    pub id: String,
}

impl GroupId {
    pub fn new(ty: BackupType, id: String) -> (r: Self)
        ensures
            r.ty == ty,
            r.id@ == id@,
    {
        GroupId { ty, id }
    }

    /// A copy of this identity.
    pub fn duplicate(&self) -> (r: Self)
        ensures
            r.ty == self.ty,
            r.id@ == self.id@,
    {
        GroupId { ty: self.ty, id: self.id.clone() }
    }

    /// `type/id`.
    pub fn to_path(&self) -> (r: String)
        ensures
            r@ == group_rel_path(self.ty, self.id@),
    {
        let mut r = String::from_str(self.ty.as_str());
        proof { reveal_strlit("/"); }
        r.append("/");
        r.append(self.id.as_str());
        r
    }
}

/// Selects groups, by identity or by type.
#[derive(Clone, Debug)]
pub enum GroupFilter {
    /// Exactly this group.
    Group(GroupId),
    /// All groups of this type.
    BackupType(BackupType),
}

/// A group of snapshots within a datastore.
#[derive(Clone, Debug)]
pub struct BackupGroup {
    store_path: String,
    group: GroupId,
}

impl BackupGroup {
    /// Base directory of the datastore.
    pub closed spec fn store_path(&self) -> Seq<char> {
        self.store_path@
    }

    pub closed spec fn ty(&self) -> BackupType {
        self.group.ty
    }

    pub closed spec fn id(&self) -> Seq<char> {
        self.group.id@
    }

    /// The group `ty`/`id` of the datastore at `store_path`.
    pub fn new(store_path: String, ty: BackupType, id: String) -> (r: Self)
        ensures
            r.store_path() == store_path@,
            r.ty() == ty,
            r.id() == id@,
    {
        BackupGroup { store_path, group: GroupId { ty, id } }
    }

    /// A copy of this group.
    pub fn duplicate(&self) -> (r: Self)
        ensures
            r.store_path() == self.store_path(),
            r.ty() == self.ty(),
            r.id() == self.id(),
    {
        BackupGroup { store_path: self.store_path.clone(), group: self.group.duplicate() }
    }

    /// The group's identity.
    pub fn group(&self) -> (r: &GroupId)
        ensures
            r.ty == self.ty(),
            r.id@ == self.id(),
    {
        &self.group
    }

    pub fn backup_type(&self) -> (r: BackupType)
        ensures
            r == self.ty(),
    {
        self.group.ty
    }

    pub fn backup_id(&self) -> (r: &str)
        ensures
            r@ == self.id(),
    {
        self.group.id.as_str()
    }

    /// `<store>/<type>/<id>`.
    pub fn full_group_path(&self) -> (r: String)
        ensures
            r@ == join_path(self.store_path(), group_rel_path(self.ty(), self.id())),
    {
        let rel = self.group.to_path();
        join(&self.store_path, rel.as_str())
    }

    /// `<type>/<id>`.
    pub fn relative_group_path(&self) -> (r: String)
        ensures
            r@ == group_rel_path(self.ty(), self.id()),
    {
        self.group.to_path()
    }

    /// Whether the group is selected by `filter`.
    pub fn matches(&self, filter: &GroupFilter) -> (r: bool)
        ensures
            r == match filter {
                GroupFilter::Group(g) => g.ty == self.ty() && g.id@ == self.id(),
                GroupFilter::BackupType(t) => *t == self.ty(),
            },
    {
        match filter {
            GroupFilter::Group(g) => g.ty == self.group.ty && g.id == self.group.id,
            GroupFilter::BackupType(t) => *t == self.group.ty,
        }
    }

    /// The snapshot of this group taken at `time` (epoch seconds).
    pub fn backup_dir(&self, time: i64) -> (r: Result<BackupDir, TimeError>)
        ensures
            r is Ok <==> epoch_in_range(time as int),
            r is Ok ==> r->Ok_0.group().ty() == self.ty() && r->Ok_0.group().id() == self.id()
                && r->Ok_0.group().store_path() == self.store_path() && r->Ok_0.time() == time
                && r->Ok_0.time_string() == rfc3339_of(time as int),
            r is Err ==> r == Err::<BackupDir, TimeError>(TimeError::OutOfRange),
    {
        BackupDir::with_group(self.duplicate(), time)
    }

    /// The snapshot of this group named by an RFC 3339 time stamp.
    pub fn backup_dir_with_rfc3339(&self, time_string: String) -> (r: Result<BackupDir, TimeError>)
        ensures
            r is Ok <==> parse_rfc3339_spec(time_string@) is Some,
            r is Ok ==> r->Ok_0.group().ty() == self.ty() && r->Ok_0.group().id() == self.id()
                && r->Ok_0.group().store_path() == self.store_path() && r->Ok_0.time() as int
                == parse_rfc3339_spec(time_string@)->Some_0 && r->Ok_0.time_string()
                == time_string@,
            r is Err ==> r == Err::<BackupDir, TimeError>(TimeError::Malformed),
    {
        BackupDir::with_rfc3339(self.duplicate(), time_string)
    }
}

/// One snapshot: a group and a point in time.
#[derive(Debug)]
pub struct BackupDir {
    group: BackupGroup,
    time: i64,
    time_string: String,
}

impl BackupDir {
    /// Snapshots are not older than the epoch.
    #[verifier::type_invariant]
    spec fn time_not_before_epoch(&self) -> bool {
        self.time >= 0
    }

    pub closed spec fn group(&self) -> BackupGroup {
        self.group
    }

    pub closed spec fn time(&self) -> i64 {
        self.time
    }

    pub closed spec fn time_string(&self) -> Seq<char> {
        self.time_string@
    }

    /// `<type>/<id>/<time stamp>`.
    pub open spec fn rel_path(&self) -> Seq<char> {
        join_path(group_rel_path(self.group().ty(), self.group().id()), self.time_string())
    }

    /// The snapshot of `group` taken at `time` (epoch seconds).
    pub fn with_group(group: BackupGroup, time: i64) -> (r: Result<Self, TimeError>)
        ensures
            r is Ok <==> epoch_in_range(time as int),
            r is Ok ==> r->Ok_0.group() == group && r->Ok_0.time() == time
                && r->Ok_0.time_string() == rfc3339_of(time as int),
            r is Err ==> r == Err::<Self, TimeError>(TimeError::OutOfRange),
    {
        let time_string = epoch_to_rfc3339_utc(time)?;
        Ok(BackupDir { group, time, time_string })
    }

    /// The RFC 3339 time stamp of an instant.
    pub fn backup_time_to_string(backup_time: i64) -> (r: Result<String, TimeError>)
        ensures
            r is Ok <==> epoch_in_range(backup_time as int),
            r is Ok ==> r->Ok_0@ == rfc3339_of(backup_time as int),
            r is Err ==> r == Err::<String, TimeError>(TimeError::OutOfRange),
    {
        epoch_to_rfc3339_utc(backup_time)
    }

    /// The snapshot of `group` named by an RFC 3339 time stamp.
    pub fn with_rfc3339(group: BackupGroup, time_string: String) -> (r: Result<Self, TimeError>)
        ensures
            r is Ok <==> parse_rfc3339_spec(time_string@) is Some,
            r is Ok ==> r->Ok_0.group() == group && r->Ok_0.time() as int == parse_rfc3339_spec(
                time_string@,
            )->Some_0 && r->Ok_0.time_string() == time_string@,
            r is Err ==> r == Err::<Self, TimeError>(TimeError::Malformed),
    {
        let time = parse_rfc3339(time_string.as_str())?;
        Ok(BackupDir { group, time, time_string })
    }

    pub fn backup_type(&self) -> (r: BackupType)
        ensures
            r == self.group().ty(),
    {
        self.group.group.ty
    }

    pub fn backup_id(&self) -> (r: &str)
        ensures
            r@ == self.group().id(),
    {
        self.group.group.id.as_str()
    }

    /// The snapshot time in epoch seconds.
    pub fn backup_time(&self) -> (r: i64)
        ensures
            r == self.time(),
            r >= 0,
    {
        proof {
            use_type_invariant(self);
        }
        self.time
    }

    /// The snapshot time as RFC 3339 time stamp.
    pub fn backup_time_string(&self) -> (r: &str)
        ensures
            r@ == self.time_string(),
    {
        self.time_string.as_str()
    }

    /// A copy of this snapshot.
    pub fn duplicate(&self) -> (r: Self)
        ensures
            r.group().store_path() == self.group().store_path(),
            r.group().ty() == self.group().ty(),
            r.group().id() == self.group().id(),
            r.time() == self.time(),
            r.time_string() == self.time_string(),
    {
        proof {
            use_type_invariant(self);
        }
        BackupDir { group: self.group.duplicate(), time: self.time, time_string: self.time_string.clone() }
    }

    /// The group this snapshot belongs to.
    pub fn backup_group(&self) -> (r: &BackupGroup)
        ensures
            *r == self.group(),
    {
        &self.group
    }

    /// `<type>/<id>/<time stamp>`.
    pub fn relative_path(&self) -> (r: String)
        ensures
            r@ == self.rel_path(),
    {
        let rel = self.group.group.to_path();
        join(&rel, self.time_string.as_str())
    }

    /// `<store>/<type>/<id>/<time stamp>`.
    pub fn full_path(&self) -> (r: String)
        ensures
            r@ == join_path(self.group().store_path(), self.rel_path()),
    {
        let rel = self.relative_path();
        join(&self.group.store_path, rel.as_str())
    }

    /// Directory of the manifest lock: `/run/proxmox-backup/locks/<datastore>/<type>/<id>`.
    pub fn manifest_lock_dir(&self, store_name: &str) -> (r: String)
        ensures
            r@ == join_path(
                join_path(lock_base_dir(), store_name@),
                group_rel_path(self.group().ty(), self.group().id()),
            ),
    {
        proof {
            reveal_strlit("/run/proxmox-backup/locks");
        }
        let base = String::from_str("/run/proxmox-backup/locks");
        let store = join(&base, store_name);
        let rel = self.group.group.to_path();
        join(&store, rel.as_str())
    }

    /// The manifest lock file: `<lock dir>/<time stamp>.index.json.lck`.
    pub fn manifest_lock_path(&self, store_name: &str) -> (r: String)
        ensures
            r@ == join_path(
                join_path(
                    join_path(lock_base_dir(), store_name@),
                    group_rel_path(self.group().ty(), self.group().id()),
                ),
                self.time_string() + manifest_lock_suffix(),
            ),
    {
        let dir = self.manifest_lock_dir(store_name);
        let mut name = self.time_string.clone();
        proof {
            reveal_strlit(".index.json.lck");
        }
        name.append(".index.json.lck");
        join(&dir, name.as_str())
    }

    /// `<store>/<type>/<id>/<time stamp>/.protected`: the protection marker.
    pub fn protected_file(&self) -> (r: String)
        ensures
            r@ == join_path(
                join_path(self.group().store_path(), self.rel_path()),
                protected_marker_name(),
            ),
    {
        let path = self.full_path();
        proof { reveal_strlit(".protected"); }
        join(&path, ".protected")
    }
}

/// A snapshot with the data files found in its directory.
#[derive(Debug)]
pub struct BackupInfo {
    /// The snapshot.
    pub backup_dir: BackupDir,
    /// Names of its data files.
    pub files: Vec<String>,
    /// Whether the protection marker is present.
    pub protected: bool,
}

/// Whether a list of file names holds the manifest.
pub open spec fn holds_manifest(files: Seq<String>) -> bool {
    exists|i: int| 0 <= i < files.len() && (#[trigger] files[i])@ == manifest_blob_name()
}

impl BackupInfo {
    /// A snapshot is finished iff its manifest is present.
    pub open spec fn finished(&self) -> bool {
        holds_manifest(self.files@)
    }

    pub fn is_finished(&self) -> (r: bool)
        ensures
            r == self.finished(),
    {
        proof { reveal_strlit("index.json.blob"); }
        let name = String::from_str("index.json.blob");
        let mut i: usize = 0;
        while i < self.files.len()
            invariant
                i <= self.files@.len(),
                name@ == manifest_blob_name(),
                forall|j: int| 0 <= j < i ==> (#[trigger] self.files@[j])@ != manifest_blob_name(),
            decreases self.files@.len() - i,
        {
            if self.files[i] == name {
                return true;
            }
            i = i + 1;
        }
        false
    }
}

/// Whether `s` is ordered by snapshot time, oldest first if `ascending`, else newest first.
pub open spec fn sorted_by_time(s: Seq<BackupInfo>, ascending: bool) -> bool {
    forall|i: int, j: int|
        0 <= i < j < s.len() ==> if ascending {
            s[i].backup_dir.time() <= s[j].backup_dir.time()
        } else {
            s[i].backup_dir.time() >= s[j].backup_dir.time()
        }
}

/// Whether a snapshot counts when only finished ones are asked for.
pub open spec fn counts(b: BackupInfo, only_finished: bool) -> bool {
    !only_finished || b.finished()
}

fn in_order(a: i64, b: i64, ascending: bool) -> (r: bool)
    ensures
        r == if ascending {
            a <= b
        } else {
            a >= b
        },
{
    if ascending {
        a <= b
    } else {
        a >= b
    }
}

impl BackupInfo {
    /// Sorts snapshots by time: oldest first if `ascending`, else newest first.
    pub fn sort_list(list: &mut Vec<BackupInfo>, ascending: bool)
        ensures
            final(list)@.to_multiset() == old(list)@.to_multiset(),
            sorted_by_time(final(list)@, ascending),
    {
        broadcast use vstd::seq_lib::group_to_multiset_ensures;

        let mut result: Vec<BackupInfo> = Vec::new();
        let ghost orig = list@;
        proof {
            assert(result@.to_multiset() =~= Multiset::empty());
            assert(result@.to_multiset().add(list@.to_multiset()) =~= orig.to_multiset());
        }
        while list.len() > 0
            invariant
                result@.to_multiset().add(list@.to_multiset()) == orig.to_multiset(),
                sorted_by_time(result@, ascending),
            decreases list@.len(),
        {
            let ghost before = list@;
            let x = list.pop().unwrap();
            proof {
                assert(before =~= list@.push(x));
                vstd::seq_lib::to_multiset_build(list@, x);
            }
            let t = x.backup_dir.time;
            let mut p: usize = 0;
            while p < result.len() && in_order(result[p].backup_dir.time, t, ascending)
                invariant
                    p <= result@.len(),
                    forall|k: int|
                        0 <= k < p ==> if ascending {
                            (#[trigger] result@[k]).backup_dir.time() <= t
                        } else {
                            (#[trigger] result@[k]).backup_dir.time() >= t
                        },
                decreases result@.len() - p,
            {
                p = p + 1;
            }
            let ghost prev = result@;
            result.insert(p, x);
            proof {
                assert(result@ == prev.insert(p as int, x));
                assert(result@.len() == prev.len() + 1);
                vstd::seq_lib::to_multiset_insert(prev, p as int, x);
                assert(result@.to_multiset().add(list@.to_multiset()) =~= orig.to_multiset());
                assert forall|i: int, j: int| 0 <= i < j < result@.len() implies if ascending {
                    result@[i].backup_dir.time() <= result@[j].backup_dir.time()
                } else {
                    result@[i].backup_dir.time() >= result@[j].backup_dir.time()
                } by {
                    if j < p {
                        assert(result@[i] == prev[i]);
                        assert(result@[j] == prev[j]);
                    } else if j == p {
                        assert(result@[i] == prev[i]);
                    } else {
                        assert(result@[j] == prev[j - 1]);
                        if i < p {
                            assert(result@[i] == prev[i]);
                        } else if i == p {
                        } else {
                            assert(result@[i] == prev[i - 1]);
                        }
                    }
                }
            }
        }
        proof {
            assert(list@.to_multiset() =~= Multiset::empty());
            assert(result@.to_multiset().add(Multiset::empty()) =~= result@.to_multiset());
        }
        *list = result;
    }
}

/// Whether `s[i]` is the newest counted snapshot among the first `n`,
/// and the last listed of equally new ones.
pub open spec fn newest_in(s: Seq<BackupInfo>, n: int, i: int, only_finished: bool) -> bool {
    &&& 0 <= i < n <= s.len()
    &&& counts(s[i], only_finished)
    &&& forall|j: int|
        0 <= j < n && counts(#[trigger] s[j], only_finished) ==> s[j].backup_dir.time()
            <= s[i].backup_dir.time()
    &&& forall|j: int|
        i < j < n && counts(#[trigger] s[j], only_finished) ==> s[j].backup_dir.time()
            < s[i].backup_dir.time()
}

impl BackupGroup {
    /// The newest of the listed snapshots (only among finished ones if
    /// `only_finished`); of several equally new ones, the last listed.
    pub fn last_backup(&self, backups: Vec<BackupInfo>, only_finished: bool) -> (r: Option<BackupInfo>)
        ensures
            r is None <==> forall|i: int| 0 <= i < backups@.len() ==> !counts(#[trigger] backups@[i], only_finished),
            r is Some ==> exists|i: int|
                #[trigger] newest_in(backups@, backups@.len() as int, i, only_finished) && r->Some_0 == backups@[i],
    {
        let mut backups = backups;
        let ghost orig = backups@;
        let mut best: Option<usize> = None;
        let mut i: usize = 0;
        while i < backups.len()
            invariant
                backups@ == orig,
                i <= orig.len(),
                best is None <==> forall|k: int| 0 <= k < i ==> !counts(#[trigger] orig[k], only_finished),
                best is Some ==> newest_in(orig, i as int, best->Some_0 as int, only_finished),
            decreases orig.len() - i,
        {
            if !only_finished || backups[i].is_finished() {
                match best {
                    None => {
                        best = Some(i);
                    },
                    Some(b) => {
                        if backups[i].backup_dir.time >= backups[b].backup_dir.time {
                            best = Some(i);
                        }
                    },
                }
            }
            i = i + 1;
        }
        match best {
            None => None,
            Some(b) => {
                let r = backups.remove(b);
                assert(newest_in(orig, orig.len() as int, b as int, only_finished));
                Some(r)
            },
        }
    }

    /// Time of the newest finished snapshot among those listed.
    pub fn last_successful_backup(&self, backups: &Vec<BackupInfo>) -> (r: Option<i64>)
        ensures
            r is None <==> forall|i: int| 0 <= i < backups@.len() ==> !(#[trigger] backups@[i]).finished(),
            r is Some ==> (exists|i: int|
                0 <= i < backups@.len() && (#[trigger] backups@[i]).finished()
                    && backups@[i].backup_dir.time() == r->Some_0) && (forall|i: int|
                0 <= i < backups@.len() && (#[trigger] backups@[i]).finished()
                    ==> backups@[i].backup_dir.time() <= r->Some_0),
    {
        let mut last: Option<i64> = None;
        let mut i: usize = 0;
        while i < backups.len()
            invariant
                i <= backups@.len(),
                last is None <==> forall|k: int| 0 <= k < i ==> !(#[trigger] backups@[k]).finished(),
                last is Some ==> (exists|k: int|
                    0 <= k < i && (#[trigger] backups@[k]).finished()
                        && backups@[k].backup_dir.time() == last->Some_0) && (forall|k: int|
                    0 <= k < i && (#[trigger] backups@[k]).finished()
                        ==> backups@[k].backup_dir.time() <= last->Some_0),
            decreases backups@.len() - i,
        {
            if backups[i].is_finished() {
                let t = backups[i].backup_dir.time;
                match last {
                    None => {
                        last = Some(t);
                    },
                    Some(l) => {
                        if t > l {
                            last = Some(t);
                        }
                    },
                }
            }
            i = i + 1;
        }
        last
    }
}

impl BackupGroup {
    /// Which listed snapshots removing the group deletes: the positions of
    /// the unprotected ones, in order; and whether that is all of them (only
    /// then does the group directory go too).
    pub fn destroy_selection(&self, snapshots: &Vec<BackupInfo>) -> (r: (Vec<usize>, bool))
        ensures
            forall|k: int| 0 <= k < r.0@.len() ==> (#[trigger] r.0@[k]) < snapshots@.len() && !snapshots@[r.0@[k] as int].protected,
            forall|k: int, l: int| 0 <= k < l < r.0@.len() ==> r.0@[k] < r.0@[l],
            forall|i: int| 0 <= i < snapshots@.len() && !(#[trigger] snapshots@[i]).protected ==> r.0@.contains(i as usize),
            r.1 == forall|i: int| 0 <= i < snapshots@.len() ==> !(#[trigger] snapshots@[i]).protected,
    {
        let mut sel: Vec<usize> = Vec::new();
        let mut all = true;
        let mut i: usize = 0;
        while i < snapshots.len()
            invariant
                i <= snapshots@.len(),
                forall|k: int| 0 <= k < sel@.len() ==> (#[trigger] sel@[k]) < i && !snapshots@[sel@[k] as int].protected,
                forall|k: int, l: int| 0 <= k < l < sel@.len() ==> sel@[k] < sel@[l],
                forall|j: int| 0 <= j < i && !(#[trigger] snapshots@[j]).protected ==> sel@.contains(j as usize),
                all == forall|j: int| 0 <= j < i ==> !(#[trigger] snapshots@[j]).protected,
            decreases snapshots@.len() - i,
        {
            if snapshots[i].protected {
                all = false;
            } else {
                let ghost before = sel@;
                sel.push(i);
                proof {
                    assert forall|j: int| 0 <= j < i + 1 && !(#[trigger] snapshots@[j]).protected implies sel@.contains(j as usize) by {
                        if j < i {
                            let k = choose|k: int| 0 <= k < before.len() && before[k] == j as usize;
                            assert(sel@[k] == j as usize);
                        } else {
                            assert(sel@[before.len() as int] == i);
                        }
                    }
                }
            }
            i = i + 1;
        }
        (sel, all)
    }
}

/// Whether `name` ends with `suffix`.
pub open spec fn has_suffix(name: Seq<char>, suffix: Seq<char>) -> bool {
    name.len() >= suffix.len() && name.subrange(name.len() - suffix.len(), name.len() as int)
        == suffix
}

/// Data files of a snapshot: fixed and dynamic indexes, and blobs.
pub open spec fn backup_file_name(name: Seq<char>) -> bool {
    has_suffix(name, seq!['.', 'f', 'i', 'd', 'x']) || has_suffix(name, seq!['.', 'd', 'i', 'd', 'x'])
        || has_suffix(name, seq!['.', 'b', 'l', 'o', 'b'])
}

fn ends_with_str(name: &str, suffix: &str) -> (r: bool)
    ensures
        r == has_suffix(name@, suffix@),
{
    let n = name.unicode_len();
    let m = suffix.unicode_len();
    if n < m {
        return false;
    }
    let mut i: usize = 0;
    while i < m
        invariant
            i <= m == suffix@.len(),
            n == name@.len(),
            n >= m,
            forall|k: int| 0 <= k < i ==> name@[n - m + k] == suffix@[k],
        decreases m - i,
    {
        if name.get_char(n - m + i) != suffix.get_char(i) {
            assert(name@.subrange(n - m, n as int)[i as int] != suffix@[i as int]);
            return false;
        }
        i = i + 1;
    }
    assert(name@.subrange(n - m, n as int) =~= suffix@);
    true
}

/// Whether a directory entry is a data file of a snapshot.
pub fn is_backup_file_name(name: &str) -> (r: bool)
    ensures
        r == backup_file_name(name@),
{
    proof {
        reveal_strlit(".fidx");
        reveal_strlit(".didx");
        reveal_strlit(".blob");
        assert(".fidx"@ =~= seq!['.', 'f', 'i', 'd', 'x']);
        assert(".didx"@ =~= seq!['.', 'd', 'i', 'd', 'x']);
        assert(".blob"@ =~= seq!['.', 'b', 'l', 'o', 'b']);
    }
    ends_with_str(name, ".fidx") || ends_with_str(name, ".didx") || ends_with_str(name, ".blob")
}

/// Rank of a type in the order of groups: vm, ct, host.
pub open spec fn type_rank(t: BackupType) -> int {
    match t {
        BackupType::Vm => 0,
        BackupType::Ct => 1,
        BackupType::Host => 2,
    }
}

pub open spec fn int_cmp(a: int, b: int) -> Ordering {
    if a < b {
        Ordering::Less
    } else if a > b {
        Ordering::Greater
    } else {
        Ordering::Equal
    }
}

/// Whether an id is a decimal number that fits 64 bits.
pub open spec fn numeric_id(s: Seq<char>) -> bool {
    &&& s.len() > 0
    &&& forall|i: int| 0 <= i < s.len() ==> is_digit(#[trigger] s[i])
    &&& num_at(s, 0, s.len()) <= u64::MAX
}

/// Character-wise order of two texts; a proper prefix comes first.
pub open spec fn lex_cmp(a: Seq<char>, b: Seq<char>) -> Ordering
    decreases a.len(),
{
    if a.len() == 0 {
        if b.len() == 0 {
            Ordering::Equal
        } else {
            Ordering::Less
        }
    } else if b.len() == 0 {
        Ordering::Greater
    } else if (a[0] as u32) < (b[0] as u32) {
        Ordering::Less
    } else if (a[0] as u32) > (b[0] as u32) {
        Ordering::Greater
    } else {
        lex_cmp(a.drop_first(), b.drop_first())
    }
}

/// Order of group ids: numeric ids by value and before all others, which
/// follow in character order.
pub open spec fn id_cmp(a: Seq<char>, b: Seq<char>) -> Ordering {
    if numeric_id(a) && numeric_id(b) {
        int_cmp(num_at(a, 0, a.len()), num_at(b, 0, b.len()))
    } else if numeric_id(a) {
        Ordering::Less
    } else if numeric_id(b) {
        Ordering::Greater
    } else {
        lex_cmp(a, b)
    }
}

/// Order of groups: by type, then by id.
pub open spec fn group_cmp(a: GroupId, b: GroupId) -> Ordering {
    if type_rank(a.ty) != type_rank(b.ty) {
        int_cmp(type_rank(a.ty), type_rank(b.ty))
    } else {
        id_cmp(a.id@, b.id@)
    }
}

fn parse_numeric_id(s: &str) -> (r: Option<u64>)
    ensures
        r is Some <==> numeric_id(s@),
        r is Some ==> r->Some_0 as int == num_at(s@, 0, s@.len()),
{
    let n = s.unicode_len();
    if n == 0 {
        return None;
    }
    let mut acc: u64 = 0;
    let mut i: usize = 0;
    while i < n
        invariant
            i <= n == s@.len(),
            acc as int == num_at(s@, 0, i as nat),
            forall|k: int| 0 <= k < i ==> is_digit(#[trigger] s@[k]),
        decreases n - i,
    {
        let c = s.get_char(i);
        if !('0' <= c && c <= '9') {
            return None;
        }
        let d = (c as u32 - 48) as u64;
        acc = match acc.checked_mul(10) {
            Some(v) => match v.checked_add(d) {
                Some(w) => w,
                None => {
                    proof {
                        if forall|k: int| 0 <= k < n ==> is_digit(#[trigger] s@[k]) {
                            lemma_num_at_grows(s@, (i + 1) as nat, n as nat);
                        }
                    }
                    return None;
                },
            },
            None => {
                proof {
                    if forall|k: int| 0 <= k < n ==> is_digit(#[trigger] s@[k]) {
                        lemma_num_at_grows(s@, (i + 1) as nat, n as nat);
                    }
                }
                return None;
            },
        };
        i = i + 1;
    }
    Some(acc)
}

proof fn lemma_num_at_grows(s: Seq<char>, i: nat, n: nat)
    requires
        i <= n <= s.len(),
        forall|k: int| 0 <= k < n ==> is_digit(#[trigger] s[k]),
    ensures
        num_at(s, 0, n) >= num_at(s, 0, i),
    decreases n - i,
{
    if i < n {
        lemma_num_at_grows(s, i + 1, n);
        assert(num_at(s, 0, i) >= 0) by {
            lemma_num_at_nonneg(s, i);
        }
        assert(digit_value(s[i as int]) >= 0);
    }
}

proof fn lemma_num_at_nonneg(s: Seq<char>, i: nat)
    requires
        i <= s.len(),
        forall|k: int| 0 <= k < i ==> is_digit(#[trigger] s[k]),
    ensures
        num_at(s, 0, i) >= 0,
    decreases i,
{
    if i > 0 {
        lemma_num_at_nonneg(s, (i - 1) as nat);
        assert(digit_value(s[i - 1]) >= 0);
    }
}

fn lex_compare(a: &str, b: &str) -> (r: Ordering)
    ensures
        r == lex_cmp(a@, b@),
{
    let n = a.unicode_len();
    let m = b.unicode_len();
    let mut i: usize = 0;
    assert(a@.subrange(0, n as int) =~= a@);
    assert(b@.subrange(0, m as int) =~= b@);
    while i < n && i < m
        invariant
            i <= n == a@.len(),
            i <= m == b@.len(),
            lex_cmp(a@, b@) == lex_cmp(a@.subrange(i as int, n as int), b@.subrange(i as int, m as int)),
        decreases n - i,
    {
        let x = a.get_char(i);
        let y = b.get_char(i);
        let ghost sa = a@.subrange(i as int, n as int);
        let ghost sb = b@.subrange(i as int, m as int);
        if (x as u32) < (y as u32) {
            assert(sa[0] == x && sb[0] == y);
            return Ordering::Less;
        }
        if (x as u32) > (y as u32) {
            assert(sa[0] == x && sb[0] == y);
            return Ordering::Greater;
        }
        assert(sa[0] == x && sb[0] == y);
        assert(sa.drop_first() =~= a@.subrange(i + 1, n as int));
        assert(sb.drop_first() =~= b@.subrange(i + 1, m as int));
        i = i + 1;
    }
    let ghost sa = a@.subrange(i as int, n as int);
    let ghost sb = b@.subrange(i as int, m as int);
    if i < n {
        assert(sb.len() == 0);
        Ordering::Greater
    } else if i < m {
        assert(sa.len() == 0);
        Ordering::Less
    } else {
        assert(sa.len() == 0 && sb.len() == 0);
        Ordering::Equal
    }
}

fn type_rank_exec(t: BackupType) -> (r: u8)
    ensures
        r as int == type_rank(t),
{
    match t {
        BackupType::Vm => 0,
        BackupType::Ct => 1,
        BackupType::Host => 2,
    }
}

impl GroupId {
    /// Where this group sorts relative to `other`: by type (vm, ct, host),
    /// then numeric ids by value before all other ids, which follow in
    /// character order.
    pub fn compare(&self, other: &GroupId) -> (r: Ordering)
        ensures
            r == group_cmp(*self, *other),
    {
        let ra = type_rank_exec(self.ty);
        let rb = type_rank_exec(other.ty);
        if ra < rb {
            return Ordering::Less;
        }
        if ra > rb {
            return Ordering::Greater;
        }
        match (parse_numeric_id(self.id.as_str()), parse_numeric_id(other.id.as_str())) {
            (Some(x), Some(y)) => {
                if x < y {
                    Ordering::Less
                } else if x > y {
                    Ordering::Greater
                } else {
                    Ordering::Equal
                }
            },
            (Some(_), None) => Ordering::Less,
            (None, Some(_)) => Ordering::Greater,
            (None, None) => lex_compare(self.id.as_str(), other.id.as_str()),
        }
    }
}

pub open spec fn id_start_char(c: char) -> bool {
    ('A' <= c && c <= 'Z') || ('a' <= c && c <= 'z') || ('0' <= c && c <= '9') || c == '_'
}

pub open spec fn id_char(c: char) -> bool {
    id_start_char(c) || c == '.' || c == '-'
}

/// Whether `s` is a safe group id: `[A-Za-z0-9_][A-Za-z0-9._-]*`.
pub open spec fn safe_id(s: Seq<char>) -> bool {
    s.len() > 0 && id_start_char(s[0]) && forall|i: int| 0 < i < s.len() ==> id_char(#[trigger] s[i])
}

/// Whether a directory name is a safe group id.
pub fn is_safe_id(s: &str) -> (r: bool)
    ensures
        r == safe_id(s@),
{
    let n = s.unicode_len();
    if n == 0 {
        return false;
    }
    let c = s.get_char(0);
    if !(('A' <= c && c <= 'Z') || ('a' <= c && c <= 'z') || ('0' <= c && c <= '9') || c == '_') {
        return false;
    }
    let mut i: usize = 1;
    while i < n
        invariant
            1 <= i <= n == s@.len(),
            forall|k: int| 0 < k < i ==> id_char(#[trigger] s@[k]),
        decreases n - i,
    {
        let c = s.get_char(i);
        if !(('A' <= c && c <= 'Z') || ('a' <= c && c <= 'z') || ('0' <= c && c <= '9') || c == '_'
            || c == '.' || c == '-') {
            return false;
        }
        i = i + 1;
    }
    true
}

} // verus!
