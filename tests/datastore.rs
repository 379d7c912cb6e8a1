use backup_core::backup_info::{BackupDir, BackupGroup, BackupInfo, BackupType, GroupFilter, GroupId};
use backup_core::chunk_store::{ChunkStore, GcError, InsertOutcome, GC_GRACE_SECONDS};
use backup_core::prune::{compute_prune_info, PruneError, PruneMark, PruneOptions};
use backup_core::rrd_journal::select_journal_entries;
use backup_core::rrd_slots::{extract_plan, slot_of, stale_slots};
use backup_core::time::{epoch_to_rfc3339_utc, parse_rfc3339, TimeError};

fn group() -> BackupGroup {
    BackupGroup::new("/store".to_string(), BackupType::Host, "foo".to_string())
}

fn info(time: &str, finished: bool, protected: bool) -> BackupInfo {
    let dir = group().backup_dir_with_rfc3339(time.to_string()).unwrap();
    let mut files = vec!["root.pxar.didx".to_string()];
    if finished {
        files.push("index.json.blob".to_string());
    }
    BackupInfo { backup_dir: dir, files, protected }
}

#[test]
fn rfc3339_formatting() {
    assert_eq!(epoch_to_rfc3339_utc(0).unwrap(), "1970-01-01T00:00:00Z");
    assert_eq!(epoch_to_rfc3339_utc(1704067200).unwrap(), "2024-01-01T00:00:00Z");
    assert_eq!(epoch_to_rfc3339_utc(951827696).unwrap(), "2000-02-29T12:34:56Z");
    assert_eq!(epoch_to_rfc3339_utc(253402300799).unwrap(), "9999-12-31T23:59:59Z");
    assert_eq!(epoch_to_rfc3339_utc(253402300800), Err(TimeError::OutOfRange));
    assert_eq!(epoch_to_rfc3339_utc(-1), Err(TimeError::OutOfRange));
}

#[test]
fn rfc3339_parsing() {
    assert_eq!(parse_rfc3339("1970-01-01T00:00:00Z"), Ok(0));
    assert_eq!(parse_rfc3339("2024-01-01T00:00:00Z"), Ok(1704067200));
    assert_eq!(parse_rfc3339("2000-02-29T12:34:56Z"), Ok(951827696));
    assert_eq!(parse_rfc3339("2001-02-29T00:00:00Z"), Err(TimeError::Malformed));
    assert_eq!(parse_rfc3339("2024-13-01T00:00:00Z"), Err(TimeError::Malformed));
    assert_eq!(parse_rfc3339("2024-01-01 00:00:00Z"), Err(TimeError::Malformed));
    assert_eq!(parse_rfc3339("1969-12-31T23:59:59Z"), Err(TimeError::Malformed));
    assert_eq!(parse_rfc3339("2024-01-01T24:00:00Z"), Err(TimeError::Malformed));
    assert_eq!(parse_rfc3339("2024-01-01T00:00:00"), Err(TimeError::Malformed));
}

#[test]
fn rfc3339_round_trip_values() {
    for t in [0i64, 59, 86399, 86400, 1_000_000_000, 1_700_000_123, 4_102_444_800] {
        let s = epoch_to_rfc3339_utc(t).unwrap();
        assert_eq!(parse_rfc3339(&s), Ok(t));
    }
}

#[test]
fn group_and_snapshot_paths() {
    let g = group();
    assert_eq!(g.backup_type(), BackupType::Host);
    assert_eq!(g.backup_id(), "foo");
    assert_eq!(g.relative_group_path(), "host/foo");
    assert_eq!(g.full_group_path(), "/store/host/foo");
    let dir = g.backup_dir(1704067200).unwrap();
    assert_eq!(dir.backup_time(), 1704067200);
    assert_eq!(dir.backup_time_string(), "2024-01-01T00:00:00Z");
    assert_eq!(dir.backup_type(), BackupType::Host);
    assert_eq!(dir.backup_id(), "foo");
    assert_eq!(dir.relative_path(), "host/foo/2024-01-01T00:00:00Z");
    assert_eq!(dir.full_path(), "/store/host/foo/2024-01-01T00:00:00Z");
    assert_eq!(
        dir.protected_file(),
        "/store/host/foo/2024-01-01T00:00:00Z/.protected"
    );
    assert_eq!(
        dir.manifest_lock_dir("store1"),
        "/run/proxmox-backup/locks/store1/host/foo"
    );
    assert_eq!(
        dir.manifest_lock_path("store1"),
        "/run/proxmox-backup/locks/store1/host/foo/2024-01-01T00:00:00Z.index.json.lck"
    );
    assert_eq!(BackupType::Vm.as_str(), "vm");
    assert_eq!(BackupType::Ct.as_str(), "ct");
}

#[test]
fn snapshot_from_bad_time_stamp_is_refused() {
    assert_eq!(
        group().backup_dir_with_rfc3339("2024-01-01".to_string()).err(),
        Some(TimeError::Malformed)
    );
    assert_eq!(
        BackupDir::with_group(group(), -5).err(),
        Some(TimeError::OutOfRange)
    );
}

#[test]
fn group_filters() {
    let g = group();
    assert!(g.matches(&GroupFilter::BackupType(BackupType::Host)));
    assert!(!g.matches(&GroupFilter::BackupType(BackupType::Vm)));
    assert!(g.matches(&GroupFilter::Group(GroupId::new(BackupType::Host, "foo".to_string()))));
    assert!(!g.matches(&GroupFilter::Group(GroupId::new(BackupType::Host, "bar".to_string()))));
    assert!(!g.matches(&GroupFilter::Group(GroupId::new(BackupType::Ct, "foo".to_string()))));
}

#[test]
fn finished_needs_manifest() {
    assert!(info("2024-01-01T00:00:00Z", true, false).is_finished());
    assert!(!info("2024-01-01T00:00:00Z", false, false).is_finished());
}

#[test]
fn sort_list_orders_by_time() {
    let mut list = vec![
        info("2024-01-03T00:00:00Z", true, false),
        info("2024-01-01T00:00:00Z", true, false),
        info("2024-01-02T00:00:00Z", true, false),
    ];
    BackupInfo::sort_list(&mut list, true);
    let names: Vec<&str> = list.iter().map(|i| i.backup_dir.backup_time_string()).collect();
    assert_eq!(
        names,
        vec!["2024-01-01T00:00:00Z", "2024-01-02T00:00:00Z", "2024-01-03T00:00:00Z"]
    );
    BackupInfo::sort_list(&mut list, false);
    let names: Vec<&str> = list.iter().map(|i| i.backup_dir.backup_time_string()).collect();
    assert_eq!(
        names,
        vec!["2024-01-03T00:00:00Z", "2024-01-02T00:00:00Z", "2024-01-01T00:00:00Z"]
    );
}

#[test]
fn last_successful_is_newest_with_manifest() {
    let list = vec![
        info("2024-01-01T00:00:00Z", true, false),
        info("2024-01-03T00:00:00Z", false, false),
        info("2024-01-02T00:00:00Z", true, false),
    ];
    let g = group();
    assert_eq!(g.last_successful_backup(&list), Some(1704153600));
    assert_eq!(g.last_successful_backup(&Vec::new()), None);
    let last = g.last_backup(list, false).unwrap();
    assert_eq!(last.backup_dir.backup_time_string(), "2024-01-03T00:00:00Z");
    let list = vec![
        info("2024-01-01T00:00:00Z", true, false),
        info("2024-01-03T00:00:00Z", false, false),
        info("2024-01-02T00:00:00Z", true, false),
    ];
    let last = g.last_backup(list, true).unwrap();
    assert_eq!(last.backup_dir.backup_time_string(), "2024-01-02T00:00:00Z");
    assert!(g.last_backup(vec![info("2024-01-03T00:00:00Z", false, false)], true).is_none());
}

fn options() -> PruneOptions {
    PruneOptions {
        keep_last: None,
        keep_hourly: None,
        keep_daily: None,
        keep_weekly: None,
        keep_monthly: None,
        keep_yearly: None,
    }
}

fn marks(result: &[(BackupInfo, PruneMark)]) -> Vec<(String, PruneMark)> {
    result
        .iter()
        .map(|(i, m)| (i.backup_dir.backup_time_string().to_string(), *m))
        .collect()
}

#[test]
fn prune_by_policy() {
    let list = vec![
        info("2024-01-01T00:00:00Z", true, false),
        info("2024-01-02T00:00:00Z", true, false),
        info("2024-01-03T00:00:00Z", true, false),
        info("2024-01-10T00:00:00Z", true, false),
        info("2024-02-01T00:00:00Z", true, false),
    ];
    let mut opts = options();
    opts.keep_daily = Some(2);
    opts.keep_monthly = Some(1);
    let result = compute_prune_info(list, &opts).unwrap();
    assert_eq!(
        marks(&result),
        vec![
            ("2024-02-01T00:00:00Z".to_string(), PruneMark::Keep),
            ("2024-01-10T00:00:00Z".to_string(), PruneMark::Keep),
            ("2024-01-03T00:00:00Z".to_string(), PruneMark::Remove),
            ("2024-01-02T00:00:00Z".to_string(), PruneMark::Remove),
            ("2024-01-01T00:00:00Z".to_string(), PruneMark::Remove),
        ]
    );
}

#[test]
fn prune_keeps_protected_without_quota() {
    let list = vec![
        info("2024-01-01T00:00:00Z", true, false),
        info("2024-01-02T00:00:00Z", true, false),
        info("2024-01-03T00:00:00Z", true, true),
    ];
    let mut opts = options();
    opts.keep_last = Some(1);
    let result = compute_prune_info(list, &opts).unwrap();
    assert_eq!(
        marks(&result),
        vec![
            ("2024-01-03T00:00:00Z".to_string(), PruneMark::Protected),
            ("2024-01-02T00:00:00Z".to_string(), PruneMark::Keep),
            ("2024-01-01T00:00:00Z".to_string(), PruneMark::Remove),
        ]
    );
}

#[test]
fn prune_buckets_hourly_weekly_yearly() {
    let list = vec![
        info("2024-01-01T10:00:00Z", true, false),
        info("2024-01-01T10:30:00Z", true, false),
        info("2024-01-07T00:00:00Z", true, false),
        info("2024-01-08T00:00:00Z", true, false),
        info("2023-12-31T00:00:00Z", true, false),
    ];
    let mut opts = options();
    opts.keep_hourly = Some(2);
    let result = compute_prune_info(list, &opts).unwrap();
    let kept: Vec<String> = marks(&result)
        .into_iter()
        .filter(|(_, m)| *m == PruneMark::Keep)
        .map(|(t, _)| t)
        .collect();
    assert_eq!(kept, vec!["2024-01-08T00:00:00Z", "2024-01-07T00:00:00Z"]);

    let list = vec![
        info("2024-01-01T10:00:00Z", true, false),
        info("2024-01-07T00:00:00Z", true, false),
        info("2024-01-08T00:00:00Z", true, false),
        info("2023-12-31T00:00:00Z", true, false),
    ];
    let mut opts = options();
    opts.keep_weekly = Some(3);
    let result = compute_prune_info(list, &opts).unwrap();
    // 2024-01-07 (Sunday) shares its ISO week with 2024-01-01 (Monday)
    assert_eq!(
        marks(&result),
        vec![
            ("2024-01-08T00:00:00Z".to_string(), PruneMark::Keep),
            ("2024-01-07T00:00:00Z".to_string(), PruneMark::Keep),
            ("2024-01-01T10:00:00Z".to_string(), PruneMark::Remove),
            ("2023-12-31T00:00:00Z".to_string(), PruneMark::Keep),
        ]
    );

    let list = vec![
        info("2024-01-01T10:00:00Z", true, false),
        info("2023-06-01T00:00:00Z", true, false),
        info("2023-12-31T00:00:00Z", true, false),
    ];
    let mut opts = options();
    opts.keep_yearly = Some(5);
    let result = compute_prune_info(list, &opts).unwrap();
    assert_eq!(
        marks(&result),
        vec![
            ("2024-01-01T10:00:00Z".to_string(), PruneMark::Keep),
            ("2023-12-31T00:00:00Z".to_string(), PruneMark::Keep),
            ("2023-06-01T00:00:00Z".to_string(), PruneMark::Remove),
        ]
    );
}

#[test]
fn prune_refuses_empty_policy() {
    let list = vec![info("2024-01-01T00:00:00Z", true, false)];
    assert_eq!(
        compute_prune_info(list, &options()).err(),
        Some(PruneError::EmptyPolicy)
    );
    assert!(options().is_empty_policy());
}

#[test]
fn prune_same_input_same_marks() {
    let make = || {
        vec![
            info("2024-01-05T00:00:00Z", true, false),
            info("2024-01-01T00:00:00Z", true, false),
            info("2024-01-03T00:00:00Z", true, false),
        ]
    };
    let mut opts = options();
    opts.keep_last = Some(2);
    let a = compute_prune_info(make(), &opts).unwrap();
    let b = compute_prune_info(make(), &opts).unwrap();
    assert_eq!(marks(&a), marks(&b));
}

fn digest(n: u8) -> [u8; 32] {
    [n; 32]
}

#[test]
fn chunk_write_read_identical() {
    let mut store = ChunkStore::new();
    let d1 = digest(1);
    assert_eq!(store.insert(&d1, b"ABC".to_vec(), 100), InsertOutcome::Inserted);
    assert_eq!(store.read(&d1), Some(b"ABC".to_vec()));
    assert_eq!(store.insert(&d1, b"ABC".to_vec(), 101), InsertOutcome::AlreadyPresent);
    assert_eq!(store.insert(&d1, b"XYZ".to_vec(), 102), InsertOutcome::AlreadyPresent);
    assert_eq!(store.read(&d1), Some(b"ABC".to_vec()));
    assert_eq!(store.read(&digest(2)), None);
}

#[test]
fn gc_over_live_reference() {
    let now: i64 = 1_704_067_200;
    let mut store = ChunkStore::new();
    let (a, b, c) = (digest(0xa), digest(0xb), digest(0xc));
    store.insert(&a, b"chunk a".to_vec(), now - 3 * 86400);
    store.insert(&b, b"chunk b".to_vec(), now - 3 * 86400);
    store.insert(&c, b"chunk c".to_vec(), now - 2 * 86400);
    let status = store.garbage_collection(&vec![a, b, a], now).unwrap();
    assert!(store.contains(&a));
    assert!(store.contains(&b));
    assert!(!store.contains(&c));
    assert_eq!(status.removed_chunks, 1);
    assert_eq!(status.removed_bytes, 7);
    assert!(status.disk_chunks >= 2);
}

#[test]
fn gc_keeps_chunks_within_grace() {
    let now: i64 = 1_704_067_200;
    let mut store = ChunkStore::new();
    let (a, c) = (digest(1), digest(2));
    store.insert(&a, b"a".to_vec(), now - 3 * 86400);
    store.insert(&c, b"c".to_vec(), now - 2 * 86400);
    assert!(store.touch(&c, now - GC_GRACE_SECONDS));
    assert!(!store.touch(&digest(3), now));
    let status = store.garbage_collection(&Vec::new(), now).unwrap();
    assert!(!store.contains(&a));
    assert!(store.contains(&c));
    assert_eq!(status.pending_chunks, 1);
    assert_eq!(status.disk_chunks, 1);
}

#[test]
fn gc_dangling_reference_aborts() {
    let mut store = ChunkStore::new();
    store.insert(&digest(1), b"a".to_vec(), 0);
    assert_eq!(
        store.garbage_collection(&vec![digest(2)], 1_000_000),
        Err(GcError::DanglingReference)
    );
    assert!(store.contains(&digest(1)));
}

#[test]
fn remove_if_older_checks_atime() {
    let mut store = ChunkStore::new();
    store.insert(&digest(1), b"a".to_vec(), 50);
    assert!(!store.remove_if_older(&digest(1), 50));
    assert!(store.remove_if_older(&digest(1), 51));
    assert!(!store.remove_if_older(&digest(1), 51));
    assert!(!store.contains(&digest(1)));
}

#[test]
fn group_order_and_ids() {
    use_group_order();
}

fn gid(ty: BackupType, id: &str) -> GroupId {
    GroupId::new(ty, id.to_string())
}

fn use_group_order() {
    let mut groups = vec![
        gid(BackupType::Host, "b"),
        gid(BackupType::Vm, "abc"),
        gid(BackupType::Vm, "100"),
        gid(BackupType::Ct, "200"),
        gid(BackupType::Vm, "99"),
        gid(BackupType::Vm, "100a"),
    ];
    groups.sort_by(|a, b| a.compare(b));
    let names: Vec<String> = groups.iter().map(|g| g.to_path()).collect();
    assert_eq!(
        names,
        vec!["vm/99", "vm/100", "vm/100a", "vm/abc", "ct/200", "host/b"]
    );
    assert_eq!(
        gid(BackupType::Vm, "007").compare(&gid(BackupType::Vm, "7")),
        std::cmp::Ordering::Equal
    );
    assert!(backup_core::backup_info::is_safe_id("vm-100_a.b"));
    assert!(backup_core::backup_info::is_safe_id("_x"));
    assert!(!backup_core::backup_info::is_safe_id(".hidden"));
    assert!(!backup_core::backup_info::is_safe_id("a/b"));
    assert!(!backup_core::backup_info::is_safe_id(""));
}

#[test]
fn journal_replay_applies_newer_entries_once() {
    let times = vec![100u64, 200];
    let (applied, last) = select_journal_entries(&times, 0);
    assert_eq!(applied, vec![true, true]);
    assert_eq!(last, 200);
    let (again, last_again) = select_journal_entries(&times, last);
    assert_eq!(again, vec![false, false]);
    assert_eq!(last_again, 200);
    let (partial, last) = select_journal_entries(&vec![100u64, 150, 300], 150);
    assert_eq!(partial, vec![false, false, true]);
    assert_eq!(last, 300);
}

#[test]
fn rrd_slot_planning() {
    // hour archive: 60 s per slot
    assert_eq!(slot_of(100, 60), 1);
    assert_eq!(slot_of(200, 60), 3);
    let plan = extract_plan(300, 200, 60);
    assert_eq!(plan.len(), 70);
    // the window ends at the slot of 300 (t = 300), starting 70 slots earlier
    assert_eq!(plan[0].0, 0);
    assert_eq!(plan[69].0, 4140);
    assert!(plan.iter().any(|(t, i, stored)| *t == 60 && *i == 1 && *stored));
    assert!(plan.iter().any(|(t, i, stored)| *t == 180 && *i == 3 && *stored));
    assert!(plan.iter().all(|(t, _, stored)| *stored == (*t <= 180)));
    // an update long after the last one clears every slot
    let cleared = stale_slots(0, 100_000, 60);
    assert_eq!(cleared.len(), 70);
    // an update right after the last one clears nothing
    assert!(stale_slots(200, 260, 60).is_empty());
}
