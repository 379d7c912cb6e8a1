use backup_core::backup_info::{BackupGroup, BackupInfo, BackupType};
use backup_core::chunk_store::chunk_path;
use backup_core::manifest::BackupManifest;
use backup_core::prune::{compute_prune_info, prune_removals, PruneOptions};
use backup_core::tools::{
    assert_if_modified, chunk_ranges, hardware_address_of, parse_path, to_hex, ExtractPath,
    ToolError,
};

#[test]
fn hex_text() {
    assert_eq!(to_hex(&[0x00, 0x0f, 0xa5, 0xff]), "000fa5ff");
    assert_eq!(to_hex(&[]), "");
}

#[test]
fn chunk_file_location() {
    let mut digest = [0u8; 32];
    digest[0] = 0xab;
    digest[1] = 0x01;
    digest[31] = 0x7f;
    let path = chunk_path("/store", &digest);
    assert_eq!(
        path,
        "/store/.chunks/ab01/ab0100000000000000000000000000000000000000000000000000000000007f"
    );
}

#[test]
fn configuration_digest_check() {
    assert_eq!(assert_if_modified("abc", "abc"), Ok(()));
    assert_eq!(
        assert_if_modified("abc", "abd"),
        Err(ToolError::ModifiedConfiguration)
    );
}

#[test]
fn restore_path_plain() {
    assert_eq!(parse_path("/".to_string(), false), Ok(ExtractPath::ListArchives));
    assert_eq!(
        parse_path("//root.pxar.didx/etc/hosts".to_string(), false),
        Ok(ExtractPath::Pxar(
            "root.pxar.didx".to_string(),
            b"/etc/hosts".to_vec()
        ))
    );
    assert_eq!(
        parse_path("root.pxar.didx".to_string(), false),
        Ok(ExtractPath::Pxar("root.pxar.didx".to_string(), Vec::new()))
    );
    assert_eq!(
        parse_path("/drive-scsi0.img.fidx/x".to_string(), false),
        Err(ToolError::UnsupportedArchive)
    );
}

#[test]
fn restore_path_base64() {
    assert_eq!(
        parse_path("L3Jvb3QucHhhci5kaWR4L2V0Yy9ob3N0cw==".to_string(), true),
        Ok(ExtractPath::Pxar(
            "root.pxar.didx".to_string(),
            b"/etc/hosts".to_vec()
        ))
    );
    assert_eq!(parse_path("Lw==".to_string(), true), Ok(ExtractPath::ListArchives));
    assert_eq!(
        parse_path("not base64!".to_string(), true),
        Err(ToolError::InvalidBase64)
    );
    // "/\xff.pxar.didx" is not UTF-8
    assert_eq!(
        parse_path("L/8ucHhhci5kaWR4".to_string(), true),
        Err(ToolError::InvalidUtf8)
    );
}

#[test]
fn host_fingerprint() {
    assert_eq!(
        hardware_address_of(b"ssh-rsa AAAA test"),
        "33b47f8bc3c940a6f260f2dec3f7418d"
    );
}

#[test]
fn chunking_ranges() {
    assert_eq!(
        chunk_ranges(10, 4),
        Ok(vec![(0usize, 4usize), (4, 4), (8, 2)])
    );
    assert_eq!(chunk_ranges(8, 4), Ok(vec![(0usize, 4usize), (4, 4)]));
    assert_eq!(chunk_ranges(0, 4), Ok(vec![]));
    assert_eq!(chunk_ranges(10, 0), Err(ToolError::BadChunkSize));
    assert_eq!(
        chunk_ranges(10, 4 * 1024 * 1024 + 1),
        Err(ToolError::BadChunkSize)
    );
}

fn group() -> BackupGroup {
    BackupGroup::new("/store".to_string(), BackupType::Vm, "100".to_string())
}

fn info(time: &str, protected: bool) -> BackupInfo {
    BackupInfo {
        backup_dir: group().backup_dir_with_rfc3339(time.to_string()).unwrap(),
        files: vec!["index.json.blob".to_string()],
        protected,
    }
}

#[test]
fn protection_blocks_group_removal() {
    let list = vec![
        info("2024-01-01T00:00:00Z", false),
        info("2024-01-02T00:00:00Z", true),
        info("2024-01-03T00:00:00Z", false),
    ];
    let (sel, all) = group().destroy_selection(&list);
    assert_eq!(sel, vec![0, 2]);
    assert!(!all);
    let (sel, all) = group().destroy_selection(&vec![info("2024-01-01T00:00:00Z", false)]);
    assert_eq!(sel, vec![0]);
    assert!(all);
}

#[test]
fn prune_run_removes_oldest_first_and_spares_protected() {
    let list = vec![
        info("2024-01-01T00:00:00Z", false),
        info("2024-01-02T00:00:00Z", true),
        info("2024-01-03T00:00:00Z", false),
        info("2024-01-04T00:00:00Z", false),
    ];
    let opts = PruneOptions {
        keep_last: Some(1),
        keep_hourly: None,
        keep_daily: None,
        keep_weekly: None,
        keep_monthly: None,
        keep_yearly: None,
    };
    let result = compute_prune_info(list, &opts).unwrap();
    let removals = prune_removals(&result, false);
    let names: Vec<&str> = removals
        .iter()
        .map(|i| result[*i].0.backup_dir.backup_time_string())
        .collect();
    assert_eq!(names, vec!["2024-01-01T00:00:00Z", "2024-01-03T00:00:00Z"]);
    assert!(prune_removals(&result, true).is_empty());
}

#[test]
fn manifest_lists_files_in_order() {
    let dir = group().backup_dir(1704067200).unwrap();
    let mut manifest = BackupManifest::new(dir);
    manifest.add_file("root.pxar.didx".to_string(), 100, [1u8; 32]);
    manifest.add_file("catalog.pcat1.didx".to_string(), 7, [2u8; 32]);
    assert_eq!(manifest.files().len(), 2);
    assert_eq!(manifest.files()[0].filename, "root.pxar.didx");
    assert_eq!(manifest.files()[1].size, 7);
    assert_eq!(manifest.snapshot().backup_time_string(), "2024-01-01T00:00:00Z");
    assert_eq!(
        BackupInfo {
            backup_dir: manifest.snapshot().duplicate(),
            files: vec![],
            protected: false
        }
        .is_finished(),
        false
    );
}

#[test]
fn digest_from_hex() {
    let text = "00ff10Ab".repeat(8);
    let digest = backup_core::tools::hex_to_digest(&text).unwrap();
    assert_eq!(&digest[0..4], &[0x00, 0xff, 0x10, 0xab]);
    assert_eq!(to_hex(&digest), "00ff10ab".repeat(8));
    assert_eq!(backup_core::tools::hex_to_digest("00ff"), None);
    assert_eq!(backup_core::tools::hex_to_digest(&"zz".repeat(32)), None);
}

#[test]
fn type_names_and_file_names() {
    assert_eq!(BackupType::from_name("vm"), Some(BackupType::Vm));
    assert_eq!(BackupType::from_name("ct"), Some(BackupType::Ct));
    assert_eq!(BackupType::from_name("host"), Some(BackupType::Host));
    assert_eq!(BackupType::from_name("hosts"), None);
    assert!(backup_core::backup_info::is_backup_file_name("root.pxar.didx"));
    assert!(backup_core::backup_info::is_backup_file_name("drive-scsi0.img.fidx"));
    assert!(backup_core::backup_info::is_backup_file_name("index.json.blob"));
    assert!(!backup_core::backup_info::is_backup_file_name(".protected"));
    assert!(!backup_core::backup_info::is_backup_file_name("blob"));
}

#[test]
fn chunk_size_check() {
    assert_eq!(backup_core::tools::check_chunk_size(4096), Ok(()));
    assert_eq!(
        backup_core::tools::check_chunk_size(0),
        Err(ToolError::BadChunkSize)
    );
}
