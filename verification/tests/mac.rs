use diskbytes::platform::mac::{
    errno_list_error, full_attrlist, list_only_attrlist, parse_bulk_record, read_dir_entry,
    read_dir_failure, BulkQuery, BulkReply, BulkStep, EntryFacts, ReadDirError, ATTR_CMN_CRTIME,
    ATTR_CMN_ERROR, ATTR_CMN_MODTIME, ATTR_CMN_NAME, ATTR_CMN_OBJTYPE, ATTR_CMN_RETURNED_ATTRS,
    ATTR_FILE_ALLOCSIZE, ATTR_FILE_TOTALSIZE, VDIR, VLNK, VREG,
};
use diskbytes::platform::mac_system::{
    application_roots, bin_policy_for, bundle_under, close_processes_under, cluster_size,
    cpu_ticks, cpuid_brand, disk_storage, enable_backup_privilege, fixed_drive_roots,
    icon_png_data_url, is_browsable_volume, known_folder, launch_and_wait_uninstaller,
    monitor_raw, mounted_volume, msix_packages, msix_remove_package, network_octets, open_target,
    path_on_fixed_drive, plain_path, posix_path, process_snapshot, recycle_to_trash,
    registry_uninstall_entries, relaunch_elevated_with, turbo_geometry, turbo_read_mft,
    uninstaller_command, userassist_entries, volume_sample, volume_serial, BundleFacts, IfEntry,
    ProcFacts, RunningApp, VmFacts,
};
use diskbytes::platform::{KnownFolder, ListError};

fn build_record(
    name: &[u8],
    objtype: u32,
    requested_common: u32,
    requested_file: u32,
    logical: u64,
    alloc: u64,
) -> Vec<u8> {
    let mut rec = Vec::new();
    let mut cursor = 24usize;
    if requested_common & ATTR_CMN_ERROR != 0 {
        cursor += 4;
    }
    let name_ref_at = cursor;
    if requested_common & ATTR_CMN_NAME != 0 {
        cursor += 8;
    }
    let objtype_at = cursor;
    if requested_common & ATTR_CMN_OBJTYPE != 0 {
        cursor += 4;
    }
    let cr_at = cursor;
    if requested_common & ATTR_CMN_CRTIME != 0 {
        cursor += 16;
    }
    let md_at = cursor;
    if requested_common & ATTR_CMN_MODTIME != 0 {
        cursor += 16;
    }
    let total_at = cursor;
    if requested_file & ATTR_FILE_TOTALSIZE != 0 {
        cursor += 8;
    }
    let alloc_at = cursor;
    if requested_file & ATTR_FILE_ALLOCSIZE != 0 {
        cursor += 8;
    }
    let name_at = cursor;
    let padded_name_len = (name.len() + 1).div_ceil(4) * 4;
    let total = name_at + padded_name_len;

    rec.resize(total, 0);
    rec[0..4].copy_from_slice(&(total as u32).to_le_bytes());
    rec[4..8].copy_from_slice(&requested_common.to_le_bytes());
    rec[16..20].copy_from_slice(&requested_file.to_le_bytes());
    if requested_common & ATTR_CMN_NAME != 0 {
        let data_offset = (name_at as isize) - (name_ref_at as isize);
        rec[name_ref_at..name_ref_at + 4].copy_from_slice(&(data_offset as i32).to_le_bytes());
        rec[name_ref_at + 4..name_ref_at + 8]
            .copy_from_slice(&((name.len() + 1) as u32).to_le_bytes());
        rec[name_at..name_at + name.len()].copy_from_slice(name);
        rec[name_at + name.len()] = 0;
    }
    if requested_common & ATTR_CMN_OBJTYPE != 0 {
        rec[objtype_at..objtype_at + 4].copy_from_slice(&objtype.to_le_bytes());
    }
    if requested_common & ATTR_CMN_CRTIME != 0 {
        rec[cr_at..cr_at + 8].copy_from_slice(&2i64.to_le_bytes());
        rec[cr_at + 8..cr_at + 16].copy_from_slice(&0i64.to_le_bytes());
    }
    if requested_common & ATTR_CMN_MODTIME != 0 {
        rec[md_at..md_at + 8].copy_from_slice(&1i64.to_le_bytes());
        rec[md_at + 8..md_at + 16].copy_from_slice(&0i64.to_le_bytes());
    }
    if requested_file & ATTR_FILE_TOTALSIZE != 0 {
        rec[total_at..total_at + 8].copy_from_slice(&logical.to_le_bytes());
    }
    if requested_file & ATTR_FILE_ALLOCSIZE != 0 {
        rec[alloc_at..alloc_at + 8].copy_from_slice(&alloc.to_le_bytes());
    }
    rec
}

const REQ_COMMON: u32 = ATTR_CMN_RETURNED_ATTRS
    | ATTR_CMN_ERROR
    | ATTR_CMN_NAME
    | ATTR_CMN_OBJTYPE
    | ATTR_CMN_CRTIME
    | ATTR_CMN_MODTIME;
const REQ_FILE: u32 = ATTR_FILE_TOTALSIZE | ATTR_FILE_ALLOCSIZE;

fn u16s(s: &str) -> Vec<u16> {
    s.encode_utf16().collect()
}

fn check_directory() {
    let rec = build_record(b"abc", VDIR, REQ_COMMON, REQ_FILE, 0, 0);
    let e = parse_bulk_record(&rec).expect("record parses");
    assert_eq!(e.name, vec![u16::from(b'a'), u16::from(b'b'), u16::from(b'c')]);
    assert!(e.is_dir);
    assert!(e.reparse_tag.is_none());
    assert_eq!(e.modified, 1);
    assert_eq!(e.created, 2);
    assert_eq!(e.logical, 0);
    assert_eq!(e.on_disk, 0);
}

fn check_file_with_sizes() {
    let rec = build_record(b"video.mp4", VREG, REQ_COMMON, REQ_FILE, 1_100, 1_100);
    let e = parse_bulk_record(&rec).expect("record parses");
    assert_eq!(e.name, u16s("video.mp4"));
    assert!(!e.is_dir);
    assert_eq!(e.logical, 1_100);
    assert_eq!(e.on_disk, 1_100);
    assert_eq!(e.modified, 1);
    assert_eq!(e.created, 2);
}

fn check_symlink() {
    let rec = build_record(b"alias", VLNK, REQ_COMMON, REQ_FILE, 7, 7);
    let e = parse_bulk_record(&rec).expect("record parses");
    assert!(e.reparse_tag.is_some(), "symlinks never descend");
    assert_eq!(e.name, u16s("alias"));
}

fn check_partial() {
    let partial_common = ATTR_CMN_RETURNED_ATTRS
        | ATTR_CMN_ERROR
        | ATTR_CMN_NAME
        | ATTR_CMN_OBJTYPE
        | ATTR_CMN_MODTIME;
    let rec = build_record(b"x.txt", VREG, partial_common, 0, 0, 0);
    let e = parse_bulk_record(&rec).expect("partial record parses");
    assert_eq!(e.created, 0);
    assert_eq!(e.logical, 0);
    assert_eq!(e.on_disk, 0);
    assert_eq!(e.modified, 1);
}

fn check_trash_policy() {
    let p = bin_policy_for("/Users/dev/anything");
    assert!(!p.nuke_on_delete);
    assert!(p.max_capacity_mb.is_none());
}

#[test]
fn mac_bulk_record_parses_a_directory() {
    check_directory();
}

#[test]
fn mod_bulk_record_parses_a_directory() {
    check_directory();
}

#[test]
fn mac_bulk_record_parses_a_file_with_sizes() {
    check_file_with_sizes();
}

#[test]
fn mod_bulk_record_parses_a_file_with_sizes() {
    check_file_with_sizes();
}

#[test]
fn mac_bulk_record_parses_a_symlink_with_reparse_tag() {
    check_symlink();
}

#[test]
fn mod_bulk_record_parses_a_symlink_with_reparse_tag() {
    check_symlink();
}

#[test]
fn mac_bulk_record_survives_partial_attribute_sets() {
    check_partial();
}

#[test]
fn mod_bulk_record_survives_partial_attribute_sets() {
    check_partial();
}

#[test]
fn bulk_record_list_only_mode_parses() {
    let list_only = ATTR_CMN_RETURNED_ATTRS | ATTR_CMN_ERROR | ATTR_CMN_NAME | ATTR_CMN_OBJTYPE;
    let rec = build_record(b"degraded.bin", VREG, list_only, 0, 9_999, 9_999);
    let e = parse_bulk_record(&rec).expect("list-only record parses");
    assert_eq!(e.name, u16s("degraded.bin"));
    assert!(!e.is_dir);
    assert_eq!(e.logical, 0, "no sizes in list-only mode");
    assert_eq!(e.on_disk, 0, "no sizes in list-only mode");
    assert_eq!(e.modified, 0);
    assert_eq!(e.created, 0);
}

#[test]
fn mac_bulk_record_rejects_truncated_header() {
    assert!(parse_bulk_record(&[0u8; 16]).is_none());
}

#[test]
fn mod_bulk_record_rejects_truncated_header() {
    assert!(parse_bulk_record(&[0u8; 16]).is_none());
}

#[test]
fn mac_trash_policy_is_always_recyclable() {
    check_trash_policy();
}

#[test]
fn mod_trash_policy_is_always_recyclable() {
    check_trash_policy();
}

#[test]
fn mac_known_folders_resolve_under_home() {
    let home = Some("/Users/dev".to_string());
    assert_eq!(known_folder(KnownFolder::Profile, &home).as_deref(), Some("/Users/dev"));
    assert!(known_folder(KnownFolder::LocalAppData, &home).is_some());
}

#[test]
fn mod_known_folders_resolve_under_home() {
    let home = Some("/Users/dev".to_string());
    assert_eq!(known_folder(KnownFolder::Profile, &home).as_deref(), Some("/Users/dev"));
    assert_eq!(
        known_folder(KnownFolder::LocalAppData, &home).as_deref(),
        Some("/Users/dev/Library/Application Support")
    );
    assert_eq!(
        known_folder(KnownFolder::UserPrograms, &home).as_deref(),
        Some("/Users/dev/Applications")
    );
    assert_eq!(known_folder(KnownFolder::ProgramData, &home).as_deref(), Some("/Library"));
    assert_eq!(known_folder(KnownFolder::ProgramData, &None), None);
}

#[test]
fn names_outside_ascii_stay_exact() {
    for name in ["café.txt", "日本語.md", "emoji-📁.txt"] {
        let rec = build_record(name.as_bytes(), VREG, REQ_COMMON, REQ_FILE, 1, 1);
        let e = parse_bulk_record(&rec).expect("record parses");
        assert_eq!(e.name, u16s(name));
    }
}

#[test]
fn bytes_outside_utf8_are_replaced() {
    let rec = build_record(b"a\xFFb", VREG, REQ_COMMON, REQ_FILE, 1, 1);
    let e = parse_bulk_record(&rec).expect("record parses");
    assert_eq!(e.name, u16s("a\u{FFFD}b"));
}

#[test]
fn names_outside_the_record_are_refused() {
    let mut rec = build_record(b"abc", VREG, REQ_COMMON, REQ_FILE, 1, 1);
    rec[32..36].copy_from_slice(&1000u32.to_le_bytes());
    assert!(parse_bulk_record(&rec).is_none());
    let mut rec = build_record(b"abc", VREG, REQ_COMMON, REQ_FILE, 1, 1);
    rec[28..32].copy_from_slice(&(-29i32).to_le_bytes());
    assert!(parse_bulk_record(&rec).is_none());
}

#[test]
fn requests_name_what_they_ask_for() {
    let full = full_attrlist();
    assert_eq!(full.common, REQ_COMMON);
    assert_eq!(full.file, REQ_FILE);
    let less = list_only_attrlist();
    assert_eq!(
        less.common,
        ATTR_CMN_RETURNED_ATTRS | ATTR_CMN_ERROR | ATTR_CMN_NAME | ATTR_CMN_OBJTYPE
    );
    assert_eq!(less.file, 0);
}

#[test]
fn a_listing_walks_records_and_skips_dots() {
    let mut buffer = Vec::new();
    for name in [&b"."[..], &b".."[..], &b"one"[..], &b"two"[..]] {
        buffer.extend(build_record(name, VREG, REQ_COMMON, REQ_FILE, 5, 8));
    }
    buffer.resize(4096, 0);
    let mut q = BulkQuery::new();
    assert_eq!(q.request(), full_attrlist());
    assert_eq!(q.step(BulkReply::Records(4), &buffer), BulkStep::Query);
    let names: Vec<Vec<u16>> = q.entries.iter().map(|e| e.name.clone()).collect();
    assert_eq!(names, vec![u16s("one"), u16s("two")]);
    assert_eq!(q.step(BulkReply::Records(0), &buffer), BulkStep::Done);
    assert!(q.error.is_none());
    assert_eq!(q.entries.len(), 2);
}

#[test]
fn a_listing_degrades_before_it_fails() {
    let mut q = BulkQuery::new();
    assert_eq!(q.step(BulkReply::Failed(4), &[]), BulkStep::Query);
    assert!(!q.list_only);
    assert_eq!(q.step(BulkReply::Failed(13), &[]), BulkStep::Query);
    assert_eq!(q.request(), list_only_attrlist());
    assert_eq!(q.step(BulkReply::Failed(1), &[]), BulkStep::Done);
    assert!(matches!(q.error, Some(ListError::AccessDenied)));
    for e in [22, 45, 102, 78, 19, 25] {
        let mut q = BulkQuery::new();
        assert_eq!(q.step(BulkReply::Failed(e), &[]), BulkStep::Fallback);
    }
    let mut q = BulkQuery::new();
    assert_eq!(q.step(BulkReply::Failed(5), &[]), BulkStep::Done);
    match q.error {
        Some(ListError::Other(t)) => assert_eq!(t, "macOS error 5"),
        _ => panic!("expected an error"),
    }
}

#[test]
fn error_numbers_have_classes() {
    assert!(matches!(errno_list_error(2), ListError::Vanished));
    assert!(matches!(errno_list_error(1), ListError::AccessDenied));
    match errno_list_error(-7) {
        ListError::Other(t) => assert_eq!(t, "macOS error -7"),
        _ => panic!("expected a text"),
    }
}

#[test]
fn entries_of_the_fallback_keep_disk_blocks() {
    let f = EntryFacts {
        is_dir: false,
        is_link: false,
        len: 8192,
        blocks: 16,
        modified: Some(9),
        created: None,
    };
    let e = read_dir_entry("data.bin", Some(f));
    assert_eq!(e.name, u16s("data.bin"));
    assert_eq!((e.logical, e.on_disk, e.modified, e.created), (8192, 8192, 9, 0));
    assert_eq!(e.reparse_tag, None);
    let link = read_dir_entry("l", Some(EntryFacts { is_link: true, ..f }));
    assert_eq!(link.reparse_tag, Some(0xA000_0009));
    let bare = read_dir_entry("x", None);
    assert_eq!((bare.logical, bare.on_disk, bare.is_dir), (0, 0, false));
}

#[test]
fn fallback_failures_have_classes() {
    assert!(matches!(read_dir_failure(&ReadDirError::PermissionDenied), ListError::AccessDenied));
    assert!(matches!(read_dir_failure(&ReadDirError::NotFound), ListError::Vanished));
    match read_dir_failure(&ReadDirError::Other("broken".into())) {
        ListError::Other(t) => assert_eq!(t, "read_dir fallback: broken"),
        _ => panic!("expected a text"),
    }
}

#[test]
fn paths_lose_their_windows_marks() {
    assert_eq!(posix_path("\\\\?\\a\\b").as_deref(), Some("a/b"));
    assert_eq!(posix_path("/x/y").as_deref(), Some("/x/y"));
    assert_eq!(posix_path("a\0b"), None);
    assert_eq!(plain_path("\\\\?\\\\\\?\\z\\q"), "z\\q");
}

#[test]
fn opening_the_bin_opens_the_trash() {
    let home = Some("/Users/dev".to_string());
    assert_eq!(open_target("shell:RecycleBinFolder", &home), "/Users/dev/.Trash");
    assert_eq!(open_target("/etc", &home), "/etc");
}

#[test]
fn hidden_mounts_are_not_shown() {
    assert!(is_browsable_volume("/"));
    assert!(is_browsable_volume("/Volumes/Data"));
    assert!(!is_browsable_volume("/Volumes/.hidden"));
    assert!(!is_browsable_volume("/System/Volumes/VM"));
    let rows = vec![
        mounted_volume(b"/dev/disk1s1\0\0\0", b"/\0\0\0\0"),
        mounted_volume(b"devfs\0", b"/dev\0"),
        mounted_volume(b"/dev/disk2\0", b"/Volumes/Data\0"),
    ];
    assert_eq!(rows[0].label, "disk1s1");
    assert_eq!(rows[1].label, "devfs");
    assert_eq!(fixed_drive_roots(&rows), vec!["/".to_string(), "/Volumes/Data".to_string()]);
    let s = volume_sample(&rows[2], Some((10, 4, 4096)));
    assert_eq!((s.root.as_str(), s.total, s.free), ("/Volumes/Data", 40960, 16384));
    let s = volume_sample(&rows[2], None);
    assert_eq!((s.total, s.free), (0, 0));
}

#[test]
fn storage_counts_blocks() {
    let mut from = [0u8; 64];
    from[..12].copy_from_slice(b"/dev/disk3s5");
    let s = disk_storage(&from, 100, 40, 4096);
    assert_eq!(s.label.0, u16s("disk3s5"));
    assert_eq!((s.total, s.used, s.free), (409_600, 245_760, 163_840));
    let full = disk_storage(b"//server/a-share-with-a-long-name", 1, 1, 1);
    assert_eq!(full.label.0, u16s("a-share-with-a-long-name"));
    assert_eq!(disk_storage(b"ab", 1, 1, 1).label.0, u16s("ab"));
    let big = disk_storage(&from, u64::MAX, 1, 4096);
    assert_eq!(big.total, u64::MAX);
    assert_eq!(cluster_size(Some(4096)), 4096);
    assert_eq!(cluster_size(None), 0);
    assert_eq!(volume_serial(1, 2), (1u64 << 32) | 2);
    assert!(path_on_fixed_drive(Some(0x800)));
    assert!(!path_on_fixed_drive(Some(0)));
    assert!(!path_on_fixed_drive(None));
}

#[test]
fn windows_only_features_say_so() {
    assert!(relaunch_elevated_with("C:\\", "").unwrap_err().starts_with("macOS uses Full Disk"));
    assert!(turbo_geometry("C:\\").is_err());
    assert!(turbo_read_mft().is_err());
    assert!(!enable_backup_privilege());
    assert!(msix_packages().unwrap().is_empty());
    assert_eq!(msix_remove_package("x"), Err("Store packages are Windows-only.".to_string()));
    assert!(userassist_entries().is_empty());
    assert!(icon_png_data_url("/x").is_none());
}

fn bundle(file_name: &str, id: Option<&str>, display: Option<&str>) -> BundleFacts {
    BundleFacts {
        file_name: file_name.to_string(),
        path: format!("/Applications/{file_name}"),
        display_name: display.map(|s| s.to_string()),
        bundle_name: None,
        version: None,
        bundle_id: id.map(|s| s.to_string()),
    }
}

#[test]
fn bundles_become_entries() {
    let apps = registry_uninstall_entries(&[
        bundle("Foo.app", Some("com.foo"), Some("Foo Tool")),
        bundle("notes.txt", None, None),
        bundle("Bar.app", None, None),
        bundle("app", None, None),
    ]);
    assert_eq!(apps.len(), 2);
    assert_eq!((apps[0].id.as_str(), apps[0].name.as_str()), ("com.foo", "Foo Tool"));
    assert_eq!(apps[0].publisher, "com.foo");
    assert_eq!(apps[0].version, "—");
    assert_eq!((apps[1].id.as_str(), apps[1].name.as_str()), ("Bar", "Bar"));
    assert_eq!(apps[1].install_location, "/Applications/Bar.app");
    assert_eq!(
        application_roots(&Some("/Users/dev".to_string())),
        vec!["/Applications".to_string(), "/Users/dev/Applications".to_string()]
    );
}

#[test]
fn only_apps_below_the_folder_are_closed() {
    assert!(bundle_under("/Applications/Foo.app", "/Applications/Foo.app"));
    assert!(bundle_under("/Applications/Foo.app/Contents/Helper.app", "/Applications/Foo.app"));
    assert!(!bundle_under("/Applications/Foo.app2", "/Applications/Foo.app"));
    assert!(!bundle_under("/Applications/Foo.app", ""));
    assert!(bundle_under("/Applications/Foo.app", "/"));
    assert!(bundle_under("/", "/"));
    assert!(bundle_under("/Applications/Foo.app", "//"));
    assert!(!bundle_under("Foo.app", "/"));
    assert!(!bundle_under("", "/"));
    let everywhere = close_processes_under(
        "/",
        &[RunningApp { bundle: Some("/Applications/Foo.app".into()), name: Some("Foo".into()) }],
    );
    assert_eq!(everywhere, vec![(0, "Foo".to_string())]);
    let closed = close_processes_under(
        "/Applications/Foo.app/",
        &[
            RunningApp { bundle: Some("/Applications/Other.app".into()), name: None },
            RunningApp { bundle: Some("/Applications/Foo.app".into()), name: Some("Foo".into()) },
            RunningApp { bundle: None, name: Some("x".into()) },
            RunningApp { bundle: Some("/Applications/Foo.app/H.app".into()), name: None },
        ],
    );
    assert_eq!(
        closed,
        vec![(1, "Foo".to_string()), (3, "/Applications/Foo.app/H.app".to_string())]
    );
}

#[test]
fn uninstaller_commands_split_into_words() {
    let (exe, args) = uninstaller_command("  /bin/rm -i\tx ").unwrap();
    assert_eq!(exe, "/bin/rm");
    assert_eq!(args, vec!["-i".to_string(), "x".to_string()]);
    assert_eq!(uninstaller_command(" \t"), Err("No uninstaller on macOS".to_string()));
    assert_eq!(launch_and_wait_uninstaller("x", Ok(Some(3))), Ok(3));
    assert_eq!(launch_and_wait_uninstaller("x", Ok(None)), Ok(-1));
    assert_eq!(
        launch_and_wait_uninstaller("x", Err("gone".into())),
        Err("Couldn't run x: gone".to_string())
    );
}

#[test]
fn trash_outcomes_share_their_errors() {
    let paths = vec!["/a".to_string(), "/b".to_string()];
    let ok = recycle_to_trash(&paths, true, &[]).unwrap();
    assert_eq!(ok, vec![("/a".to_string(), Ok(())), ("/b".to_string(), Ok(()))]);
    let bad = recycle_to_trash(&paths, true, &["x".to_string(), "y".to_string()]).unwrap();
    assert_eq!(bad[1], ("/b".to_string(), Err("x; y".to_string())));
    assert_eq!(recycle_to_trash(&paths, false, &[]), Err("Trash move timed out".to_string()));
}

#[test]
fn machine_figures_add_up() {
    let t = cpu_ticks(Some((1, 2, 3, 4)));
    assert_eq!((t.idle, t.kernel, t.user), (3, 5, 5));
    let rows = vec![
        IfEntry { name: "en0".into(), flags: 1, link_data: Some((10, 20)) },
        IfEntry { name: "en0".into(), flags: 1, link_data: None },
        IfEntry { name: "lo0".into(), flags: 9, link_data: Some((5, 5)) },
        IfEntry { name: "en1".into(), flags: 0, link_data: Some((7, 7)) },
        IfEntry { name: "en2".into(), flags: 1, link_data: Some((u64::MAX, 1)) },
    ];
    assert_eq!(network_octets(&rows), (u64::MAX, 21));
    let procs = process_snapshot(&[
        ProcFacts { pid: 0, path: None, system_time: 1, user_time: 1, resident: 1 },
        ProcFacts {
            pid: 7,
            path: Some(b"/usr/bin/tool".to_vec()),
            system_time: 1000,
            user_time: 250,
            resident: 99,
        },
        ProcFacts { pid: 8, path: None, system_time: 0, user_time: 0, resident: 0 },
    ]);
    assert_eq!(procs[0], (7, "tool".to_string(), 10, 2, 99));
    assert_eq!(procs[1].1, "pid 8");
    let vm = VmFacts { free: 1, inactive: 2, speculative: 3, wired: 4, purgeable: 5, compressor: 0 };
    let m = monitor_raw(t, 100_000, 4096, Some(vm), (1, 2), vec![], procs);
    assert_eq!(m.mem_available, 6 * 4096);
    assert_eq!(m.commit_total, 100_000 - 6 * 4096);
    assert_eq!((m.kernel_paged, m.kernel_nonpaged), (4 * 4096, 5 * 4096));
    assert_eq!(m.compressed_ws, None);
    assert_eq!((m.threads, m.processes), (2, 2));
}

#[test]
fn processor_name_ends_at_nul() {
    assert_eq!(cpuid_brand(b"Apple M2\0junk").as_deref(), Some("Apple M2"));
    assert_eq!(cpuid_brand(b"\xFF\xFE").as_deref(), None);
}
