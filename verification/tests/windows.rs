use diskbytes::platform::icon::{base64_encode, bgra_to_png, icon_size, to_rgba};
use diskbytes::platform::processes::{
    brand_from, close_processes_under, close_step, cpuid_brand, hardlink_identity, image_under,
    launch_and_wait_uninstaller, memory_compression_pid, monitor_raw, network_octets,
    normalize_for_compare, process_snapshot, uninstaller_line, volume_samples, CloseStep,
    DriveFacts, IfRow, LaunchEnd, PROC_RECORD,
};
use diskbytes::platform::registry::{
    folder_id, hive_name, machine_guid, msix_packages, msix_removal_step, parse_display_icon,
    read_uninstall_entry, reg_query_dword, reg_query_string, registry_uninstall_entries,
    resolve_known_folder_prefix, rot13, uninstall_roots, userassist_entries, userassist_last_run,
    Hive, PackageFacts, RemovalStatus, RemovalStep, UninstallKey, UninstallValues, UsageRecord,
};
use diskbytes::platform::volumes::{
    bin_key_for, bin_policy_for, cluster_size, disk_storage, drive_root_of, drive_strings,
    enable_backup_privilege, fixed_drive_roots, is_file_record, next_run, open_outcome,
    path_on_fixed_drive, relaunch_args, relaunch_elevated_with, root_of, root_of_display,
    turbo_geometry, volume_device, wide, windows_apps_under, DataRun, RunStep,
};
use diskbytes::platform::win::{
    classify_open_error, filetime_to_unix, DirQuery, QueryReply, BUFFER_BYTES,
    STATUS_NO_MORE_FILES,
};
use diskbytes::platform::{ListError, TurboGeometry};

fn u16s(s: &str) -> Vec<u16> {
    s.encode_utf16().collect()
}

fn put(b: &mut [u8], at: usize, v: u64, n: usize) {
    b[at..at + n].copy_from_slice(&v.to_le_bytes()[..n]);
}

fn record(b: &mut [u8], at: usize, name: &str, attrs: u32, next: u32) {
    put(b, at, next as u64, 4);
    put(b, at + 8, 116_444_736_000_000_000 + 20_000_000, 8);
    put(b, at + 24, 116_444_736_000_000_000 + 50_000_000, 8);
    put(b, at + 40, 1000, 8);
    put(b, at + 48, 4096, 8);
    put(b, at + 56, attrs as u64, 4);
    put(b, at + 60, 2 * name.encode_utf16().count() as u64, 4);
    put(b, at + 64, 0xA000_000C, 4);
    put(b, at + 72, 77, 8);
    for (i, u) in name.encode_utf16().enumerate() {
        put(b, at + 80 + 2 * i, u as u64, 2);
    }
}

#[test]
fn directory_records_are_walked() {
    let mut b = vec![0u8; BUFFER_BYTES];
    record(&mut b, 0, ".", 0x10, 96);
    record(&mut b, 96, "..", 0x10, 96);
    record(&mut b, 192, "docs", 0x10, 96);
    record(&mut b, 288, "é.txt", 0x400, 96);
    record(&mut b, 384, "far.bin", 0x1000, 0);
    let mut q = DirQuery::new();
    q.step(QueryReply { status: 0, dos: 0, returned: 480 }, &b);
    assert!(q.more);
    assert_eq!(q.entries.len(), 3);
    let e = &q.entries[0];
    assert_eq!(e.name, u16s("docs"));
    assert!(e.is_dir && !e.cloud);
    assert_eq!((e.logical, e.on_disk, e.created, e.modified, e.file_id), (1000, 4096, 2, 5, 77));
    assert_eq!(e.reparse_tag, None);
    assert_eq!(q.entries[1].name, u16s("é.txt"));
    assert_eq!(q.entries[1].reparse_tag, Some(0xA000_000C));
    assert!(q.entries[2].cloud);
    q.step(QueryReply { status: STATUS_NO_MORE_FILES, dos: 18, returned: 0 }, &b);
    assert!(!q.more);
    assert!(q.error.is_none());
    assert_eq!(q.entries.len(), 3);
}

fn fault_of(b: &[u8], returned: usize) -> (usize, String) {
    let mut q = DirQuery::new();
    q.step(QueryReply { status: 0, dos: 0, returned }, b);
    assert!(!q.more);
    match q.error {
        Some(ListError::Other(t)) => (q.entries.len(), t),
        _ => panic!("expected a fault"),
    }
}

#[test]
fn faulty_records_end_a_listing() {
    let mut b = vec![0u8; 1024];
    record(&mut b, 0, "ok", 0, 96);
    record(&mut b, 96, "bad", 0, 0);
    assert_eq!(fault_of(&b, 100), (1, "record header exceeds the returned length".to_string()));
    assert_eq!(fault_of(&b, 180), (1, "record name exceeds the returned length".to_string()));
    put(&mut b, 96 + 60, 3, 4);
    assert_eq!(fault_of(&b, 192), (1, "record has an odd UTF-16 byte length".to_string()));
    assert_eq!(
        fault_of(&b, 0),
        (0, "enumeration returned 0 bytes for a 1024-byte buffer".to_string())
    );
    assert_eq!(
        fault_of(&b, 2000),
        (0, "enumeration returned 2000 bytes for a 1024-byte buffer".to_string())
    );
}

#[test]
fn failing_queries_have_classes() {
    let b = vec![0u8; 1024];
    let run = |dos: u32| {
        let mut q = DirQuery::new();
        q.step(QueryReply { status: 0xC000_0022u32 as i32, dos, returned: 0 }, &b);
        assert!(!q.more);
        q.error
    };
    assert!(matches!(run(5), Some(ListError::AccessDenied)));
    assert!(matches!(run(2), Some(ListError::Vanished)));
    assert!(matches!(run(3), Some(ListError::Vanished)));
    match run(1392) {
        Some(ListError::Other(t)) => assert_eq!(
            t,
            "directory enumeration failed (status 0xc0000022, winerror 1392)"
        ),
        _ => panic!("expected a text"),
    }
    assert!(matches!(classify_open_error(5, "x".into()), ListError::AccessDenied));
    assert!(matches!(classify_open_error(3, "x".into()), ListError::Vanished));
    match classify_open_error(123, "bad name".into()) {
        ListError::Other(t) => assert_eq!(t, "bad name"),
        _ => panic!("expected a text"),
    }
    let q = DirQuery::unopened(ListError::Vanished);
    assert!(!q.more && q.error.is_some());
}

#[test]
fn file_times_become_seconds() {
    assert_eq!(filetime_to_unix(0), 0);
    assert_eq!(filetime_to_unix(116_444_736_000_000_000), 0);
    assert_eq!(filetime_to_unix(133_000_000_000_000_000), 1_655_526_400);
    assert_eq!(filetime_to_unix(1), -11_644_473_600);
}

#[test]
fn roots_of_paths() {
    assert_eq!(root_of("\\\\?\\C:\\Windows").as_deref(), Some("\\\\?\\C:\\"));
    assert_eq!(root_of("C:\\Windows"), None);
    assert_eq!(root_of("\\\\?\\UNC\\x"), None);
    assert_eq!(drive_root_of("c:\\foo\\bar").as_deref(), Some("c:\\"));
    assert_eq!(drive_root_of("c:foo"), None);
    assert_eq!(
        drive_root_of("\\\\?\\Volume{x}\\\\").as_deref(),
        Some("\\\\?\\Volume{x}\\")
    );
    assert_eq!(root_of_display("D:foo").as_deref(), Some("D:\\"));
    assert_eq!(root_of_display("é:foo"), None);
    assert_eq!(wide("aé"), vec![97, 233, 0]);
    assert_eq!(volume_device("C:\\"), "\\\\.\\C:");
    assert_eq!(windows_apps_under("C:\\Program Files"), "C:\\Program Files\\WindowsApps");
    assert_eq!(windows_apps_under("C:\\P\\"), "C:\\P\\WindowsApps");
}

#[test]
fn drive_lists_split_at_nul() {
    let mut u = u16s("C:\\");
    u.push(0);
    u.extend(u16s("D:\\"));
    u.extend([0, 0]);
    assert_eq!(drive_strings(&u), vec!["C:\\".to_string(), "D:\\".to_string()]);
    assert_eq!(
        fixed_drive_roots(&[("C:\\".into(), 3), ("E:\\".into(), 5), ("D:\\".into(), 3)]),
        vec!["C:\\".to_string(), "D:\\".to_string()]
    );
    assert!(path_on_fixed_drive(Some(3)));
    assert!(!path_on_fixed_drive(Some(2)));
    assert!(!path_on_fixed_drive(None));
}

#[test]
fn space_and_clusters() {
    let s = disk_storage(u16s("Data"), 1000, 400).unwrap();
    assert_eq!((s.total, s.used, s.free), (1000, 600, 400));
    assert!(disk_storage(vec![], 0, 0).is_none());
    assert_eq!(disk_storage(vec![], 10, 20).unwrap().used, 0);
    assert_eq!(cluster_size(Some((8, 512))), 4096);
    assert_eq!(cluster_size(Some((0, 512))), 4096);
    assert_eq!(cluster_size(None), 4096);
    assert_eq!(cluster_size(Some((u32::MAX, 2))), u32::MAX);
}

#[test]
fn bin_settings_are_found_by_guid() {
    let guid = "{01234567-89ab-CDEF-0123-456789abcdef}";
    let key = bin_key_for(&u16s(&format!("\\\\?\\Volume{guid}\\"))).unwrap();
    assert_eq!(
        key,
        format!(
            "Software\\Microsoft\\Windows\\CurrentVersion\\Explorer\\BitBucket\\Volume\\{guid}"
        )
    );
    assert_eq!(bin_key_for(&u16s("\\\\?\\Volume{short}\\")), None);
    assert_eq!(bin_key_for(&[0; 64]), None);
    let p = bin_policy_for(Some(1), Some(2048));
    assert!(p.nuke_on_delete);
    assert_eq!(p.max_capacity_mb, Some(2048));
    let p = bin_policy_for(None, None);
    assert!(!p.nuke_on_delete && p.max_capacity_mb.is_none());
    assert!(!bin_policy_for(Some(2), None).nuke_on_delete);
}

#[test]
fn shell_results() {
    assert_eq!(open_outcome(33), Ok(()));
    assert_eq!(
        open_outcome(2),
        Err("Windows could not open this item (shell error 2).".to_string())
    );
    assert_eq!(relaunch_elevated_with(42), Ok(()));
    assert_eq!(
        relaunch_elevated_with(5),
        Err("Elevation was declined or failed (shell error 5).".to_string())
    );
    assert_eq!(relaunch_args("C:\\", ""), "--scan \"C:\\\"");
    assert_eq!(relaunch_args("C:\\", "--turbo"), "--scan \"C:\\\" --turbo");
    assert!(enable_backup_privilege(true, 0));
    assert!(!enable_backup_privilege(true, 1300));
    assert!(!enable_backup_privilege(false, 0));
}

#[test]
fn geometry_is_read_from_its_block() {
    let mut b = [0u8; 64];
    put(&mut b, 32, 5000, 8);
    put(&mut b, 40, 512, 4);
    put(&mut b, 44, 4096, 4);
    put(&mut b, 48, 1024, 4);
    let g = turbo_geometry(&b, Some(64)).unwrap();
    assert_eq!(
        g,
        TurboGeometry {
            bytes_per_sector: 512,
            bytes_per_cluster: 4096,
            bytes_per_record: 1024,
            mft_valid_data_length: 5000
        }
    );
    assert!(turbo_geometry(&b, None).unwrap_err().contains("does not report NTFS geometry"));
    assert!(turbo_geometry(&b, Some(51)).is_err());
    put(&mut b, 44, 0, 4);
    put(&mut b, 32, u64::MAX, 8);
    let g = turbo_geometry(&b, Some(52)).unwrap();
    assert_eq!((g.bytes_per_cluster, g.mft_valid_data_length), (1, 0));
    put(&mut b, 48, 0, 4);
    assert_eq!(
        turbo_geometry(&b, Some(64)),
        Err("The NTFS geometry is unusable (zero record size).".to_string())
    );
}

#[test]
fn runs_are_read_up_to_the_valid_length() {
    let geo = TurboGeometry {
        bytes_per_sector: 512,
        bytes_per_cluster: 4096,
        bytes_per_record: 1024,
        mft_valid_data_length: 6000,
    };
    let run = |length, lcn| DataRun { length, lcn };
    assert_eq!(next_run(run(1, Some(10)), &geo, 0), Ok(RunStep::Read { at: 40960, take: 4096 }));
    assert_eq!(next_run(run(5, Some(2)), &geo, 4096), Ok(RunStep::Read { at: 8192, take: 1904 }));
    assert_eq!(next_run(run(5, Some(2)), &geo, 6000), Ok(RunStep::Stop));
    assert_eq!(next_run(run(5, None), &geo, 6000), Ok(RunStep::Skip));
    assert_eq!(
        next_run(run(5, Some(-1)), &geo, 0),
        Err("The $MFT cluster map is corrupt.".to_string())
    );
    assert_eq!(
        next_run(run(u64::MAX, Some(1)), &geo, 0),
        Err("The $MFT size overflows.".to_string())
    );
    assert_eq!(
        next_run(run(1, Some(i64::MAX)), &geo, 0),
        Err("The $MFT offset overflows.".to_string())
    );
    assert!(is_file_record(b"FILE0000"));
    assert!(!is_file_record(b"BAAD0000"));
}

fn values(name: &str) -> UninstallValues {
    UninstallValues {
        display_name: Some(name.to_string()),
        system_component: None,
        has_parent: false,
        publisher: Some("  ".to_string()),
        display_version: Some("1.2".to_string()),
        install_location: None,
        uninstall_string: Some("u.exe".to_string()),
        quiet_uninstall_string: None,
        display_icon: Some("\"C:\\a,b\\x.exe\",0".to_string()),
    }
}

#[test]
fn uninstall_entries_follow_their_rules() {
    let e = read_uninstall_entry(Hive::CurrentUser, "Sub", "Key", &values("Tool")).unwrap();
    assert_eq!(e.id, "HKCU\\Sub\\Key");
    assert_eq!(e.name, "Tool");
    assert_eq!(e.publisher, "");
    assert_eq!(e.version, "1.2");
    assert_eq!(e.display_icon, "C:\\a,b\\x.exe");
    let mut v = values(" \t");
    assert!(read_uninstall_entry(Hive::LocalMachine, "S", "K", &v).is_none());
    v = values("T");
    v.system_component = Some(1);
    assert!(read_uninstall_entry(Hive::LocalMachine, "S", "K", &v).is_none());
    v = values("T");
    v.system_component = Some(0);
    assert!(read_uninstall_entry(Hive::LocalMachine, "S", "K", &v).is_some());
    v.has_parent = true;
    assert!(read_uninstall_entry(Hive::LocalMachine, "S", "K", &v).is_none());
    let key = |name: &str| UninstallKey {
        hive: Hive::LocalMachine,
        sub: "S".into(),
        name: "K".into(),
        values: values(name),
    };
    let all = registry_uninstall_entries(&[key("A"), key(""), key("B")]);
    let names: Vec<&str> = all.iter().map(|a| a.name.as_str()).collect();
    assert_eq!(names, vec!["A", "B"]);
}

#[test]
fn uninstall_roots_name_three_places() {
    let roots = uninstall_roots();
    assert_eq!(roots.len(), 3);
    assert_eq!(roots[1].0, Hive::LocalMachine);
    assert!(roots[1].1.contains("WOW6432Node"));
    assert_eq!(roots[2].0, Hive::CurrentUser);
    assert_eq!(hive_name(Hive::LocalMachine), "HKLM");
    assert_eq!(hive_name(Hive::Other), "HK?");
}

#[test]
fn icon_references_name_files() {
    assert_eq!(parse_display_icon("C:\\x.exe,-101"), "C:\\x.exe");
    assert_eq!(parse_display_icon(" C:\\x.ico "), "C:\\x.ico");
    assert_eq!(parse_display_icon("\"C:\\x.exe\",0"), "C:\\x.exe");
}

#[test]
fn registry_values_decode() {
    let mut raw = u16s("abc");
    raw.extend([0, 120]);
    assert_eq!(reg_query_string(1, 10, &raw).as_deref(), Some("abc"));
    assert_eq!(reg_query_string(2, 10, &raw).as_deref(), Some("abc"));
    assert_eq!(reg_query_string(3, 10, &raw), None);
    assert_eq!(reg_query_string(1, 0, &[]), None);
    assert_eq!(machine_guid(1, 10, &raw).as_deref(), Some("abc"));
    assert_eq!(machine_guid(2, 10, &raw), None);
    assert_eq!(reg_query_dword(4, &[1, 2, 0, 0]), Some(513));
    assert_eq!(reg_query_dword(4, &[1, 2, 0]), None);
    assert_eq!(reg_query_dword(3, &[1, 2, 0, 0]), None);
}

fn package(name: &str, publisher: &str) -> PackageFacts {
    PackageFacts {
        full_name: format!("{name}_1"),
        framework: Some(false),
        resource: false,
        publisher: publisher.to_string(),
        store_signed: true,
        name: name.to_string(),
        version: Some((1, 20, 300, 4000)),
        install_location: "C:\\P".into(),
        family_name: "fam".into(),
    }
}

#[test]
fn packages_follow_their_rules() {
    let shown = |p: &PackageFacts| !msix_packages(std::slice::from_ref(p)).is_empty();
    let p = package("Some.App", "CN=Vendor");
    let list = msix_packages(std::slice::from_ref(&p));
    assert_eq!(list[0].id, "Some.App_1");
    assert_eq!(list[0].version, "1.20.300.4000");
    let mut q = p.clone();
    q.full_name = String::new();
    assert!(!shown(&q));
    q = p.clone();
    q.framework = Some(true);
    assert!(!shown(&q));
    q.framework = None;
    assert!(!shown(&q));
    q = p.clone();
    q.resource = true;
    assert!(!shown(&q));
    assert!(!shown(&package("X", "CN=Microsoft Windows, O=M")));
    assert!(!shown(&package("Microsoft.Runtime", "CN=Microsoft Corporation")));
    q = package("Microsoft.Runtime", "CN=Microsoft Corporation");
    q.store_signed = false;
    assert!(shown(&q));
    assert!(shown(&package("Calculator", "CN=Microsoft Corporation")));
}

#[test]
fn removals_are_polled() {
    assert!(matches!(msix_removal_step(&RemovalStatus::Completed), RemovalStep::Collect));
    assert!(matches!(msix_removal_step(&RemovalStatus::Started), RemovalStep::Wait));
    match msix_removal_step(&RemovalStatus::Other("Error".into())) {
        RemovalStep::Fail(t) => assert_eq!(t, "package removal failed (status Error)"),
        _ => panic!("expected a failure"),
    }
}

#[test]
fn usage_records_name_programs_and_times() {
    assert_eq!(folder_id("{AB-CD}\\x.exe").as_deref(), Some("AB-CD"));
    assert_eq!(folder_id("C:\\x.exe"), None);
    assert_eq!(rot13("Uryyb, Jbeyq 1"), "Hello, World 1");
    assert_eq!(rot13(&rot13("Any {text}")), "Any {text}");
    let folder = Some("C:\\Program Files".to_string());
    let resolved = |name: &str, folder: &Option<String>| resolve_known_folder_prefix(name, folder);
    assert_eq!(
        resolved("{6D80}\\App\\app.exe", &folder).as_deref(),
        Some("C:\\Program Files\\App\\app.exe")
    );
    assert_eq!(
        resolved("{6D80}/app.exe", &folder).as_deref(),
        Some("C:\\Program Files\\app.exe")
    );
    assert_eq!(resolved("{6D80}\\", &folder).as_deref(), Some("C:\\Program Files"));
    assert_eq!(resolved("{6D80}\\x", &None).as_deref(), Some("{6D80}\\x"));
    assert_eq!(resolved("C:\\x.exe", &folder).as_deref(), Some("C:\\x.exe"));
    assert_eq!(resolved("{6D80}", &folder), None);
    assert_eq!(resolved("{6D80}x.exe", &folder), None);
    let mut data = vec![0u8; 72];
    assert_eq!(userassist_last_run(&data), None);
    put(&mut data, 60, 116_444_736_000_000_000 + 70_000_000, 8);
    assert_eq!(userassist_last_run(&data), Some(7));
    assert_eq!(userassist_last_run(&data[..60]), None);
    let rows = userassist_entries(&[
        UsageRecord { decoded: "a".into(), folder: None, data: data.clone() },
        UsageRecord { decoded: "b".into(), folder: None, data: vec![] },
        UsageRecord { decoded: "{6D80}c".into(), folder: folder.clone(), data: data.clone() },
    ]);
    assert_eq!(rows, vec![("a".to_string(), 7)]);
}

#[test]
fn images_are_compared_by_folder() {
    assert_eq!(normalize_for_compare("C:/Apps/Foo\\\\"), "c:\\apps\\foo");
    assert!(image_under("C:\\Apps\\Foo\\x.exe", "c:/apps/foo/"));
    assert!(!image_under("C:\\Apps\\Foobar\\x.exe", "C:\\Apps\\Foo"));
    assert!(!image_under("C:\\x.exe", ""));
    let plan = close_processes_under(
        "C:\\Apps\\Foo",
        &[
            Some("C:\\Apps\\Foo\\a.exe".into()),
            None,
            Some("C:\\Other\\b.exe".into()),
            Some("C:\\Apps\\Foo\\a.exe".into()),
            Some("C:\\Apps\\Foo\\c.exe".into()),
        ],
    );
    assert_eq!(plan.targets, vec![0, 3, 4]);
    assert_eq!(
        plan.closed,
        vec!["C:\\Apps\\Foo\\a.exe".to_string(), "C:\\Apps\\Foo\\c.exe".to_string()]
    );
    assert_eq!(close_step(true, true), CloseStep::Done);
    assert_eq!(close_step(false, false), CloseStep::Wait);
    assert_eq!(close_step(false, true), CloseStep::Terminate);
}

#[test]
fn uninstallers_report_how_they_ended() {
    assert_eq!(uninstaller_line("  "), Err("no UninstallString".to_string()));
    assert_eq!(uninstaller_line("a b"), Ok(vec![97, 32, 98, 0]));
    assert_eq!(launch_and_wait_uninstaller(&LaunchEnd::Exited(3)), Ok(3));
    assert_eq!(
        launch_and_wait_uninstaller(&LaunchEnd::Exited(0x8000_0000)),
        Err("uninstaller exit code overflow".to_string())
    );
    assert_eq!(
        launch_and_wait_uninstaller(&LaunchEnd::TimedOut),
        Err("the uninstaller did not exit within 1 hour".to_string())
    );
    assert_eq!(
        launch_and_wait_uninstaller(&LaunchEnd::NotStarted("denied".into())),
        Err("could not launch the uninstaller: denied".to_string())
    );
}

#[test]
fn process_records_follow_their_layout() {
    let base: u64 = 0x1000;
    let mut b = vec![0u8; 3 * PROC_RECORD + 64];
    put(&mut b, 0, PROC_RECORD as u64, 4);
    put(&mut b, PROC_RECORD, PROC_RECORD as u64, 4);
    let at = PROC_RECORD;
    put(&mut b, at + 0x28, 22, 8);
    put(&mut b, at + 0x30, 11, 8);
    put(&mut b, at + 0x38, 6, 2);
    put(&mut b, at + 0x40, base + 3 * PROC_RECORD as u64, 8);
    put(&mut b, at + 0x50, 4242, 8);
    put(&mut b, at + 0x90, 99, 8);
    for (i, u) in "svc".encode_utf16().enumerate() {
        put(&mut b, 3 * PROC_RECORD + 2 * i, u as u64, 2);
    }
    let last = 2 * PROC_RECORD;
    put(&mut b, last + 0x38, 6, 2);
    put(&mut b, last + 0x40, 8, 8);
    put(&mut b, last + 0x50, 7, 8);
    let rows = process_snapshot(&b, base);
    assert_eq!(rows.len(), 2);
    assert_eq!(rows[0], (4242, "svc".to_string(), 11, 22, 99));
    assert_eq!(rows[1], (7, String::new(), 0, 0, 0));
}

#[test]
fn the_compressor_is_found_by_name() {
    let row = |pid: u32, name: &str| (pid, name.to_string(), 0, 0, 0);
    assert_eq!(
        memory_compression_pid(&vec![row(1, "x"), row(2, "MEMORY Compression"), row(3, "MemCompression")]),
        Some(2)
    );
    assert_eq!(memory_compression_pid(&vec![row(1, "x")]), None);
}

#[test]
fn networks_and_drives_are_filtered() {
    let row = |up, hardware, kind, n| IfRow { up, hardware, kind, in_octets: n, out_octets: 2 * n };
    let rows = [
        row(true, true, 6, 10),
        row(true, true, 71, 1),
        row(true, true, 24, 100),
        row(false, true, 6, 100),
        row(true, false, 6, 100),
    ];
    assert_eq!(network_octets(&rows), (11, 22));
    let mut label = u16s("Data");
    label.push(0);
    label.push(65);
    let drive = |root: &str, drive_type, space| DriveFacts {
        root: root.to_string(),
        drive_type,
        space,
        label: label.clone(),
    };
    let v = volume_samples(&[
        drive("C:\\", 3, Some((10, 4))),
        drive("D:\\", 5, Some((1, 1))),
        drive("E:\\", 2, None),
        drive("F:\\", 2, Some((8, 8))),
    ]);
    assert_eq!(v.len(), 2);
    assert_eq!((v[0].root.as_str(), v[0].label.as_str(), v[0].total, v[0].free), ("C:\\", "Data", 10, 4));
    assert_eq!(v[1].root, "F:\\");
    let m = monitor_raw(None, None, Some((9, 4)), None, Some(1), v, vec![]);
    assert_eq!((m.mem_total, m.mem_available, m.net_in, m.threads), (9, 4, 0, 0));
    assert_eq!(m.compressed_ws, Some(1));
}

#[test]
fn processor_name_from_words() {
    let mut bytes = *b"  Some CPU @ 3.00GHz                            ";
    bytes[47] = b' ';
    let mut words = [0u32; 12];
    for (i, w) in words.iter_mut().enumerate() {
        *w = u32::from_le_bytes([bytes[4 * i], bytes[4 * i + 1], bytes[4 * i + 2], bytes[4 * i + 3]]);
    }
    assert_eq!(cpuid_brand(0x8000_0004, &words).as_deref(), Some("Some CPU @ 3.00GHz"));
    assert_eq!(cpuid_brand(0x8000_0003, &words), None);
    assert_eq!(cpuid_brand(0x8000_0004, &[0x2020_2020; 12]), None);
    assert_eq!(brand_from(&[" a".to_string(), "b ".to_string()]).as_deref(), Some("ab"));
    assert_eq!(hardlink_identity(7, 1, 2), (7, (1u64 << 32) | 2));
}

#[test]
fn icons_become_png_urls() {
    assert_eq!(icon_size(16, -16), Some((16, 16)));
    assert_eq!(icon_size(16, 16), None);
    assert_eq!(icon_size(2048, -2048), None);
    assert_eq!(to_rgba(&[1, 2, 3, 4, 5, 6, 7, 8, 9]), vec![3, 2, 1, 4, 7, 6, 5, 8, 0]);
    let url = bgra_to_png(&[1, 2, 3, 255, 4, 5, 6, 255], 2, 1).unwrap();
    let body = url.strip_prefix("data:image/png;base64,").unwrap();
    assert!(body.starts_with("iVBORw0KGgo"));
    let file = unbase64(body);
    let mut reader = png::Decoder::new(std::io::Cursor::new(file)).read_info().unwrap();
    let mut out = vec![0u8; reader.output_buffer_size().unwrap()];
    let info = reader.next_frame(&mut out).unwrap();
    assert_eq!((info.width, info.height), (2, 1));
    assert_eq!(out, vec![3, 2, 1, 255, 6, 5, 4, 255]);
    assert_eq!(bgra_to_png(&[1, 2, 3, 255], 2, 1), None);
    assert_eq!(bgra_to_png(&[], 0, 1), None);
}

fn unbase64(s: &str) -> Vec<u8> {
    let value = |c: u8| -> u32 {
        match c {
            b'A'..=b'Z' => (c - b'A') as u32,
            b'a'..=b'z' => (c - b'a') as u32 + 26,
            b'0'..=b'9' => (c - b'0') as u32 + 52,
            b'+' => 62,
            _ => 63,
        }
    };
    let mut out = Vec::new();
    for q in s.as_bytes().chunks(4) {
        let pad = q.iter().filter(|c| **c == b'=').count();
        let n = q.iter().fold(0u32, |n, c| n * 64 + if *c == b'=' { 0 } else { value(*c) });
        let three = [(n >> 16) as u8, (n >> 8) as u8, n as u8];
        out.extend(&three[..3 - pad]);
    }
    out
}

#[test]
fn base64_has_known_values() {
    assert_eq!(base64_encode(b""), "");
    assert_eq!(base64_encode(b"f"), "Zg==");
    assert_eq!(base64_encode(b"fo"), "Zm8=");
    assert_eq!(base64_encode(b"foobar"), "Zm9vYmFy");
    assert_eq!(base64_encode(&[0xFB, 0xFF]), "+/8=");
}
