use needle::ipc::err_response;
use needle::report::{
    bench_head, bench_patterns, bench_root, bench_row, find_failure, find_summary, index_summary,
    query_summary, unreachable_daemon, BENCH_MAX_RESULTS,
};
use needle::service::{react, Control, Removal, Status, Uninstall, SERVICE_NAME};
use needle::text::is_blank;
use needle::volume::{
    drive_present, is_ntfs, ntfs_drives, open_failure, volume_device, volume_root, VolumeInfo,
};

fn volume(drive_type: u32, name: &str) -> VolumeInfo {
    let mut units: Vec<u16> = name.encode_utf16().collect();
    units.push(0);
    units.push(0x58);
    VolumeInfo { drive_type, fs_name: Some(units) }
}

#[test]
fn names_of_volumes() {
    assert_eq!(volume_device('c'), "\\\\.\\C:");
    assert_eq!(volume_root('D'), "D:\\");
    assert_eq!(
        open_failure('c'),
        "failed to open volume \\\\.\\c: (needs admin privileges, must be an NTFS volume)"
    );
}

#[test]
fn ntfs_volumes_are_fixed_or_removable() {
    assert!(is_ntfs(&volume(3, "NTFS")));
    assert!(is_ntfs(&volume(2, "ntfs")));
    assert!(!is_ntfs(&volume(4, "NTFS")));
    assert!(!is_ntfs(&volume(3, "FAT32")));
    assert!(!is_ntfs(&volume(3, "")));
    assert!(!is_ntfs(&VolumeInfo { drive_type: 3, fs_name: None }));
    let unterminated = "NTFS".encode_utf16().collect();
    assert!(is_ntfs(&VolumeInfo { drive_type: 3, fs_name: Some(unterminated) }));
}

#[test]
fn drives_come_in_order() {
    let mut infos: Vec<VolumeInfo> = (0..26).map(|_| volume(3, "NTFS")).collect();
    infos[3] = volume(3, "exFAT");
    let mask = (1 << 2) | (1 << 3) | (1 << 0) | (1 << 25);
    assert_eq!(ntfs_drives(mask, &infos), vec!['A', 'C', 'Z']);
    assert_eq!(ntfs_drives(0, &infos), Vec::<char>::new());
    assert_eq!(ntfs_drives(u32::MAX, &infos).len(), 25);
    assert!(drive_present(4, 2));
    assert!(!drive_present(4, 1));
}

#[test]
fn summaries() {
    assert_eq!(
        query_summary("C", 100, 20, true, "1.5"),
        "[needle] drive C scanned 100 returned 20 (truncated) in 1.5ms"
    );
    assert_eq!(
        query_summary("CD", 0, 0, false, "0.1"),
        "[needle] drive CD scanned 0 returned 0 in 0.1ms"
    );
    let mut response = err_response("x");
    response.drive = "C".to_string();
    response.returned = 3;
    response.scanned = 2265224;
    assert_eq!(
        find_summary(&response, "0.85"),
        "[needle] 3 match(es) in 0.85ms (scanned 2265224 on drive C)"
    );
    response.truncated = true;
    assert_eq!(
        find_summary(&response, "0.85"),
        "[needle] 3 match(es) (truncated) in 0.85ms (scanned 2265224 on drive C)"
    );
    assert_eq!(
        index_summary(usize::MAX, 'c', "4.30"),
        format!("[needle] indexed {} entries on drive c in 4.30s", usize::MAX)
    );
    assert_eq!(
        unreachable_daemon("a:1", "refused"),
        "cannot reach daemon at a:1: refused. Start it with: needle serve (as admin)"
    );
}

#[test]
fn daemon_failures() {
    let mut response = err_response("nope");
    assert_eq!(find_failure(&response).as_deref(), Some("nope"));
    response.error = None;
    assert_eq!(find_failure(&response).as_deref(), Some("daemon error"));
    response.ok = true;
    assert_eq!(find_failure(&response), None);
}

#[test]
fn benchmark_texts() {
    assert_eq!(bench_root('d'), "D:\\");
    assert_eq!(bench_patterns().len(), 5);
    assert_eq!(bench_patterns()[3], "**/package.json");
    assert_eq!(BENCH_MAX_RESULTS, 1_000_000);
    assert_eq!(
        bench_head('c', 12, "4300", "4.30"),
        "## Benchmark (drive C)\n\nIndexed **12** entries in **4300 ms** (4.30 s).\n\n| query (whole volume) | matches | time |\n|----------------------|---------|------|"
    );
    assert_eq!(bench_row("**/*.rs", 601, "0.85"), "| `**/*.rs` | 601 | 0.85 ms |");
}

#[test]
fn blank_lines() {
    assert!(is_blank(""));
    assert!(is_blank(" \t\n\u{a0}\u{2028}"));
    assert!(!is_blank(" x "));
    assert!(!is_blank("\u{200b}"));
    for code in 0..0x11_0000u32 {
        if let Some(c) = char::from_u32(code) {
            let listed = matches!(
                code,
                0x9..=0xd | 0x20 | 0x85 | 0xa0 | 0x1680 | 0x2000..=0x200a | 0x2028 | 0x2029 | 0x202f | 0x205f | 0x3000
            );
            assert_eq!(is_blank(&c.to_string()), listed);
        }
    }
}

#[test]
fn service_reacts_to_controls() {
    assert_eq!(SERVICE_NAME, "needled");
    for (control, ends, known) in [
        (Control::Stop, true, true),
        (Control::Shutdown, true, true),
        (Control::Interrogate, false, true),
        (Control::Other, false, false),
    ] {
        let reaction = react(control);
        assert_eq!((reaction.ends, reaction.known), (ends, known));
    }
}

#[test]
fn uninstall_waits_for_the_service() {
    assert!(matches!(Uninstall::begin(Status::Stopped).1, Removal::Delete));
    assert!(matches!(Uninstall::begin(Status::Unknown).1, Removal::Delete));
    let (mut uninstall, first) = Uninstall::begin(Status::Active);
    assert!(matches!(first, Removal::Stop { pause_ms: 100 }));
    for _ in 0..19 {
        assert!(matches!(uninstall.polled(Status::Active), Removal::Poll { pause_ms: 100 }));
    }
    assert!(matches!(uninstall.polled(Status::Unknown), Removal::Delete));
    let (mut uninstall, _) = Uninstall::begin(Status::Active);
    assert!(matches!(uninstall.polled(Status::Stopped), Removal::Delete));
}
