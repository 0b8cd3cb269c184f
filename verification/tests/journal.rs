use needle::enumerate::{Enumeration, Reply, Step};
use needle::journal::{
    decode_journal_reply, journal_lost, journal_outcome, JournalHeader, JournalRead, FILE_ATTRIBUTE_DIRECTORY,
    USN_REASON_FILE_CREATE, USN_REASON_FILE_DELETE, USN_REASON_RENAME_NEW_NAME,
};
use needle::mft::ROOT_FRN;
use needle::usn::parse_usn_records;
use needle::watch::{Action, Event, Watcher};

/// A record of version 2, padded to a multiple of eight bytes.
fn record(frn: u64, parent: u64, reason: u32, attributes: u32, units: &[u16]) -> Vec<u8> {
    let size = (60 + 2 * units.len()).max(64);
    let size = (size + 7) / 8 * 8;
    let mut bytes = Vec::new();
    bytes.extend_from_slice(&(size as u32).to_le_bytes());
    bytes.extend_from_slice(&2u16.to_le_bytes());
    bytes.extend_from_slice(&0u16.to_le_bytes());
    bytes.extend_from_slice(&frn.to_le_bytes());
    bytes.extend_from_slice(&parent.to_le_bytes());
    bytes.extend_from_slice(&[0u8; 16]);
    bytes.extend_from_slice(&reason.to_le_bytes());
    bytes.extend_from_slice(&[0u8; 8]);
    bytes.extend_from_slice(&attributes.to_le_bytes());
    bytes.extend_from_slice(&((2 * units.len()) as u16).to_le_bytes());
    bytes.extend_from_slice(&60u16.to_le_bytes());
    for unit in units {
        bytes.extend_from_slice(&unit.to_le_bytes());
    }
    bytes.resize(size, 0);
    bytes
}

fn named(frn: u64, parent: u64, reason: u32, attributes: u32, name: &str) -> Vec<u8> {
    let units: Vec<u16> = name.encode_utf16().collect();
    record(frn, parent, reason, attributes, &units)
}

fn reply(cursor: u64, records: &[Vec<u8>]) -> Vec<u8> {
    let mut bytes = cursor.to_le_bytes().to_vec();
    for r in records {
        bytes.extend_from_slice(r);
    }
    bytes
}

#[test]
fn records_are_parsed_one_after_the_other() {
    let mut buf = named(7, 5, 0x100, 0x20, "a.txt");
    buf.extend(named(8, 7, 0x200, 0x10, "Ordner"));
    let found = parse_usn_records(&buf);
    assert_eq!(found.len(), 2);
    assert_eq!(found[0].file_reference_number, 7);
    assert_eq!(found[0].parent_file_reference_number, 5);
    assert_eq!(found[0].reason, 0x100);
    assert_eq!(found[0].file_attributes, 0x20);
    assert_eq!(found[0].name, "a.txt");
    assert_eq!(found[1].file_reference_number, 8);
    assert_eq!(found[1].name, "Ordner");
}

#[test]
fn surrogates_are_paired_or_replaced() {
    let buf = record(1, 5, 0, 0, &[0x61, 0xD83D, 0xDE00, 0xDE00, 0xD83D, 0x62]);
    let found = parse_usn_records(&buf);
    assert_eq!(found[0].name, "a\u{1F600}\u{FFFD}\u{FFFD}b");
}

#[test]
fn other_versions_and_overlong_names_are_skipped() {
    let mut v3 = named(1, 5, 0, 0, "v3");
    v3[4] = 3;
    let mut long = named(2, 5, 0, 0, "long");
    long[56] = 200;
    let mut buf = v3;
    buf.extend(long);
    buf.extend(named(3, 5, 0, 0, "good"));
    let found = parse_usn_records(&buf);
    assert_eq!(found.len(), 1);
    assert_eq!(found[0].name, "good");
}

#[test]
fn parsing_ends_at_a_broken_length() {
    let mut buf = named(1, 5, 0, 0, "first");
    let at = buf.len();
    buf.extend(named(2, 5, 0, 0, "second"));
    let mut zero = buf.clone();
    zero[at..at + 4].copy_from_slice(&0u32.to_le_bytes());
    assert_eq!(parse_usn_records(&zero).len(), 1);
    let mut beyond = buf.clone();
    beyond[at..at + 4].copy_from_slice(&1000u32.to_le_bytes());
    assert_eq!(parse_usn_records(&beyond).len(), 1);
    assert_eq!(parse_usn_records(&buf).len(), 2);
    assert_eq!(parse_usn_records(&buf[..at + 63]).len(), 1);
    assert_eq!(parse_usn_records(&[]).len(), 0);
}

#[test]
fn enumeration_goes_on_until_the_end() {
    let mut e = Enumeration::new('C', 77, 1234);
    assert_eq!(e.start, 0);
    let first = reply(
        42,
        &[
            named(10, ROOT_FRN, 0, FILE_ATTRIBUTE_DIRECTORY, "src"),
            named(11, 10, 0, 0x20, "main.rs"),
        ],
    );
    match e.step(Reply::Data(&first)) {
        Step::Ask(start) => assert_eq!(start, 42),
        _ => panic!("the enumeration should go on"),
    }
    assert!(matches!(e.step(Reply::EndOfFile), Step::Finish));
    assert_eq!(e.index.drive, 'C');
    assert_eq!(e.index.journal_id, 77);
    assert_eq!(e.index.next_usn, 1234);
    assert_eq!(e.index.entries.len(), 2);
    assert!(e.index.entries[&10].is_dir);
    assert!(!e.index.entries[&11].is_dir);
    assert_eq!(e.index.full_path(11).as_deref(), Some("C:\\src\\main.rs"));
    assert_eq!(e.index.by_ext.get("rs"), Some(&vec![11u64]));
}

#[test]
fn enumeration_ends_with_a_short_reply_or_fails() {
    let mut e = Enumeration::new('C', 1, 1);
    assert!(matches!(e.step(Reply::Data(&[0; 7])), Step::Finish));
    match e.step(Reply::Failed("denied".to_string())) {
        Step::Fail(message) => assert_eq!(message, "FSCTL_ENUM_USN_DATA failed: denied"),
        _ => panic!("the enumeration should fail"),
    }
}

#[test]
fn journal_is_lost_when_it_cannot_tell() {
    let header = JournalHeader { journal_id: 5, lowest_valid_usn: 100 };
    assert!(!journal_lost(Some(header), 5, 100));
    assert!(journal_lost(Some(header), 5, 99));
    assert!(journal_lost(Some(header), 6, 100));
    assert!(journal_lost(None, 5, 100));
}

#[test]
fn journal_reply_is_decoded() {
    let bytes = reply(
        900,
        &[
            named(1, ROOT_FRN, USN_REASON_FILE_CREATE, 0, "new.rs"),
            named(2, ROOT_FRN, 0x1, 0, "written.rs"),
            named(3, ROOT_FRN, USN_REASON_RENAME_NEW_NAME, 0x10, "renamed"),
            named(4, ROOT_FRN, USN_REASON_FILE_DELETE | USN_REASON_FILE_CREATE, 0, "gone.rs"),
        ],
    );
    match decode_journal_reply(Some(&bytes), 500) {
        JournalRead::Batch { next, updates } => {
            assert_eq!(next, 900);
            assert_eq!(updates.len(), 3);
            assert_eq!((updates[0].frn, updates[0].is_delete), (1, false));
            assert_eq!(updates[0].parent, ROOT_FRN);
            assert_eq!((updates[1].frn, updates[1].is_dir), (3, true));
            assert_eq!((updates[2].frn, updates[2].is_delete), (4, true));
            assert_eq!(updates[2].parent, 0);
            assert_eq!(updates[2].name, "gone.rs");
        }
        JournalRead::Stale => panic!("the journal is not stale"),
    }
}

#[test]
fn short_and_failed_journal_replies() {
    match decode_journal_reply(Some(&[1, 2, 3]), 500) {
        JournalRead::Batch { next, updates } => {
            assert_eq!(next, 500);
            assert!(updates.is_empty());
        }
        JournalRead::Stale => panic!("a short reply is not stale"),
    }
    assert!(matches!(decode_journal_reply(None, 500), JournalRead::Stale));
}

#[test]
fn negative_cursor_is_read_as_such() {
    match decode_journal_reply(Some(&(-2i64).to_le_bytes()), 0) {
        JournalRead::Batch { next, .. } => assert_eq!(next, -2),
        JournalRead::Stale => panic!("the journal is not stale"),
    }
}

#[test]
fn journal_updates_are_applied() {
    let mut index = Enumeration::new('C', 5, 100).index;
    index.add_indexed(4, ROOT_FRN, "gone.rs".into(), false);
    let header = Some(JournalHeader { journal_id: 5, lowest_valid_usn: 0 });
    let bytes = reply(
        200,
        &[
            named(1, ROOT_FRN, USN_REASON_FILE_CREATE, 0, "new.rs"),
            named(2, ROOT_FRN, 0x1, 0, "written.rs"),
            named(4, ROOT_FRN, USN_REASON_FILE_DELETE, 0, "gone.rs"),
        ],
    );
    assert_eq!(index.apply_journal_updates(header, Some(&bytes)), Ok(3));
    assert_eq!(index.next_usn, 200);
    assert_eq!(index.by_ext.get("rs"), Some(&vec![1u64]));
    assert!(!index.entries.contains_key(&4));
    let other = Some(JournalHeader { journal_id: 6, lowest_valid_usn: 0 });
    assert_eq!(index.apply_journal_updates(other, Some(&bytes)), Err(()));
    assert_eq!(index.apply_journal_updates(header, None), Err(()));
    assert_eq!(index.apply_journal_updates(header, Some(&[0; 4])), Ok(0));
    assert_eq!(index.next_usn, 200);
}

#[test]
fn two_batches_come_to_what_one_does() {
    let a = named(1, ROOT_FRN, USN_REASON_FILE_CREATE, 0, "a.rs");
    let b = named(1, ROOT_FRN, USN_REASON_RENAME_NEW_NAME, 0, "b.md");
    let header = Some(JournalHeader { journal_id: 5, lowest_valid_usn: 0 });
    let mut once = Enumeration::new('C', 5, 0).index;
    once.apply_journal_updates(header, Some(&reply(20, &[a.clone(), b.clone()]))).unwrap();
    let mut twice = Enumeration::new('C', 5, 0).index;
    twice.apply_journal_updates(header, Some(&reply(10, &[a]))).unwrap();
    twice.apply_journal_updates(header, Some(&reply(20, &[b]))).unwrap();
    assert_eq!(once.next_usn, twice.next_usn);
    assert_eq!(once.by_ext.get("rs"), twice.by_ext.get("rs"));
    assert_eq!(once.by_ext.get("md"), twice.by_ext.get("md"));
    assert_eq!(once.full_path(1), twice.full_path(1));
}

#[test]
fn watch_applies_batches_and_reads_on() {
    let mut index = Enumeration::new('C', 5, 100).index;
    let mut watcher = Watcher::new(&index);
    match watcher.step(&mut index, Event::Opened) {
        Action::Read { journal_id, start_usn, pause_ms } => {
            assert_eq!((journal_id, start_usn, pause_ms), (5, 100, 0));
        }
        _ => panic!("the journal should be read"),
    }
    let bytes = reply(150, &[named(1, ROOT_FRN, USN_REASON_FILE_CREATE, 0, "new.rs")]);
    let read = decode_journal_reply(Some(&bytes), 100);
    match watcher.step(&mut index, Event::Read(read)) {
        Action::Read { start_usn, pause_ms, .. } => assert_eq!((start_usn, pause_ms), (150, 0)),
        _ => panic!("the journal should be read on"),
    }
    assert_eq!(index.next_usn, 150);
    assert_eq!(index.full_path(1).as_deref(), Some("C:\\new.rs"));
    let nothing = JournalRead::Batch { next: 150, updates: Vec::new() };
    match watcher.step(&mut index, Event::Read(nothing)) {
        Action::Read { start_usn, pause_ms, .. } => assert_eq!((start_usn, pause_ms), (150, 200)),
        _ => panic!("the journal should be read on"),
    }
    let moved = JournalRead::Batch { next: 160, updates: Vec::new() };
    match watcher.step(&mut index, Event::Read(moved)) {
        Action::Read { start_usn, pause_ms, .. } => assert_eq!((start_usn, pause_ms), (160, 0)),
        _ => panic!("the journal should be read on"),
    }
    assert_eq!(index.next_usn, 160);
}

#[test]
fn stale_journal_heals() {
    let mut index = Enumeration::new('C', 5, 100).index;
    index.add_indexed(1, ROOT_FRN, "old.rs".into(), false);
    let mut watcher = Watcher::new(&index);
    assert!(matches!(
        watcher.step(&mut index, Event::Read(JournalRead::Stale)),
        Action::Rebuild
    ));
    assert_eq!(index.entries.len(), 1);
    let fresh = Enumeration::new('C', 6, 7).index;
    match watcher.step(&mut index, Event::Rebuilt(fresh)) {
        Action::Read { journal_id, start_usn, pause_ms } => {
            assert_eq!((journal_id, start_usn, pause_ms), (6, 7, 0));
        }
        _ => panic!("the fresh journal should be read"),
    }
    assert_eq!(index.entries.len(), 0);
    assert_eq!((watcher.journal_id, watcher.next_usn), (6, 7));
}

#[test]
fn failures_reopen_the_volume() {
    let mut index = Enumeration::new('C', 5, 100).index;
    let mut watcher = Watcher::new(&index);
    for event in [Event::Unavailable, Event::ReadFailed, Event::RebuildFailed] {
        match watcher.step(&mut index, event) {
            Action::Reopen { pause_ms } => assert_eq!(pause_ms, 2000),
            _ => panic!("the volume should be opened again"),
        }
    }
    assert_eq!((watcher.journal_id, watcher.next_usn), (5, 100));
}

#[test]
fn last_change_counts() {
    let mut index = Enumeration::new('C', 5, 0).index;
    index.add_indexed(9, ROOT_FRN, "kept.rs".into(), false);
    let header = Some(JournalHeader { journal_id: 5, lowest_valid_usn: 0 });
    let bytes = reply(
        10,
        &[
            named(1, ROOT_FRN, USN_REASON_FILE_CREATE, 0, "a.rs"),
            named(1, ROOT_FRN, USN_REASON_FILE_DELETE, 0, "a.rs"),
            named(1, ROOT_FRN, USN_REASON_FILE_CREATE, 0, "b.rs"),
            named(2, ROOT_FRN, USN_REASON_FILE_CREATE, 0, "c.rs"),
            named(2, ROOT_FRN, USN_REASON_FILE_DELETE, 0, "c.rs"),
        ],
    );
    index.apply_journal_updates(header, Some(&bytes)).unwrap();
    assert_eq!(index.full_path(1).as_deref(), Some("C:\\b.rs"));
    assert_eq!(index.full_path(2), None);
    assert_eq!(index.full_path(9).as_deref(), Some("C:\\kept.rs"));
    assert_eq!(index.by_ext.get("rs"), Some(&vec![9u64, 1]));
}

#[test]
fn lost_journal_is_stale_whatever_was_read() {
    let header = Some(JournalHeader { journal_id: 5, lowest_valid_usn: 100 });
    let bytes = reply(150, &[named(1, ROOT_FRN, USN_REASON_FILE_CREATE, 0, "new.rs")]);
    assert!(matches!(journal_outcome(header, 5, 99, Some(&bytes)), JournalRead::Stale));
    assert!(matches!(journal_outcome(None, 5, 100, Some(&bytes)), JournalRead::Stale));
    assert!(matches!(journal_outcome(header, 5, 100, None), JournalRead::Stale));
    match journal_outcome(header, 5, 100, Some(&bytes)) {
        JournalRead::Batch { next, updates } => assert_eq!((next, updates.len()), (150, 1)),
        JournalRead::Stale => panic!("the journal is not stale"),
    }
}
