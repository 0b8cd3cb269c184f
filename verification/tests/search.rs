use needle::engine::{DriveReply, Engine, QueryError};
use needle::gitignore::{build_gitignore, is_left_out};
use needle::journal::{JournalHeader, JournalRead};
use needle::machine::{merge, scope_of, usable_drives, Attempt, Scope};
use needle::mft::{Index, ROOT_FRN};
use needle::search::{drive_of, normalize_prefix, row_for, Hit, Matcher, Query, Tally};
use needle::watch::{Action, Event, Watcher};

fn query<'a>(root: &'a str, pattern: &'a str) -> Query<'a> {
    Query { root, pattern, max_results: 200, respect_gitignore: true }
}

/// C:\proj with sources, a `.git` directory and build output, and C:\project2.
fn sample(drive: char) -> Index {
    let mut index = Index { drive, ..Default::default() };
    index.add_indexed(10, ROOT_FRN, "proj".into(), true);
    index.add_indexed(11, 10, "src".into(), true);
    index.add_indexed(12, 11, "main.rs".into(), false);
    index.add_indexed(13, 11, "LIB.RS".into(), false);
    index.add_indexed(14, 10, "Cargo.toml".into(), false);
    index.add_indexed(15, 10, ".git".into(), true);
    index.add_indexed(16, 15, "config.rs".into(), false);
    index.add_indexed(17, 10, "target".into(), true);
    index.add_indexed(18, 17, "out.rs".into(), false);
    index.add_indexed(19, 10, ".rs".into(), false);
    index.add_indexed(20, ROOT_FRN, "project2".into(), true);
    index.add_indexed(21, 20, "other.rs".into(), false);
    index
}

fn engine() -> Engine {
    let mut engine = Engine::new();
    assert_eq!(engine.warm('C', Ok(sample('C'))), Ok(()));
    engine
}

fn lines(text: &str) -> Vec<String> {
    text.lines().map(|l| l.to_string()).collect()
}

fn paths(engine: &Engine, q: &Query, ignored: &str) -> Vec<String> {
    match engine.query(q, &lines(ignored)) {
        Ok((hits, stats)) => {
            assert_eq!(stats.returned, hits.len());
            let mut paths: Vec<String> = hits.into_iter().map(|h| h.path).collect();
            paths.sort();
            paths
        }
        Err(e) => vec![e.message()],
    }
}

#[test]
fn drive_letters() {
    assert_eq!(drive_of("d:\\foo"), Some('D'));
    assert_eq!(drive_of("C:"), Some('C'));
    assert_eq!(drive_of("C"), None);
    assert_eq!(drive_of(""), None);
    assert_eq!(drive_of("1:\\"), None);
    assert_eq!(drive_of("\\\\server"), None);
}

#[test]
fn prefixes_are_lowercased_and_trimmed() {
    assert_eq!(normalize_prefix("C:\\Foo\\"), "c:\\foo");
    assert_eq!(normalize_prefix("C:\\Foo/\\//"), "c:\\foo");
    assert_eq!(normalize_prefix("C:\\"), "c:");
    assert_eq!(normalize_prefix(""), "");
    assert_eq!(normalize_prefix("/\\"), "");
    assert_eq!(normalize_prefix("C:\\ÄB"), "c:\\Äb");
}

#[test]
fn extension_pinned_glob_uses_the_inverted_index() {
    let engine = engine();
    let (hits, stats) = match engine.query(&query("C:\\proj", "**/*.rs"), &vec![]) {
        Ok(answer) => answer,
        Err(_) => panic!("the query should run"),
    };
    let found: Vec<&str> = hits.iter().map(|h| h.path.as_str()).collect();
    assert_eq!(
        found,
        vec![
            "C:\\proj\\src\\main.rs",
            "C:\\proj\\src\\LIB.RS",
            "C:\\proj\\target\\out.rs",
            "C:\\proj\\.rs",
        ]
    );
    // Six records of twelve have or are the extension.
    assert_eq!(stats.scanned, 6);
    assert_eq!(stats.drive, 'C');
    assert!(!stats.truncated);
}

#[test]
fn scan_finds_what_the_inverted_index_does() {
    let engine = engine();
    let pinned = paths(&engine, &query("C:\\proj", "**/*.rs"), "");
    // `[s]` is no fixed extension, so that all records are looked at.
    let scanned = paths(&engine, &query("C:\\proj", "**/*.r[s]"), "");
    assert_eq!(pinned, scanned);
    assert_eq!(pinned.len(), 4);
}

#[test]
fn other_patterns_look_at_all_records() {
    let engine = engine();
    let (hits, stats) = match engine.query(&query("C:\\proj", "**/cargo.*"), &vec![]) {
        Ok(answer) => answer,
        Err(_) => panic!("the query should run"),
    };
    assert_eq!(hits.len(), 1);
    assert_eq!(hits[0].path, "C:\\proj\\Cargo.toml");
    assert!(!hits[0].is_dir);
    assert_eq!(stats.scanned, 12);
}

#[test]
fn patterns_are_relative_to_the_root() {
    let engine = engine();
    assert_eq!(
        paths(&engine, &query("C:\\proj", "src/*.rs"), ""),
        vec!["C:\\proj\\src\\LIB.RS", "C:\\proj\\src\\main.rs"]
    );
    assert_eq!(
        paths(&engine, &query("c:\\PROJ\\SRC\\", "main.rs"), ""),
        vec!["C:\\proj\\src\\main.rs"]
    );
    assert_eq!(
        paths(&engine, &query("C:\\proj", "src\\main.rs"), ""),
        vec!["C:\\proj\\src\\main.rs"]
    );
}

#[test]
fn root_itself_is_not_found() {
    let engine = engine();
    let found = paths(&engine, &query("C:\\proj\\src", "**"), "");
    assert_eq!(found, vec!["C:\\proj\\src\\LIB.RS", "C:\\proj\\src\\main.rs"]);
}

#[test]
fn root_ends_at_a_directory_boundary() {
    let engine = engine();
    let found = paths(&engine, &query("C:\\proj", "**/other.rs"), "");
    assert!(found.is_empty());
    assert_eq!(
        paths(&engine, &query("C:\\project2", "**/other.rs"), ""),
        vec!["C:\\project2\\other.rs"]
    );
}

#[test]
fn drive_root_holds_everything() {
    let engine = engine();
    assert_eq!(paths(&engine, &query("C:\\", "**/*.rs"), "").len(), 5);
    assert_eq!(paths(&engine, &query("C:", "**"), "").len(), 10);
}

#[test]
fn git_is_never_found_below_a_root() {
    let engine = engine();
    let found = paths(&engine, &query("C:\\proj", "**"), "");
    assert!(found.iter().all(|p| !p.contains(".git")));
    assert_eq!(found.len(), 7);
    let mut q = query("C:\\proj", "**");
    q.respect_gitignore = false;
    let found = paths(&engine, &q, "");
    assert_eq!(found.len(), 9);
    assert!(found.contains(&"C:\\proj\\.git\\config.rs".to_string()));
}

#[test]
fn ignored_directories_are_left_out_with_what_is_in_them() {
    let engine = engine();
    let found = paths(&engine, &query("C:\\proj", "**"), "target/\n*.toml\n");
    assert_eq!(
        found,
        vec![
            "C:\\proj\\.rs",
            "C:\\proj\\src",
            "C:\\proj\\src\\LIB.RS",
            "C:\\proj\\src\\main.rs",
        ]
    );
}

#[test]
fn ignore_rules_take_back_and_do_not_apply_without_a_root() {
    let engine = engine();
    // Unlike patterns, ignore rules tell upper from lower case.
    let found = paths(&engine, &query("C:\\proj", "**/*.rs"), "*.rs\n!main.rs\n");
    assert_eq!(found, vec!["C:\\proj\\src\\LIB.RS", "C:\\proj\\src\\main.rs"]);
    assert_eq!(paths(&engine, &query("", "**/*.rs"), "*.rs").len(), 6);
}

#[test]
fn byte_order_mark_of_the_ignore_file_is_dropped() {
    let engine = engine();
    let found = paths(&engine, &query("C:\\proj", "**/*.toml"), "\u{FEFF}*.toml\n");
    assert!(found.is_empty());
}

#[test]
fn cap_cuts_off() {
    let engine = engine();
    let mut q = query("C:\\proj", "**/*.rs");
    q.max_results = 2;
    let (hits, stats) = match engine.query(&q, &vec![]) {
        Ok(answer) => answer,
        Err(_) => panic!("the query should run"),
    };
    assert_eq!(hits.len(), 2);
    assert!(stats.truncated);
    assert_eq!(stats.scanned, 2);
    q.max_results = 0;
    let (hits, stats) = match engine.query(&q, &vec![]) {
        Ok(answer) => answer,
        Err(_) => panic!("the query should run"),
    };
    assert!(hits.is_empty());
    assert!(stats.truncated);
    assert_eq!(stats.scanned, 1);
}

#[test]
fn cap_of_zero_tells_whether_there_is_a_match() {
    let engine = engine();
    let ask = |pattern: &str| {
        let mut q = query("C:\\proj", pattern);
        q.max_results = 0;
        match engine.query(&q, &vec![]) {
            Ok((hits, stats)) => (hits.len(), stats.returned, stats.scanned, stats.truncated),
            Err(_) => panic!("the query should run"),
        }
    };
    assert_eq!(ask("**/*.nothing"), (0, 0, 0, false));
    assert_eq!(ask("**/nothing*"), (0, 0, 12, false));
    assert_eq!(ask("**/*.rs"), (0, 0, 1, true));
    let (rows, returned, scanned, truncated) = ask("**/main*");
    assert_eq!((rows, returned, truncated), (0, 0, true));
    assert!(1 <= scanned && scanned <= 12);

    let mut machine = Engine::new();
    assert_eq!(machine.warm('C', Ok(sample('C'))), Ok(()));
    assert_eq!(machine.warm('D', Ok(sample('D'))), Ok(()));
    match machine.query_all("**/nothing*", 0, &vec!['C', 'D']) {
        Ok(parts) => {
            let answer = merge(parts);
            assert!(answer.hits.is_empty() && !answer.truncated);
            assert_eq!(answer.scanned, 24);
        }
        Err(_) => panic!("the query should run"),
    }
    match machine.query_all("**/main.rs", 0, &vec!['C', 'D']) {
        Ok(parts) => {
            let answer = merge(parts);
            assert!(answer.hits.is_empty() && answer.truncated);
            assert_eq!(answer.scanned, 1);
        }
        Err(_) => panic!("the query should run"),
    }
}

#[test]
fn only_records_are_counted_as_looked_at() {
    let mut index = Index { drive: 'C', ..Default::default() };
    index.add_indexed(7, ROOT_FRN, "lib.rs".into(), false);
    index.remove_indexed(7, "a.txt");
    assert!(index.entries.is_empty());
    index.add_indexed(8, ROOT_FRN, "main.rs".into(), false);
    let mut engine = Engine::new();
    assert_eq!(engine.warm('C', Ok(index)), Ok(()));
    assert_eq!(engine.entry_count(), 1);
    match engine.query(&query("", "**/*.rs"), &vec![]) {
        Ok((hits, stats)) => {
            assert_eq!(hits.len(), 1);
            assert_eq!((stats.returned, stats.scanned, stats.truncated), (1, 1, false));
        }
        Err(_) => panic!("the query should run"),
    }
    let mut q = query("", "**/*.rs");
    for max in 1..4 {
        q.max_results = max;
        match engine.query(&q, &vec![]) {
            Ok((hits, stats)) => {
                assert_eq!(stats.truncated, hits.len() == max);
                assert!(stats.returned <= stats.scanned && stats.scanned <= engine.entry_count());
            }
            Err(_) => panic!("the query should run"),
        }
    }
}

#[test]
fn deep_alternatives_are_refused() {
    let nested = |depth: usize| format!("{}a{}", "{".repeat(depth), "}".repeat(depth));
    let refusal = |pattern: &str| match Matcher::new(&query("", pattern), &vec![]) {
        Ok(_) => None,
        Err(message) => Some(message),
    };
    assert_eq!(refusal(&nested(100)), None);
    let message = "error parsing glob: alternates are nested too deeply";
    assert_eq!(refusal(&nested(251)), Some(message.to_string()));
    assert_eq!(refusal(&nested(100_000)), Some(message.to_string()));
    assert_eq!(refusal(&"{".repeat(300)), Some(message.to_string()));
    assert_eq!(refusal(&"{a,b}".repeat(300)), None);
    assert_eq!(refusal(&"[{]".repeat(300)), None);
    match engine().query(&query("C:\\proj", &nested(100_000)), &vec![]) {
        Err(QueryError::BadPattern(text)) => assert_eq!(text, message),
        _ => panic!("the pattern should be refused"),
    }
}

#[test]
fn ignore_lines_that_cannot_be_used_are_passed_over() {
    let engine = engine();
    let q = query("C:\\proj", "**/*.toml");
    let found = vec!["C:\\proj\\Cargo.toml".to_string()];
    assert_eq!(paths(&engine, &q, "**\\Cargo.toml\n"), found);
    assert_eq!(paths(&engine, &q, "\\**\n"), found);
    let deep = format!("{}Cargo.toml{}\n", "{".repeat(251), "}".repeat(251));
    assert_eq!(paths(&engine, &q, &deep), found);
    let deeper = format!("{}a{}\n", "{".repeat(100_000), "}".repeat(100_000));
    assert_eq!(paths(&engine, &q, &deeper), found);
    assert!(paths(&engine, &q, &format!("{}*.toml\n", deeper)).is_empty());
    assert!(paths(&engine, &q, "**/Cargo.toml\n").is_empty());
    assert!(paths(&engine, &q, "{Cargo,Other}.toml\n").is_empty());
    assert!(paths(&engine, &q, "\\Cargo.toml\n").is_empty());
}

#[test]
fn rules_are_asked_about_neat_paths() {
    let rules = match build_gitignore(&lines("/out\n*.log\nonly/\n")) {
        Some(rules) => rules,
        None => panic!("the rules should build"),
    };
    assert!(is_left_out(&rules, "out", true));
    assert!(is_left_out(&rules, "out/", true));
    assert!(is_left_out(&rules, "out/.", true));
    assert!(is_left_out(&rules, "./out", true));
    assert!(is_left_out(&rules, "/out//./", true));
    assert!(is_left_out(&rules, "out/deep/file", false));
    assert!(!is_left_out(&rules, "in/out", true));
    assert!(is_left_out(&rules, "in/a.log", false));
    assert!(is_left_out(&rules, "only", true));
    assert!(!is_left_out(&rules, "only", false));
    assert!(is_left_out(&rules, "only/", false));
    assert!(!is_left_out(&rules, "", false));
    assert!(!is_left_out(&rules, "/", true));
    assert!(!is_left_out(&rules, "././.", true));
    assert!(!is_left_out(&rules, ".a", false));
    assert!(!is_left_out(&rules, "a.", false));
}

#[test]
fn spelling_of_ranges() {
    let index = sample('C');
    let find = |pattern: &str| match Matcher::new(&query("", pattern), &vec![]) {
        Ok(matcher) => {
            let mut found: Vec<String> =
                matcher.find(&index, 200).hits.into_iter().map(|h| h.path).collect();
            found.sort();
            found
        }
        Err(message) => vec![message],
    };
    assert_eq!(find("**/[l-m]*.rs"), find("**/[L-M]*.RS"));
    assert_eq!(find("**/[l-m]*.rs").len(), 2);
    assert_eq!(find("**/[!a-l]*.toml"), find("**/[!A-L]*.toml"));
    assert_eq!(find("**/[a-f-m]*.rs"), find("**/[A-F-M]*.rs"));
    assert_eq!(find("**/[c-]*.toml"), find("**/[C-]*.toml"));
    assert!(Matcher::new(&query("", "[Z-a]"), &vec![]).is_ok());
    assert!(Matcher::new(&query("", "[z-a]"), &vec![]).is_err());
}

#[test]
fn count_grows_by_a_new_index_only() {
    let mut engine = Engine::new();
    assert_eq!(engine.entry_count(), 0);
    assert_eq!(engine.warm('C', Ok(sample('C'))), Ok(()));
    assert_eq!(engine.entry_count(), 12);
    assert_eq!(engine.warm('c', Ok(Index::default())), Ok(()));
    assert_eq!(engine.entry_count(), 12);
    assert_eq!(engine.warm('D', Ok(sample('D'))), Ok(()));
    assert_eq!(engine.entry_count(), 24);
    assert_eq!(engine.warm('E', Err("no volume".to_string())), Err("no volume".to_string()));
    assert_eq!(engine.entry_count(), 24);
}

#[test]
fn bad_patterns_are_refused() {
    let engine = engine();
    match engine.query(&query("C:\\proj", "**/*.{rs"), &vec![]) {
        Err(QueryError::BadPattern(message)) => {
            assert!(message.contains("unclosed alternate group"), "{}", message)
        }
        _ => panic!("the pattern should be refused"),
    }
    assert!(Matcher::new(&query("", "[z-a]"), &vec![]).is_err());
    assert!(Matcher::new(&query("", "[a-z]"), &vec![]).is_ok());
}

#[test]
fn missing_drive_is_reported() {
    let engine = engine();
    match engine.query(&query("D:\\x", "**"), &vec![]) {
        Err(e) => assert_eq!(e.message(), "drive not indexed"),
        Ok(_) => panic!("the drive is not indexed"),
    }
}

#[test]
fn queries_without_a_drive_search_c() {
    let engine = engine();
    assert_eq!(paths(&engine, &query("", "**/cargo.toml"), ""), vec!["C:\\proj\\Cargo.toml"]);
}

#[test]
fn records_are_examined_one_by_one() {
    let index = sample('C');
    let matcher = match Matcher::new(&query("C:\\proj", "**/*.rs"), &lines("target/")) {
        Ok(matcher) => matcher,
        Err(message) => panic!("{}", message),
    };
    assert_eq!(matcher.examine(&index, 12).map(|h| h.path).as_deref(), Some("C:\\proj\\src\\main.rs"));
    assert!(matcher.examine(&index, 18).is_none());
    assert!(matcher.examine(&index, 99).is_none());
    let found = matcher.search(&index, &vec![18, 13, 12, 12], 2);
    assert_eq!(found.scanned, 3);
    assert!(found.truncated);
    assert_eq!(found.hits[0].path, "C:\\proj\\src\\LIB.RS");
    let found = matcher.scan(&index, 100);
    assert_eq!((found.hits.len(), found.scanned, found.truncated), (3, 12, false));
}

#[test]
fn unknown_parent_is_not_found() {
    let mut index = Index { drive: 'C', ..Default::default() };
    index.add_indexed(1, 99, "lost.rs".into(), false);
    let mut engine = Engine::new();
    engine.warm('C', Ok(index)).unwrap();
    assert!(paths(&engine, &query("", "**/*.rs"), "").is_empty());
}

#[test]
fn engine_builds_a_drive_once() {
    let mut engine = Engine::new();
    assert!(!engine.is_indexed('C'));
    assert_eq!(
        engine.ensure_drive('C', Err("no admin".to_string())),
        Err("no admin".to_string())
    );
    assert_eq!(engine.ensure_drive('C', Ok(sample('C'))), Ok(()));
    assert_eq!(engine.ensure_drive('C', Ok(Index::default())), Ok(()));
    assert_eq!(engine.entry_count(), 12);
    assert_eq!(engine.warm('D', Ok(Index::default())), Ok(()));
    assert_eq!(engine.entry_count(), 12);
    let mut drives = engine.drives();
    drives.sort();
    assert_eq!(drives, vec!['C', 'D']);
    assert_eq!(engine.cursor('C'), Some((0, 0)));
    assert_eq!(engine.cursor('E'), None);
}

#[test]
fn replies_refresh_their_drives_only() {
    let mut engine = engine();
    engine.warm('D', Ok(sample('D'))).unwrap();
    let mut bytes = 300i64.to_le_bytes().to_vec();
    let mut record = vec![0u8; 64];
    record[0] = 64;
    record[4] = 2;
    record[8] = 12;
    record[41] = 2; // deleted
    bytes.append(&mut record);
    let header = Some(JournalHeader { journal_id: 0, lowest_valid_usn: 0 });
    let total = engine.refresh_all(&vec![
        DriveReply { drive: 'c', start_usn: 0, header, reply: Some(bytes.clone()) },
        DriveReply { drive: 'C', start_usn: 0, header, reply: Some(bytes.clone()) },
        DriveReply { drive: 'D', start_usn: 0, header: None, reply: Some(bytes.clone()) },
        DriveReply { drive: 'D', start_usn: 7, header, reply: Some(bytes.clone()) },
        DriveReply { drive: 'E', start_usn: 0, header, reply: Some(bytes) },
    ]);
    // The second reply for C was read before the first one moved the index.
    assert_eq!(total, 1);
    assert_eq!(engine.entry_count(), 11 + 12);
    assert_eq!(engine.cursor('C'), Some((0, 300)));
    assert_eq!(engine.cursor('D'), Some((0, 0)));
    assert!(!engine.is_indexed('E'));
}

#[test]
fn watch_of_a_drive_works_on_its_index() {
    let mut engine = engine();
    let mut watcher = Watcher { journal_id: 1, next_usn: 1 };
    assert!(engine.watch_step('Z', &mut watcher, Event::Opened).is_none());
    assert_eq!(watcher.journal_id, 1);
    assert!(matches!(
        engine.watch_step('C', &mut watcher, Event::Opened),
        Some(Action::Read { journal_id: 0, start_usn: 0, pause_ms: 0 })
    ));
    let fresh = Index { drive: 'C', journal_id: 8, next_usn: 9, ..Default::default() };
    engine.watch_step('C', &mut watcher, Event::Rebuilt(fresh));
    assert_eq!(engine.entry_count(), 0);
    assert_eq!(engine.cursor('C'), Some((8, 9)));
}

#[test]
fn whole_machine_is_searched_drive_by_drive() {
    let mut engine = engine();
    engine.warm('D', Ok(sample('D'))).unwrap();
    let parts = match engine.query_all("**/main.rs", 200, &vec!['C', 'D']) {
        Ok(parts) => parts,
        Err(_) => panic!("both drives are indexed"),
    };
    assert_eq!(parts.len(), 2);
    let answer = merge(parts);
    let found: Vec<&str> = answer.hits.iter().map(|h| h.path.as_str()).collect();
    assert_eq!(found, vec!["C:\\proj\\src\\main.rs", "D:\\proj\\src\\main.rs"]);
    assert_eq!(answer.drives, "CD");
    // Six records of each drive have or are the extension.
    assert_eq!(answer.scanned, 12);
    assert!(!answer.truncated);

    let parts = match engine.query_all("**/*.rs", 6, &vec!['C', 'D']) {
        Ok(parts) => parts,
        Err(_) => panic!("both drives are indexed"),
    };
    assert_eq!(parts.len(), 1);
    assert!(merge(parts).truncated);

    let parts = match engine.query_all("**/*.rs", 8, &vec!['C', 'D']) {
        Ok(parts) => parts,
        Err(_) => panic!("both drives are indexed"),
    };
    let answer = merge(parts);
    assert_eq!(answer.hits.len(), 8);
    assert!(answer.truncated);
    assert!(matches!(
        engine.query_all("**/*.rs", 8, &vec!['C', 'E']),
        Err(QueryError::NotIndexed)
    ));
    assert!(matches!(
        engine.query_all("[", 8, &vec!['C', 'E']),
        Err(QueryError::BadPattern(_))
    ));
}

#[test]
fn case_of_letters_makes_no_difference() {
    let matcher = match Matcher::new(&query("", "**/Main.[RS]s"), &vec![]) {
        Ok(matcher) => matcher,
        Err(message) => panic!("{}", message),
    };
    for rel in ["src\\main.rs", "SRC\\MAIN.RS", "src/mAiN.Ss"] {
        assert!(matcher.accepts(rel));
    }
    assert!(!matcher.accepts("src\\main.ts"));
    let engine = engine();
    let lower = paths(&engine, &query("c:\\proj", "**/*.rs"), "");
    let upper = paths(&engine, &query("C:\\PROJ\\", "**/*.RS"), "");
    assert_eq!(lower, upper);
}

#[test]
fn asking_again_finds_the_same() {
    let engine = engine();
    let mut q = query("C:\\proj", "**/*.rs");
    q.max_results = 3;
    let first = match engine.query(&q, &vec![]) {
        Ok((hits, _)) => hits,
        Err(_) => panic!("the query should run"),
    };
    for _ in 0..3 {
        match engine.query(&q, &vec![]) {
            Ok((hits, _)) => {
                let again: Vec<&str> = hits.iter().map(|h| h.path.as_str()).collect();
                let before: Vec<&str> = first.iter().map(|h| h.path.as_str()).collect();
                assert_eq!(again, before);
            }
            Err(_) => panic!("the query should run"),
        }
    }
}

#[test]
fn no_record_is_found_twice() {
    let mut index = sample('C');
    index.add_indexed(12, 11, "main.rs".into(), false);
    index.add_indexed(12, 11, "Main.rs".into(), false);
    let mut engine = Engine::new();
    engine.warm('C', Ok(index)).unwrap();
    assert_eq!(
        paths(&engine, &query("C:\\proj", "**/main.rs"), ""),
        vec!["C:\\proj\\src\\Main.rs"]
    );
    assert_eq!(paths(&engine, &query("C:\\proj\\src", "*.rs"), "").len(), 2);
}

#[test]
fn tally_is_full_at_the_cap() {
    let mut tally = Tally::new(2);
    assert!(!tally.is_full());
    tally.take(Some(Hit { path: "C:\\a".to_string(), is_dir: false }));
    tally.take(None);
    assert!(!tally.is_full());
    tally.take(Some(Hit { path: "C:\\b".to_string(), is_dir: true }));
    assert!(tally.is_full());
    let found = tally.finish();
    assert_eq!((found.hits.len(), found.scanned, found.truncated), (2, 3, true));
    let found = Tally::new(1).finish();
    assert_eq!((found.hits.len(), found.scanned, found.truncated), (0, 0, false));
}

#[test]
fn rows_are_of_what_matches_and_is_not_left_out() {
    let full = "C:\\a".to_string();
    let row = row_for(full.clone(), true, false, true, false).unwrap();
    assert_eq!((row.path.as_str(), row.is_dir), ("C:\\a", true));
    assert!(row_for(full.clone(), true, true, true, false).is_none());
    assert!(row_for(full.clone(), true, false, false, false).is_none());
    assert!(row_for(full, true, false, true, true).is_none());
}

#[test]
fn globs_are_refused_only_as_a_whole() {
    let engine = engine();
    // The last piece, `main.rs}`, is no glob.
    assert_eq!(
        paths(&engine, &query("C:\\proj", "{src/lib.rs,src/main.rs}"), ""),
        vec!["C:\\proj\\src\\LIB.RS", "C:\\proj\\src\\main.rs"]
    );
    assert_eq!(paths(&engine, &query("C:\\proj", "{a/b,**/cargo.*}"), "").len(), 1);
}

#[test]
fn wildcards_match_separators() {
    let engine = engine();
    assert_eq!(
        paths(&engine, &query("C:\\proj", "src*main.rs"), ""),
        vec!["C:\\proj\\src\\main.rs"]
    );
    assert_eq!(
        paths(&engine, &query("C:\\proj", "src?main.r[s]"), ""),
        vec!["C:\\proj\\src\\main.rs"]
    );
}

#[test]
fn fixed_endings_lose_nothing() {
    let engine = engine();
    for (pinned, scanned) in [
        ("**/*.rs", "**/*.r[s]"),
        ("**/main.rs", "**/main.r[s]"),
        ("*.toml", "*.tom[l]"),
        ("**/*ib.RS", "**/*ib.R[S]"),
    ] {
        assert_eq!(
            paths(&engine, &query("C:\\", pinned), ""),
            paths(&engine, &query("C:\\", scanned), "")
        );
    }
    let (_, stats) = match engine.query(&query("C:\\", "**/cargo.toml"), &vec![]) {
        Ok(answer) => answer,
        Err(_) => panic!("the query should run"),
    };
    assert_eq!(stats.scanned, 1);
    let (hits, stats) = match engine.query(&query("C:\\", "**/*et"), &vec![]) {
        Ok(answer) => answer,
        Err(_) => panic!("the query should run"),
    };
    assert_eq!(hits.len(), 1);
    assert_eq!(stats.scanned, 12);
}

#[test]
fn a_file_is_found_once_whatever_was_done_to_the_index() {
    let mut index = Index { drive: 'C', ..Default::default() };
    for name in ["one.rs", ".rs"] {
        index.add_indexed(1, ROOT_FRN, name.into(), false);
        index.remove_indexed(1, "one.txt");
        index.add_indexed(1, ROOT_FRN, "one.rs".into(), false);
    }
    let mut engine = Engine::new();
    engine.warm('C', Ok(index)).unwrap();
    assert_eq!(paths(&engine, &query("C:\\", "**/*.rs"), ""), vec!["C:\\one.rs"]);
    assert!(paths(&engine, &query("C:\\", "**/*.txt"), "").is_empty());
}

#[test]
fn there_is_one_index_per_letter() {
    let mut engine = Engine::new();
    assert_eq!(engine.warm('c', Ok(sample('c'))), Ok(()));
    assert_eq!(engine.entry_count(), 12);
    assert_eq!(engine.warm('C', Ok(sample('C'))), Ok(()));
    assert_eq!(engine.entry_count(), 12);
    assert!(engine.is_indexed('C'));
    assert!(engine.is_indexed('c'));
    assert_eq!(engine.drives(), vec!['C']);
    assert_eq!(engine.cursor('c'), engine.cursor('C'));
    assert_eq!(paths(&engine, &query("c:\\proj", "cargo.toml"), ""), vec!["C:\\proj\\Cargo.toml"]);
}

#[test]
fn git_is_spared_even_if_the_rules_cannot_be_built() {
    let engine = engine();
    let broken = format!("{}a{}\ntarget/\n", "{".repeat(250), "}".repeat(250));
    let found = paths(&engine, &query("C:\\proj", "**"), &broken);
    assert!(found.iter().all(|p| !p.contains(".git")));
    assert!(found.contains(&"C:\\proj\\target\\out.rs".to_string()));
}

#[test]
fn git_rule_cannot_be_taken_back() {
    let engine = engine();
    let found = paths(&engine, &query("C:\\proj", "**/*.rs"), "!.git/\n!config.rs\n");
    assert!(found.iter().all(|p| !p.contains(".git")));
}

#[test]
fn smaller_cap_only_drops_rows() {
    let engine = engine();
    for pattern in ["**/*.rs", "**/*.r[s]", "**"] {
        let mut q = query("C:\\", pattern);
        q.max_results = 100;
        let all = match engine.query(&q, &vec![]) {
            Ok((hits, _)) => hits,
            Err(_) => panic!("the query should run"),
        };
        for cap in 0..=all.len() + 1 {
            q.max_results = cap;
            let some = match engine.query(&q, &vec![]) {
                Ok((hits, _)) => hits,
                Err(_) => panic!("the query should run"),
            };
            assert_eq!(some.len(), cap.min(all.len()));
            for (a, b) in some.iter().zip(all.iter()) {
                assert_eq!(a.path, b.path);
            }
        }
    }
}

#[test]
fn spelling_makes_no_difference() {
    let engine = engine();
    for (one, other) in [
        ("**/*.rs", "**/*.RS"),
        ("SRC/[M]ain.{Rs,txt}", "src/[m]AIN.{rS,TXT}"),
        ("**/[a-z]ib.[r]s", "**/[a-z]IB.[R]S"),
    ] {
        let mut a = query("C:\\proj", one);
        let mut b = query("c:\\PROJ\\/", other);
        a.respect_gitignore = false;
        b.respect_gitignore = false;
        match (engine.query(&a, &vec![]), engine.query(&b, &vec![])) {
            (Ok((x, s)), Ok((y, t))) => {
                assert!(!x.is_empty());
                let x: Vec<String> = x.into_iter().map(|h| h.path).collect();
                let y: Vec<String> = y.into_iter().map(|h| h.path).collect();
                assert_eq!(x, y);
                assert_eq!((s.drive, s.scanned), (t.drive, t.scanned));
            }
            _ => panic!("both queries should run"),
        }
    }
    // The bounds of a range are another matter.
    assert!(Matcher::new(&query("", "[Z-a]"), &vec![]).is_ok());
    assert!(Matcher::new(&query("", "[z-a]"), &vec![]).is_err());
}

#[test]
fn batch_from_elsewhere_is_not_applied() {
    let mut engine = engine();
    let mut watcher = Watcher { journal_id: 0, next_usn: 5 };
    let batch = JournalRead::Batch { next: 6, updates: Vec::new() };
    assert!(matches!(
        engine.watch_step('c', &mut watcher, Event::Read(batch)),
        Some(Action::Read { journal_id: 0, start_usn: 0, pause_ms: 0 })
    ));
    assert_eq!(engine.cursor('C'), Some((0, 0)));
    assert_eq!(watcher.next_usn, 0);
    let batch = JournalRead::Batch { next: 6, updates: Vec::new() };
    engine.watch_step('C', &mut watcher, Event::Read(batch));
    assert_eq!(engine.cursor('C'), Some((0, 6)));
}

#[test]
fn scope_of_a_query() {
    assert!(matches!(scope_of(""), Scope::Machine));
    assert!(matches!(scope_of("d:\\x"), Scope::Drive('D')));
    assert!(matches!(scope_of("src"), Scope::Drive('C')));
}

#[test]
fn drives_without_an_index_are_skipped() {
    let attempt = |drive, failure: Option<&str>| Attempt {
        drive,
        failure: failure.map(|f| f.to_string()),
    };
    assert_eq!(
        usable_drives(vec![attempt('C', None), attempt('D', Some("no")), attempt('E', None)]),
        Ok(vec!['C', 'E'])
    );
    assert_eq!(
        usable_drives(vec![attempt('C', Some("first")), attempt('D', Some("last"))]),
        Err("last".to_string())
    );
    assert_eq!(usable_drives(vec![]), Err("no NTFS volume found".to_string()));
}
