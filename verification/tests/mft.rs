use needle::mft::{dotfile_of, ext_of, Index, ROOT_FRN};

#[test]
fn ext_of_basics() {
    assert_eq!(ext_of("main.rs").as_deref(), Some("rs"));
    assert_eq!(ext_of("Archive.TAR").as_deref(), Some("tar"));
    assert_eq!(ext_of("a.b.c").as_deref(), Some("c"));
    assert_eq!(ext_of("noext"), None);
    assert_eq!(ext_of(".gitignore"), None); // leading dot only
    assert_eq!(ext_of("trailingdot."), None);
}

#[test]
fn full_path_walks_parents_to_root() {
    let mut idx = Index {
        drive: 'C',
        ..Default::default()
    };
    // ROOT <- foo(10) <- bar.txt(11)
    idx.add_indexed(10, ROOT_FRN, "foo".into(), true);
    idx.add_indexed(11, 10, "bar.txt".into(), false);
    assert_eq!(idx.full_path(11).as_deref(), Some("C:\\foo\\bar.txt"));
    assert_eq!(idx.full_path(10).as_deref(), Some("C:\\foo"));
}

#[test]
fn add_and_remove_maintain_ext_index() {
    let mut idx = Index {
        drive: 'C',
        ..Default::default()
    };
    idx.add_indexed(10, ROOT_FRN, "lib.rs".into(), false);
    assert_eq!(idx.by_ext.get("rs").map(|v| v.len()), Some(1));
    idx.remove_indexed(10, "lib.rs");
    assert_eq!(idx.by_ext.get("rs").map(|v| v.len()), Some(0));
    assert!(!idx.entries.contains_key(&10));
}

#[test]
fn add_indexed_is_idempotent_per_frn() {
    let mut idx = Index {
        drive: 'C',
        ..Default::default()
    };
    // A single create can emit several USN records (CREATE, RENAME_NEW_NAME,
    // …) for the same FRN; re-adding must not duplicate the ext-bucket entry.
    idx.add_indexed(7, ROOT_FRN, "a.txt".into(), false);
    idx.add_indexed(7, ROOT_FRN, "a.txt".into(), false);
    assert_eq!(idx.by_ext.get("txt").map(|v| v.len()), Some(1));

    // A rename to a new extension must move the FRN, not leave a stale slot.
    idx.add_indexed(7, ROOT_FRN, "a.md".into(), false);
    assert_eq!(idx.by_ext.get("txt").map(|v| v.len()), Some(0));
    assert_eq!(idx.by_ext.get("md").map(|v| v.len()), Some(1));
    assert_eq!(idx.entries.get(&7).map(|e| e.name.as_str()), Some("a.md"));
}

#[test]
fn extension_lowercases_ascii_only() {
    assert_eq!(ext_of("x.ÄB").as_deref(), Some("Äb"));
    assert_eq!(ext_of("..rs").as_deref(), Some("rs"));
    assert_eq!(ext_of(""), None);
    assert_eq!(ext_of("."), None);
}

#[test]
fn dotfiles_have_a_name_of_their_own() {
    assert_eq!(dotfile_of(".RS").as_deref(), Some("rs"));
    assert_eq!(dotfile_of(".gitignore").as_deref(), Some("gitignore"));
    assert_eq!(dotfile_of("a.rs"), None);
    assert_eq!(dotfile_of(".a.rs"), None);
    assert_eq!(dotfile_of("."), None);
}

#[test]
fn default_index_is_empty() {
    let idx = Index::default();
    assert_eq!(idx.drive, '\0');
    assert!(idx.entries.is_empty());
    assert!(idx.by_ext.get("rs").is_none());
    assert_eq!(idx.journal_id, 0);
    assert_eq!(idx.next_usn, 0);
}

#[test]
fn path_of_the_root_is_the_drive() {
    let idx = Index {
        drive: 'd',
        ..Default::default()
    };
    assert_eq!(idx.full_path(ROOT_FRN).as_deref(), Some("D:\\"));
}

#[test]
fn path_with_a_missing_parent_is_unknown() {
    let mut idx = Index {
        drive: 'C',
        ..Default::default()
    };
    idx.add_indexed(11, 10, "bar.txt".into(), false);
    assert_eq!(idx.full_path(11), None);
    assert_eq!(idx.full_path(12), None);
}

#[test]
fn own_parent_ends_the_walk() {
    let mut idx = Index {
        drive: 'C',
        ..Default::default()
    };
    idx.add_indexed(10, 10, "loop".into(), true);
    idx.add_indexed(11, 10, "x".into(), false);
    assert_eq!(idx.full_path(10).as_deref(), Some("C:\\loop"));
    assert_eq!(idx.full_path(11).as_deref(), Some("C:\\loop\\x"));
}

#[test]
fn cycles_are_followed_for_256_levels() {
    let mut idx = Index {
        drive: 'C',
        ..Default::default()
    };
    idx.add_indexed(10, 11, "a".into(), true);
    idx.add_indexed(11, 10, "b".into(), true);
    let path = idx.full_path(10).unwrap();
    assert_eq!(path.len(), 3 + 256 + 255);
    assert_eq!(path.chars().last(), Some('a'));
}

#[test]
fn child_path_extends_that_of_the_parent() {
    let mut idx = Index {
        drive: 'C',
        ..Default::default()
    };
    idx.add_indexed(10, ROOT_FRN, "a".into(), true);
    idx.add_indexed(11, 10, "b".into(), true);
    idx.add_indexed(12, 11, "c.rs".into(), false);
    let above = idx.full_path(11).unwrap();
    assert_eq!(idx.full_path(12), Some(above + "\\c.rs"));
}

#[test]
fn removing_undoes_adding() {
    let mut idx = Index {
        drive: 'C',
        ..Default::default()
    };
    idx.add_indexed(1, ROOT_FRN, "one.rs".into(), false);
    idx.add_indexed(2, ROOT_FRN, "two.rs".into(), false);
    idx.remove_indexed(2, "two.rs");
    assert_eq!(idx.by_ext.get("rs"), Some(&vec![1u64]));
    assert_eq!(idx.entries.len(), 1);
}

#[test]
fn removing_under_another_extension_leaves_the_slot() {
    let mut idx = Index {
        drive: 'C',
        ..Default::default()
    };
    idx.add_indexed(1, ROOT_FRN, "one.rs".into(), false);
    idx.remove_indexed(1, "one.txt");
    assert!(!idx.entries.contains_key(&1));
    assert_eq!(idx.by_ext.get("rs"), Some(&vec![1u64]));
}

#[test]
fn buckets_keep_the_order_of_filing() {
    let mut idx = Index::default();
    idx.add_indexed(3, ROOT_FRN, "c.rs".into(), false);
    idx.add_indexed(1, ROOT_FRN, "a.rs".into(), false);
    idx.add_indexed(2, ROOT_FRN, "b.RS".into(), false);
    idx.add_indexed(3, ROOT_FRN, "c2.rs".into(), false);
    assert_eq!(idx.by_ext.get("rs"), Some(&vec![1u64, 2, 3]));
}

#[test]
fn dotfiles_are_filed_apart() {
    let mut idx = Index::default();
    idx.add_indexed(1, ROOT_FRN, ".rs".into(), false);
    assert!(idx.by_ext.get("rs").is_none());
    assert_eq!(idx.by_ext.dotfiles("rs"), Some(&vec![1u64]));
    assert_eq!(idx.by_ext.both("rs"), vec![1]);
    idx.remove_indexed(1, ".rs");
    assert_eq!(idx.by_ext.dotfiles("rs"), Some(&vec![]));
}

#[test]
fn no_number_stands_twice_under_a_key() {
    let mut idx = Index::default();
    idx.add_indexed(1, ROOT_FRN, "one.rs".into(), false);
    idx.remove_indexed(1, "one.txt");
    idx.add_indexed(1, ROOT_FRN, "one.rs".into(), false);
    assert_eq!(idx.by_ext.get("rs"), Some(&vec![1u64]));
    idx.remove_indexed(1, "one.txt");
    idx.add_indexed(1, ROOT_FRN, ".rs".into(), false);
    assert_eq!(idx.by_ext.get("rs"), Some(&vec![]));
    assert_eq!(idx.by_ext.both("rs"), vec![1]);
    idx.remove_indexed(1, "other");
    idx.add_indexed(1, ROOT_FRN, "a.rs".into(), false);
    assert_eq!(idx.by_ext.both("rs"), vec![1]);
    assert!(idx.by_ext.both("md").is_empty());
}
