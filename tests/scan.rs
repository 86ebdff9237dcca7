use dupe_scanner::hasher::digest_of;
use dupe_scanner::registry::Registry;
use dupe_scanner::scan::{entry_action, report_line, settle, Action, EntryKind, TaskOutcome, Walker};

#[test]
fn entry_policy() {
    assert_eq!(entry_action(EntryKind::File, true), Action::Hash);
    assert_eq!(entry_action(EntryKind::File, false), Action::Hash);
    assert_eq!(entry_action(EntryKind::Directory, true), Action::Descend);
    assert_eq!(entry_action(EntryKind::Directory, false), Action::Descend);
    assert_eq!(entry_action(EntryKind::LinkToFile, true), Action::Skip);
    assert_eq!(entry_action(EntryKind::LinkToFile, false), Action::Hash);
    assert_eq!(entry_action(EntryKind::LinkToDirectory, true), Action::Skip);
    assert_eq!(entry_action(EntryKind::LinkToDirectory, false), Action::Descend);
}

#[test]
fn walker_over_a_small_tree() {
    let (mut w, first) = Walker::start("root".to_string(), EntryKind::Directory, true);
    assert_eq!(first, None);
    let mut tasks = Vec::new();
    let mut listed = Vec::new();
    while let Some(dir) = w.next_directory() {
        listed.push(dir.clone());
        let entries: Vec<(String, EntryKind)> = match dir.as_str() {
            "root" => vec![
                ("root/a".to_string(), EntryKind::File),
                ("root/sub".to_string(), EntryKind::Directory),
                ("root/link".to_string(), EntryKind::LinkToFile),
                ("root/linkdir".to_string(), EntryKind::LinkToDirectory),
            ],
            "root/sub" => vec![("root/sub/b".to_string(), EntryKind::File)],
            _ => vec![],
        };
        for (p, k) in entries {
            if let Some(t) = w.visit(p, k) {
                tasks.push(t);
            }
        }
    }
    assert!(w.is_finished());
    tasks.sort();
    assert_eq!(tasks, vec!["root/a".to_string(), "root/sub/b".to_string()]);
    assert_eq!(listed, vec!["root".to_string(), "root/sub".to_string()]);
}

#[test]
fn walker_follows_links_when_allowed() {
    let (mut w, _) = Walker::start("r".to_string(), EntryKind::Directory, false);
    assert_eq!(w.next_directory(), Some("r".to_string()));
    assert_eq!(w.visit("r/l".to_string(), EntryKind::LinkToFile), Some("r/l".to_string()));
    assert_eq!(w.visit("r/d".to_string(), EntryKind::LinkToDirectory), None);
    assert_eq!(w.next_directory(), Some("r/d".to_string()));
    assert!(w.is_finished());
}

#[test]
fn file_root() {
    let (mut w, first) = Walker::start("f.txt".to_string(), EntryKind::File, true);
    assert_eq!(first, Some("f.txt".to_string()));
    assert_eq!(w.next_directory(), None);
    let (_, linked) = Walker::start("l.txt".to_string(), EntryKind::LinkToFile, true);
    assert_eq!(linked, None);
    let (_, linked) = Walker::start("l.txt".to_string(), EntryKind::LinkToFile, false);
    assert_eq!(linked, Some("l.txt".to_string()));
}

#[test]
fn empty_directory_gives_nothing() {
    let (mut w, first) = Walker::start("empty".to_string(), EntryKind::Directory, true);
    assert_eq!(first, None);
    assert_eq!(w.next_directory(), Some("empty".to_string()));
    assert!(w.is_finished());
    assert_eq!(w.next_directory(), None);
}

#[test]
fn report_line_format() {
    assert_eq!(report_line("b.txt", "a.txt"), "b.txt = a.txt");
    assert_eq!(report_line("", ""), " = ");
}

#[test]
fn settle_each_outcome() {
    let mut reg = Registry::new();
    let out = settle(&mut reg, "a.txt".to_string(), Some(digest_of(b"hello")));
    assert!(matches!(out, TaskOutcome::Recorded));
    assert_eq!(out.report(), None);
    let out = settle(&mut reg, "b.txt".to_string(), Some(digest_of(b"hello")));
    match &out {
        TaskOutcome::Reported { duplicate, original } => {
            assert_eq!(duplicate, "b.txt");
            assert_eq!(original, "a.txt");
        }
        _ => panic!("expected a duplicate report"),
    }
    assert_eq!(out.report(), Some("b.txt = a.txt".to_string()));
    let out = settle(&mut reg, "gone.txt".to_string(), None);
    assert!(matches!(out, TaskOutcome::Failed { ref path } if path == "gone.txt"));
    assert_eq!(out.report(), None);
    assert_eq!(reg.len(), 1);
}

#[test]
fn three_files_one_duplicate() {
    let files = [("a.txt", &b"hello"[..]), ("b.txt", &b"hello"[..]), ("c.txt", &b"world"[..])];
    let mut reg = Registry::new();
    let mut lines = Vec::new();
    for (name, content) in files.iter() {
        let out = settle(&mut reg, name.to_string(), Some(digest_of(content)));
        if let Some(line) = out.report() {
            lines.push(line);
        }
    }
    assert_eq!(lines, vec!["b.txt = a.txt".to_string()]);
    assert!(lines.iter().all(|l| !l.contains("c.txt")));
}

#[test]
fn duplicate_groups_do_not_depend_on_order() {
    let files = [("a", &b"1"[..]), ("b", &b"1"[..]), ("c", &b"2"[..]), ("d", &b"1"[..]), ("e", &b"2"[..])];
    let mut groups = Vec::new();
    for order in [[0usize, 1, 2, 3, 4], [4, 3, 2, 1, 0]] {
        let mut reg = Registry::new();
        let mut reported = 0;
        for &i in order.iter() {
            let (name, content) = files[i];
            if let TaskOutcome::Reported { .. } = settle(&mut reg, name.to_string(), Some(digest_of(content))) {
                reported += 1;
            }
        }
        groups.push((reported, reg.len()));
    }
    assert_eq!(groups[0], (3, 2));
    assert_eq!(groups[0], groups[1]);
}

#[test]
fn listing_yields_one_task_per_file() {
    let listing = vec![
        ("d/a".to_string(), EntryKind::File),
        ("d/s".to_string(), EntryKind::Directory),
        ("d/l".to_string(), EntryKind::LinkToFile),
        ("d/b".to_string(), EntryKind::File),
        ("d/ld".to_string(), EntryKind::LinkToDirectory),
    ];
    let (mut w, _) = Walker::start("d".to_string(), EntryKind::Directory, true);
    assert_eq!(w.next_directory(), Some("d".to_string()));
    let tasks = w.visit_all(&listing);
    assert_eq!(tasks, vec!["d/a".to_string(), "d/b".to_string()]);
    assert_eq!(w.next_directory(), Some("d/s".to_string()));
    assert!(w.is_finished());

    let (mut w, _) = Walker::start("d".to_string(), EntryKind::Directory, false);
    w.next_directory();
    let tasks = w.visit_all(&listing);
    assert_eq!(tasks, vec!["d/a".to_string(), "d/l".to_string(), "d/b".to_string()]);
    assert_eq!(w.next_directory(), Some("d/ld".to_string()));
    assert_eq!(w.next_directory(), Some("d/s".to_string()));
    assert!(w.is_finished());
}

#[test]
fn empty_listing_yields_nothing() {
    let (mut w, _) = Walker::start("e".to_string(), EntryKind::Directory, true);
    w.next_directory();
    assert!(w.visit_all(&Vec::new()).is_empty());
    assert!(w.is_finished());
}
