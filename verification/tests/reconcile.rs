use git_metafile::entry::MetafileEntry;
use git_metafile::error::MetafileError;
use git_metafile::metafile::Metafile;
use git_metafile::reconcile::{apply, report, report_capture_failure, save, Attribute, Change, Report};

fn entry(path: &str, mode: u32, uid: u32, gid: u32) -> MetafileEntry {
    MetafileEntry { path: path.to_string(), mode, uid, gid }
}

#[test]
fn nothing_to_do_where_all_agrees() {
    let e = entry("foo.txt", 0o644, 1000, 1000);
    assert_eq!(apply(&e, &e), vec![]);
}

#[test]
fn scenario_only_the_mode_differs() {
    let parsed = Metafile::parse("#%GIT-METAFILE 1\nfoo.txt\t644\t1000\t1000\n", false).unwrap();
    let expected = &parsed.metafile.entries[0];
    let current = entry("foo.txt", 0o600, 1000, 1000);
    let changes = apply(expected, &current);
    assert_eq!(changes, vec![Change { attribute: Attribute::Mode, from: 0o600, to: 0o644 }]);
    let messages: Vec<String> = changes.iter().map(|c| c.message(&expected.path)).collect();
    assert_eq!(messages, vec!["foo.txt: change mode 600 -> 644".to_string()]);
}

#[test]
fn each_attribute_is_judged_by_itself() {
    let expected = entry("p", 0o755, 10, 20);
    let current = entry("p", 0o700, 11, 21);
    assert_eq!(
        apply(&expected, &current),
        vec![
            Change { attribute: Attribute::Mode, from: 0o700, to: 0o755 },
            Change { attribute: Attribute::Owner, from: 11, to: 10 },
            Change { attribute: Attribute::Group, from: 21, to: 20 },
        ]
    );
    assert_eq!(
        apply(&expected, &entry("p", 0o755, 11, 20)),
        vec![Change { attribute: Attribute::Owner, from: 11, to: 10 }]
    );
    assert_eq!(
        apply(&expected, &entry("p", 0o755, 10, 0)),
        vec![Change { attribute: Attribute::Group, from: 0, to: 20 }]
    );
    assert_eq!(
        apply(&expected, &entry("p", 0, 10, 0)),
        vec![
            Change { attribute: Attribute::Mode, from: 0, to: 0o755 },
            Change { attribute: Attribute::Group, from: 0, to: 20 },
        ]
    );
}

#[test]
fn applying_what_was_planned_leaves_nothing_to_do() {
    let expected = entry("p", 0o755, 10, 20);
    let mut current = entry("p", 0o700, 11, 21);
    for change in apply(&expected, &current) {
        match change.attribute {
            Attribute::Mode => current.mode = change.to,
            Attribute::Owner => current.uid = change.to,
            Attribute::Group => current.gid = change.to,
        }
    }
    assert_eq!(apply(&expected, &current), vec![]);
}

#[test]
fn a_failed_change_leaves_the_others_planned() {
    let expected = entry("p", 0o755, 10, 20);
    let mut current = entry("p", 0o700, 11, 21);
    // The owner cannot be changed; mode and group can.
    for change in apply(&expected, &current) {
        match change.attribute {
            Attribute::Mode => current.mode = change.to,
            Attribute::Owner => {}
            Attribute::Group => current.gid = change.to,
        }
    }
    assert_eq!(current, entry("p", 0o755, 11, 20));
    assert_eq!(
        apply(&expected, &current),
        vec![Change { attribute: Attribute::Owner, from: 11, to: 10 }]
    );
}

#[test]
fn change_messages() {
    let mode = Change { attribute: Attribute::Mode, from: 0o100600, to: 0o100644 };
    let owner = Change { attribute: Attribute::Owner, from: 0, to: 1000 };
    let group = Change { attribute: Attribute::Group, from: 4294967295, to: 8 };
    assert_eq!(mode.message("dir/foo.txt"), "dir/foo.txt: change mode 100600 -> 100644");
    assert_eq!(owner.message("dir/foo.txt"), "dir/foo.txt: change owner 0 -> 1000");
    assert_eq!(group.message(""), ": change group 4294967295 -> 8");
}

#[test]
fn scenario_save_of_a_file_and_its_directory() {
    let captured = vec![Ok(entry("a", 0o40755, 1000, 1000)), Ok(entry("a/b.txt", 0o100644, 1000, 1000))];
    let metafile = save(captured).unwrap();
    assert_eq!(metafile.entries.len(), 2);
    assert_eq!(
        metafile.entries,
        vec![entry("a", 0o40755, 1000, 1000), entry("a/b.txt", 0o100644, 1000, 1000)]
    );
}

#[test]
fn save_of_nothing() {
    assert!(save(vec![]).unwrap().entries.is_empty());
}

#[test]
fn save_fails_with_the_first_path_that_was_not_captured() {
    let gone = |text: &str| MetafileError::Io(std::io::Error::new(std::io::ErrorKind::NotFound, text.to_string()));
    let captured = vec![
        Ok(entry("a", 1, 2, 3)),
        Err(gone("first")),
        Ok(entry("c", 1, 2, 3)),
        Err(gone("second")),
    ];
    match save(captured) {
        Err((index, MetafileError::Io(e))) => {
            assert_eq!(index, 1);
            assert_eq!(e.to_string(), "first");
        }
        other => panic!("{:?}", other),
    }
}

#[test]
fn io_error_message_is_that_of_the_system() {
    let e = std::io::Error::new(std::io::ErrorKind::NotFound, "no such file".to_string());
    assert_eq!(MetafileError::Io(e).message(), "no such file");
}

#[test]
fn a_change_that_took_effect_is_announced() {
    let change = Change { attribute: Attribute::Mode, from: 0o600, to: 0o644 };
    assert_eq!(
        report("foo.txt", &change, None, false),
        Report::Info("foo.txt: change mode 600 -> 644".to_string())
    );
}

#[test]
fn a_change_that_took_effect_is_not_announced_when_quiet() {
    let change = Change { attribute: Attribute::Owner, from: 0, to: 1000 };
    assert_eq!(report("foo.txt", &change, None, true), Report::Silent);
}

#[test]
fn a_change_that_failed_is_an_error_quiet_or_not() {
    let change = Change { attribute: Attribute::Owner, from: 0, to: 1000 };
    for quiet in [false, true] {
        assert_eq!(
            report("dir/foo.txt", &change, Some("Operation not permitted (os error 1)"), quiet),
            Report::Error("dir/foo.txt: Operation not permitted (os error 1)".to_string())
        );
    }
}

#[test]
fn each_outcome_is_reported_by_itself() {
    let expected = entry("p", 0o755, 10, 20);
    let current = entry("p", 0o700, 11, 21);
    let changes = apply(&expected, &current);
    let outcomes = [None, Some("EPERM: Operation not permitted"), None];
    let reports: Vec<Report> = changes
        .iter()
        .zip(outcomes)
        .map(|(change, failure)| report(&expected.path, change, failure, false))
        .collect();
    assert_eq!(
        reports,
        vec![
            Report::Info("p: change mode 700 -> 755".to_string()),
            Report::Error("p: EPERM: Operation not permitted".to_string()),
            Report::Info("p: change group 21 -> 20".to_string()),
        ]
    );
}

#[test]
fn scenario_one_message_for_the_mode_and_none_for_the_owner() {
    let expected = entry("foo.txt", 0o644, 1000, 1000);
    let current = entry("foo.txt", 0o600, 1000, 1000);
    let reports: Vec<Report> = apply(&expected, &current)
        .iter()
        .map(|change| report(&expected.path, change, None, false))
        .collect();
    assert_eq!(reports, vec![Report::Info("foo.txt: change mode 600 -> 644".to_string())]);
}

#[test]
fn a_path_that_was_not_captured_is_a_warning() {
    assert_eq!(
        report_capture_failure("No such file or directory (os error 2)"),
        Report::Error("warning: No such file or directory (os error 2)".to_string())
    );
}
