use git_metafile::entry::MetafileEntry;
use git_metafile::error::MetafileError;

fn entry(path: &str, mode: u32, uid: u32, gid: u32) -> MetafileEntry {
    MetafileEntry { path: path.to_string(), mode, uid, gid }
}

fn cause(r: Result<MetafileEntry, MetafileError>) -> String {
    match r {
        Err(MetafileError::Malformed(cause)) => cause,
        other => panic!("expected a malformed line, got {:?}", other),
    }
}

#[test]
fn entry_renders_tab_separated() {
    assert_eq!(entry("foo.txt", 0o644, 1000, 1000).to_string(), "foo.txt\t644\t1000\t1000");
    assert_eq!(entry("a/b", 0o100755, 0, 12).to_string(), "a/b\t100755\t0\t12");
    assert_eq!(entry("", 0, 0, 0).to_string(), "\t0\t0\t0");
}

#[test]
fn entry_dump_appends_a_line() {
    let mut dest = String::from("x");
    entry("foo.txt", 0o644, 1000, 1000).dump(&mut dest);
    assert_eq!(dest, "xfoo.txt\t644\t1000\t1000\n");
}

#[test]
fn entry_parses_its_fields() {
    assert_eq!(
        MetafileEntry::parse("foo.txt\t644\t1000\t1000").unwrap(),
        entry("foo.txt", 0o644, 1000, 1000)
    );
    assert_eq!(
        MetafileEntry::parse("dir with space/ü\t40755\t+0\t4294967295").unwrap(),
        entry("dir with space/ü", 0o40755, 0, u32::MAX)
    );
}

#[test]
fn entry_ignores_fields_after_the_fourth() {
    assert_eq!(
        MetafileEntry::parse("foo\t7\t1\t2\tmore\tand more").unwrap(),
        entry("foo", 7, 1, 2)
    );
}

#[test]
fn entry_needs_four_fields() {
    assert_eq!(cause(MetafileEntry::parse("")), "expected 4 fields");
    assert_eq!(cause(MetafileEntry::parse("foo")), "expected 4 fields");
    assert_eq!(cause(MetafileEntry::parse("foo\t644\t1000")), "expected 4 fields");
    assert_eq!(cause(MetafileEntry::parse("foo 644 1000 1000")), "expected 4 fields");
}

#[test]
fn entry_needs_numbers() {
    assert_eq!(cause(MetafileEntry::parse("foo\t648\t1\t1")), "invalid digit found in string");
    assert_eq!(cause(MetafileEntry::parse("foo\t\t1\t1")), "cannot parse integer from empty string");
    assert_eq!(cause(MetafileEntry::parse("foo\t644\troot\t1")), "invalid digit found in string");
    assert_eq!(
        cause(MetafileEntry::parse("foo\t644\t1\t4294967296")),
        "number too large to fit in target type"
    );
    assert_eq!(cause(MetafileEntry::parse("foo\t644\t1\t1 ")), "invalid digit found in string");
}

#[test]
fn entry_names_the_first_fault() {
    assert_eq!(
        cause(MetafileEntry::parse("foo\t\tx\t99999999999")),
        "cannot parse integer from empty string"
    );
    assert_eq!(
        cause(MetafileEntry::parse("foo\t7\t99999999999\tx")),
        "number too large to fit in target type"
    );
}

#[test]
fn entry_round_trips() {
    let entries = [
        entry("foo.txt", 0o644, 1000, 1000),
        entry("", 0, 0, 0),
        entry("#not a comment here", 0o777, 1, 2),
        entry("line\nfeed and \r return", u32::MAX, u32::MAX, u32::MAX),
        entry("ünï/cödé 😀", 0o120777, 65534, 65534),
    ];
    for e in entries {
        assert_eq!(MetafileEntry::parse(&e.to_string()).unwrap(), e);
    }
}

#[test]
fn entry_with_a_tab_in_its_path_does_not_round_trip() {
    let e = entry("a\tb", 0o644, 1, 2);
    assert!(MetafileEntry::parse(&e.to_string()).is_err());
}
