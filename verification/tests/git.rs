use git_metafile::git::{listed_names, staged_files};
use std::collections::BTreeSet;
use std::path::{Path, PathBuf};

fn strings(paths: &[&str]) -> Vec<String> {
    paths.iter().map(|p| p.to_string()).collect()
}

/// The same listing, made with a sorted set of paths.
fn with_path_set(files: &[&str], deleted: &[&str]) -> Vec<String> {
    let deleted: BTreeSet<PathBuf> = deleted.iter().map(PathBuf::from).collect();
    let mut paths: BTreeSet<PathBuf> = BTreeSet::new();
    for file in files {
        let mut path = PathBuf::from(file);
        if deleted.contains(&path) {
            continue;
        }
        loop {
            paths.insert(path.clone());
            if !path.pop() {
                break;
            }
        }
    }
    paths.remove(Path::new(""));
    paths.into_iter().map(|p| p.display().to_string()).collect()
}

#[test]
fn scenario_a_file_and_the_directory_above_it() {
    assert_eq!(staged_files(&strings(&["a/b.txt"]), &vec![]), strings(&["a", "a/b.txt"]));
}

#[test]
fn staged_files_of_nothing() {
    assert_eq!(staged_files(&vec![], &vec![]), Vec::<String>::new());
    assert_eq!(staged_files(&strings(&[""]), &vec![]), Vec::<String>::new());
}

#[test]
fn deleted_files_are_left_out_with_directories_that_hold_nothing_else() {
    let files = strings(&["keep/x", "gone/y", "both/kept", "both/gone", "top"]);
    let deleted = strings(&["gone/y", "both/gone"]);
    assert_eq!(staged_files(&files, &deleted), strings(&["both", "both/kept", "keep", "keep/x", "top"]));
}

#[test]
fn every_directory_above_a_file_is_listed_once() {
    let files = strings(&["a/b/c/d.txt", "a/b/e.txt", "a/f.txt", "a/b/c/d.txt"]);
    assert_eq!(
        staged_files(&files, &vec![]),
        strings(&["a", "a/b", "a/b/c", "a/b/c/d.txt", "a/b/e.txt", "a/f.txt"])
    );
}

#[test]
fn directories_come_before_what_they_hold_and_before_longer_names() {
    let files = strings(&["src-old/a", "src/main.rs", "src.rs", "src/lib/x.rs", "README", "src!"]);
    assert_eq!(
        staged_files(&files, &strings(&["README"])),
        strings(&["src", "src/lib", "src/lib/x.rs", "src/main.rs", "src!", "src-old", "src-old/a", "src.rs"])
    );
}

#[test]
fn listing_agrees_with_a_sorted_set_of_paths() {
    let cases: [(&[&str], &[&str]); 5] = [
        (&["a/b.txt"], &[]),
        (&["z", "a/b/c", "a/b", "a-b/c", "a b/c", "a/b/c/d", "ä/ö", "a.b/c", "A/b"], &["a/b"]),
        (&["x/y/z", "x/y", "x"], &["x/y/z", "x"]),
        (&["deep/er/and/deeper/still/file", "deep/file", "deep-file"], &[]),
        (&["one", "two", "three/four", "three-four"], &["five"]),
    ];
    for (files, deleted) in cases {
        assert_eq!(
            staged_files(&strings(files), &strings(deleted)),
            with_path_set(files, deleted),
            "{:?} without {:?}",
            files,
            deleted
        );
    }
}

#[test]
fn names_of_a_listing() {
    assert_eq!(listed_names("a/b.txt\0c\0"), strings(&["a/b.txt", "c", ""]));
    assert_eq!(listed_names("one"), strings(&["one"]));
    assert_eq!(listed_names(""), strings(&[""]));
    assert_eq!(listed_names("\0\0x y\n\0"), strings(&["", "", "x y\n", ""]));
}

#[test]
fn listing_to_paths() {
    let files = listed_names("dir/kept\0dir/sub/gone\0top\0");
    let deleted = listed_names("dir/sub/gone\0");
    assert_eq!(staged_files(&files, &deleted), strings(&["dir", "dir/kept", "top"]));
}
