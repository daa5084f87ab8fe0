//! The library against the same rules written with the standard library's
//! line reader, splitter, trimmer and number parser.

use git_metafile::entry::MetafileEntry;
use git_metafile::error::MetafileError;
use git_metafile::git::staged_files;
use git_metafile::metafile::Metafile;
use std::collections::BTreeSet;
use std::io::{BufRead, BufReader};
use std::path::{Path, PathBuf};

struct Random(u64);

impl Random {
    fn next(&mut self, bound: usize) -> usize {
        self.0 = self.0.wrapping_mul(6364136223846793005).wrapping_add(1442695040888963407);
        ((self.0 >> 33) as usize) % bound
    }

    fn text(&mut self, alphabet: &[&str], longest: usize) -> String {
        let length: usize = self.next(longest + 1);
        let mut text = String::new();
        for _ in 0..length {
            text.push_str(alphabet[self.next(alphabet.len())]);
        }
        text
    }
}

fn line_with_std(line: &str) -> Result<MetafileEntry, String> {
    let fields = line.split('\t').collect::<Vec<_>>();
    if fields.len() < 4 {
        return Err("expected 4 fields".to_string());
    }
    Ok(MetafileEntry {
        path: fields[0].to_string(),
        mode: u32::from_str_radix(fields[1], 8).map_err(|e| e.to_string())?,
        uid: fields[2].parse::<u32>().map_err(|e| e.to_string())?,
        gid: fields[3].parse::<u32>().map_err(|e| e.to_string())?,
    })
}

/// The entries and the reports, or the message of the error.
fn metafile_with_std(text: &str, strict: bool) -> Result<(Vec<MetafileEntry>, Vec<String>), String> {
    let header = "#%GIT-METAFILE";
    let mut lines = BufReader::new(text.as_bytes())
        .lines()
        .map(|line| line.unwrap())
        .enumerate()
        .skip_while(|(_, s)| (s.is_empty() || s.starts_with('#')) && !s.starts_with(header));
    let version = lines
        .next()
        .and_then(|(_, s)| if s.starts_with(header) { Some(s) } else { None })
        .and_then(|s| s.trim_start_matches(header).trim().parse::<u32>().ok())
        .ok_or_else(|| "malformed metafile: missing or malformed header".to_string())?;
    if version != 1 {
        return Err(format!("unsupported metafile version \"{}\"", version));
    }
    let mut entries = vec![];
    let mut reports = vec![];
    for (i, line) in lines {
        if line.is_empty() || line.starts_with('#') {
            continue;
        }
        match line_with_std(&line) {
            Ok(entry) => entries.push(entry),
            Err(cause) => {
                let report = format!("malformed metafile: {} at line {}", cause, i + 1);
                if strict {
                    return Err(report);
                }
                reports.push(report);
            }
        }
    }
    Ok((entries, reports))
}

fn metafile_with_library(text: &str, strict: bool) -> Result<(Vec<MetafileEntry>, Vec<String>), String> {
    match Metafile::parse(text, strict) {
        Ok(parsed) => Ok((
            parsed.metafile.entries,
            parsed.diagnostics.iter().map(|e| e.message()).collect(),
        )),
        Err(e) => Err(e.message()),
    }
}

#[test]
fn lines_are_read_as_the_standard_library_reads_them() {
    let alphabet = [
        "a", "/", "#", "\t", "\t", "\n", "\n", "\r", "\r\n", " ", "0", "1", "7", "8", "9", "+",
        "-", "é", "\u{a0}", "4294967295", "4294967296", "x\t644\t1\t2", "y\t7\t0\t0\n",
    ];
    let mut random = Random(1);
    for _ in 0..4000 {
        let line = random.text(&alphabet, 8);
        let ours = match MetafileEntry::parse(&line) {
            Ok(entry) => Ok(entry),
            Err(MetafileError::Malformed(cause)) => Err(cause),
            Err(other) => panic!("{:?}", other),
        };
        assert_eq!(ours, line_with_std(&line), "{:?}", line);
    }
}

#[test]
fn metafiles_are_read_as_the_standard_library_reads_them() {
    let leads = ["", "", "", "\n", "# c\n", "\r\n#\n", " \n", "#%GIT\n"];
    let headers = [
        "#%GIT-METAFILE 1", "#%GIT-METAFILE 1", "#%GIT-METAFILE 1", "#%GIT-METAFILE", "#%GIT-METAFILE1",
        "#%GIT-METAFILE#%GIT-METAFILE 1", "#%GIT-METAFILE 2", "#%GIT-METAFILE  +1\t", "#%GIT", "",
        "#%GIT-METAFILE\u{2003}1\u{3000}", "#%GIT-METAFILE 1#%GIT-METAFILE", "#%GIT-METAFILE #%GIT-METAFILE 1",
    ];
    let alphabet = [
        "a", "/", "#", "\t", "\n", "\n", "\n", "\r", "\r\n", " ", "1", "8", "+", "é",
        "x\t644\t1\t2", "y\t7\t0\t0\n", "z\t\t0\t0\n", "# comment\n", "4294967296",
        "#%GIT-METAFILE", "w\t1\t2\t3\t4\n",
    ];
    let mut random = Random(2);
    for _ in 0..4000 {
        let mut text = String::new();
        text.push_str(leads[random.next(leads.len())]);
        text.push_str(headers[random.next(headers.len())]);
        text.push_str(&random.text(&alphabet, 12));
        for strict in [false, true] {
            assert_eq!(
                metafile_with_library(&text, strict),
                metafile_with_std(&text, strict),
                "{:?}, strict: {}",
                text,
                strict
            );
        }
    }
}

#[test]
fn written_metafiles_are_read_back_by_the_standard_library() {
    let alphabet = ["a", "/", ".", " ", "é", "\r", "#", "-"];
    let mut random = Random(3);
    for _ in 0..500 {
        let mut entries = vec![];
        for _ in 0..random.next(5) {
            let mut path = random.text(&alphabet, 6);
            if path.starts_with('#') {
                path.insert(0, 'p');
            }
            let mode = random.next(0o200000) as u32;
            let uid = random.next(70000) as u32;
            let gid = random.next(3) as u32 * 2147483647;
            entries.push(MetafileEntry { path, mode, uid, gid });
        }
        let mut text = String::new();
        Metafile::new(entries.clone()).dump(&mut text);
        assert_eq!(metafile_with_std(&text, true), Ok((entries.clone(), vec![])));
        assert_eq!(metafile_with_library(&text, true), Ok((entries, vec![])));
    }
}

fn paths_with_std(files: &[String], deleted: &[String]) -> Vec<String> {
    let deleted: BTreeSet<PathBuf> = deleted.iter().map(PathBuf::from).collect();
    let mut paths: BTreeSet<PathBuf> = BTreeSet::new();
    for file in files {
        let mut path = PathBuf::from(file);
        if deleted.contains(&path) {
            continue;
        }
        loop {
            paths.insert(path.clone());
            if !path.pop() {
                break;
            }
        }
    }
    paths.remove(Path::new(""));
    paths.into_iter().map(|p| p.display().to_string()).collect()
}

#[test]
fn paths_are_listed_as_a_sorted_set_of_paths_lists_them() {
    let names = ["a", "b", "ab", "a-b", "a.b", "A", "é", "a b", "_", "~", "a!", "0"];
    let mut random = Random(4);
    for _ in 0..2000 {
        let mut files = vec![];
        for _ in 0..random.next(6) {
            let mut components = vec![];
            for _ in 0..1 + random.next(4) {
                components.push(names[random.next(names.len())]);
            }
            files.push(components.join("/"));
        }
        let mut deleted = vec![];
        for file in &files {
            if random.next(4) == 0 {
                deleted.push(file.clone());
            }
        }
        assert_eq!(
            staged_files(&files, &deleted),
            paths_with_std(&files, &deleted),
            "{:?} without {:?}",
            files,
            deleted
        );
    }
}
