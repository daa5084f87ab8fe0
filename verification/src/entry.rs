//! One line of a metafile: a path with its mode, owner and group.

use crate::error::{number_error_text, ErrorView, MetafileError};
use crate::number::{
    lemma_number_lacks, lemma_parse_render, parse_number, push_number, read_number,
    render_number,
};
use crate::text::{
    append_chars, from_chars, lacks, lemma_split_first, lemma_split_whole, split, split_chars,
    to_chars, views,
};
use vstd::prelude::*;

verus! {

/// The metadata of one path.
#[derive(Debug, Clone, PartialEq, Eq)]
pub struct MetafileEntry {
    /// The path, relative to the top of the repository.
    pub path: String,
    /// The permission and file-type bits.
    pub mode: u32,
    /// The numeric id of the owning user.
    pub uid: u32,
    /// The numeric id of the owning group.
    pub gid: u32,
}

/// A `MetafileEntry` as a mathematical value.
pub struct EntryView {
    pub path: Seq<char>,
    pub mode: u32,
    pub uid: u32,
    pub gid: u32,
}

impl View for MetafileEntry {
    type V = EntryView;

    open spec fn view(&self) -> EntryView {
        EntryView { path: self.path@, mode: self.mode, uid: self.uid, gid: self.gid }
    }
}

/// The cause given for a line with fewer than four fields.
pub open spec fn too_few_fields_text() -> Seq<char> {
    "expected 4 fields"@
}

/// The line for an entry: path, mode in base eight, owner and group in base
/// ten, with a tab between each two.
pub open spec fn render_entry(e: EntryView) -> Seq<char> {
    e.path + seq!['\t'] + render_number(e.mode as nat, 8) + seq!['\t'] + render_number(
        e.uid as nat,
        10,
    ) + seq!['\t'] + render_number(e.gid as nat, 10)
}

/// What a line holds: the entry, or the cause for which it is malformed. The
/// line is split at tabs; fields after the fourth are ignored; of several
/// faults the first in the order mode, owner, group is named.
pub open spec fn parse_entry(line: Seq<char>) -> Result<EntryView, Seq<char>> {
    let fields = split(line, '\t');
    if fields.len() < 4 {
        Err(too_few_fields_text())
    } else {
        match parse_number(fields[1], 8) {
            Err(e) => Err(number_error_text(e)),
            Ok(mode) => match parse_number(fields[2], 10) {
                Err(e) => Err(number_error_text(e)),
                Ok(uid) => match parse_number(fields[3], 10) {
                    Err(e) => Err(number_error_text(e)),
                    Ok(gid) => Ok(
                        EntryView {
                            path: fields[0],
                            mode: mode as u32,
                            uid: uid as u32,
                            gid: gid as u32,
                        },
                    ),
                },
            },
        }
    }
}

/// The fields of a rendered entry whose path holds no tab.
pub proof fn lemma_render_entry_fields(e: EntryView)
    requires
        lacks(e.path, '\t'),
    ensures
        split(render_entry(e), '\t') == seq![
            e.path,
            render_number(e.mode as nat, 8),
            render_number(e.uid as nat, 10),
            render_number(e.gid as nat, 10),
        ],
{
    let mode = render_number(e.mode as nat, 8);
    let uid = render_number(e.uid as nat, 10);
    let gid = render_number(e.gid as nat, 10);
    let tab = seq!['\t'];
    lemma_number_lacks(e.mode as nat, 8, '\t');
    lemma_number_lacks(e.uid as nat, 10, '\t');
    lemma_number_lacks(e.gid as nat, 10, '\t');
    let after_uid = gid;
    let after_mode = uid + tab + after_uid;
    let after_path = mode + tab + after_mode;
    assert(render_entry(e) =~= e.path + tab + after_path);
    lemma_split_first(e.path, '\t', after_path);
    lemma_split_first(mode, '\t', after_mode);
    lemma_split_first(uid, '\t', after_uid);
    lemma_split_whole(gid, '\t');
    assert(split(render_entry(e), '\t') =~= seq![e.path, mode, uid, gid]);
}

/// Reading the line that an entry renders to gives the entry back, provided
/// its path holds no tab.
pub proof fn lemma_parse_render_entry(e: EntryView)
    requires
        lacks(e.path, '\t'),
    ensures
        parse_entry(render_entry(e)) == Ok::<EntryView, Seq<char>>(e),
{
    lemma_render_entry_fields(e);
    lemma_parse_render(e.mode as nat, 8);
    lemma_parse_render(e.uid as nat, 10);
    lemma_parse_render(e.gid as nat, 10);
}

impl MetafileEntry {
    /// Reads one line of a metafile, given without its line ending.
    pub fn parse(line: &str) -> (r: Result<MetafileEntry, MetafileError>)
        ensures
            match r {
                Ok(entry) => parse_entry(line@) == Ok::<EntryView, Seq<char>>(entry@),
                Err(error) => parse_entry(line@) is Err && error@ == ErrorView::Malformed(
                    parse_entry(line@)->Err_0,
                ),
            },
    {
        Self::parse_chars(&to_chars(line))
    }

    /// Reads one line of a metafile, given as characters.
    pub(crate) fn parse_chars(line: &Vec<char>) -> (r: Result<MetafileEntry, MetafileError>)
        ensures
            match r {
                Ok(entry) => parse_entry(line@) == Ok::<EntryView, Seq<char>>(entry@),
                Err(error) => parse_entry(line@) is Err && error@ == ErrorView::Malformed(
                    parse_entry(line@)->Err_0,
                ),
            },
    {
        let fields = split_chars(line, '\t');
        if fields.len() < 4 {
            return Err(MetafileError::Malformed("expected 4 fields".to_owned()));
        }
        proof {
            assert(views(fields@)[0] == fields@[0]@);
            assert(views(fields@)[1] == fields@[1]@);
            assert(views(fields@)[2] == fields@[2]@);
            assert(views(fields@)[3] == fields@[3]@);
        }
        let mode = match read_number(&fields[1], 8) {
            Ok(mode) => mode,
            Err(e) => {
                return Err(MetafileError::from_number_error(e));
            },
        };
        let uid = match read_number(&fields[2], 10) {
            Ok(uid) => uid,
            Err(e) => {
                return Err(MetafileError::from_number_error(e));
            },
        };
        let gid = match read_number(&fields[3], 10) {
            Ok(gid) => gid,
            Err(e) => {
                return Err(MetafileError::from_number_error(e));
            },
        };
        Ok(MetafileEntry { path: from_chars(&fields[0]), mode, uid, gid })
    }

    /// Appends the characters of this entry's line, without a line ending.
    pub(crate) fn push_line(&self, out: &mut Vec<char>)
        ensures
            final(out)@ == old(out)@ + render_entry(self@),
    {
        let mut path = to_chars(self.path.as_str());
        out.append(&mut path);
        out.push('\t');
        push_number(out, self.mode as u64, 8);
        out.push('\t');
        push_number(out, self.uid as u64, 10);
        out.push('\t');
        push_number(out, self.gid as u64, 10);
        proof {
            assert(out@ =~= old(out)@ + render_entry(self@));
        }
    }

    /// This entry's line, without a line ending.
    pub fn to_string(&self) -> (s: String)
        ensures
            s@ == render_entry(self@),
    {
        let mut line: Vec<char> = Vec::new();
        self.push_line(&mut line);
        from_chars(&line)
    }

    /// Appends this entry's line and a line feed to `dest`.
    pub fn dump(&self, dest: &mut String)
        ensures
            final(dest)@ == old(dest)@ + render_entry(self@) + seq!['\n'],
    {
        let mut line: Vec<char> = Vec::new();
        self.push_line(&mut line);
        line.push('\n');
        append_chars(dest, &line);
    }
}

} // verus!
