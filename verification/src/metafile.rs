//! The metafile: a header line with the version of the format, then one line
//! for each entry. Comments and empty lines may stand anywhere, before the
//! header too. Every line that is written ends with a line feed.

use crate::entry::{parse_entry, render_entry, EntryView, MetafileEntry};
use crate::error::{ErrorView, MetafileError};
use crate::number::{parse_number, push_number, read_number, render_number};
use crate::text::{
    append_chars, copy_range, find_from, has_prefix, index_of, starts_with_at, strip_repeated,
    to_chars, trim, trim_from, views,
};
use vstd::prelude::*;
use vstd::string::StringExecFns;

verus! {

/// The version of the format that is written and read.
pub const METAFILE_VERSION: u32 = 1;

/// The token that the header line begins with.
pub open spec fn header_token() -> Seq<char> {
    "#%GIT-METAFILE"@
}

/// The comment under the header, which names the columns.
pub open spec fn columns_comment() -> Seq<char> {
    "# <path>\t<mode>\t<uid>\t<gid>"@
}

/// The comment that ends the file, a hint for editors.
pub open spec fn closing_comment() -> Seq<char> {
    "# vim: set ts=16"@
}

/// The cause given where the header is absent or cannot be read.
pub open spec fn header_fault_text() -> Seq<char> {
    "missing or malformed header"@
}

/// `line` without the carriage return at its end, if it has one.
pub open spec fn chomp(line: Seq<char>) -> Seq<char> {
    if line.len() > 0 && line.last() == '\r' {
        line.drop_last()
    } else {
        line
    }
}

/// The lines of a text. A line ends with a line feed, or with a carriage
/// return and a line feed, neither of which belongs to it; what follows the
/// last line feed is a line too, unless it is empty.
pub open spec fn lines(text: Seq<char>) -> Seq<Seq<char>>
    decreases text.len(),
{
    if text.len() == 0 {
        Seq::empty()
    } else {
        let i = index_of(text, '\n');
        if 0 <= i < text.len() {
            seq![chomp(text.take(i))] + lines(text.skip(i + 1))
        } else {
            seq![text]
        }
    }
}

/// The version that a header line declares: the line begins with the token,
/// and what follows its repetitions is, white space apart, a `u32` in base ten.
pub open spec fn header_version(line: Seq<char>) -> Option<u32> {
    if has_prefix(line, header_token()) {
        match parse_number(trim(strip_repeated(line, header_token())), 10) {
            Ok(version) => Some(version as u32),
            Err(_) => None,
        }
    } else {
        None
    }
}

/// Lines that hold no entry: empty ones, and comments.
pub open spec fn is_skipped(line: Seq<char>) -> bool {
    line.len() == 0 || line[0] == '#'
}

/// Lines that may stand before the header: empty ones, and comments that do
/// not begin with the header's token.
pub open spec fn is_preamble(line: Seq<char>) -> bool {
    is_skipped(line) && !has_prefix(line, header_token())
}

/// `h` is the index of the first line that is not passed over in search of
/// the header, or the number of lines if all are.
pub open spec fn is_header_index(lines: Seq<Seq<char>>, h: int) -> bool {
    &&& 0 <= h <= lines.len()
    &&& h < lines.len() ==> !is_preamble(lines[h])
    &&& forall|j: int| 0 <= j < h ==> is_preamble(#[trigger] lines[j])
}

/// The index of the line on which the header must stand: the first that is
/// neither empty nor a comment of another kind; the number of lines if there
/// is no such line.
pub open spec fn header_index(lines: Seq<Seq<char>>) -> int
    decreases lines.len(),
{
    if lines.len() == 0 || !is_preamble(lines[0]) {
        0
    } else {
        1 + header_index(lines.drop_first())
    }
}

/// `header_index` is the first line that is not passed over, and nothing else is.
pub proof fn lemma_header_index(lines: Seq<Seq<char>>)
    ensures
        is_header_index(lines, header_index(lines)),
        forall|h: int| is_header_index(lines, h) ==> h == header_index(lines),
    decreases lines.len(),
{
    if lines.len() == 0 || !is_preamble(lines[0]) {
        assert forall|h: int| is_header_index(lines, h) implies h == 0 by {
            if h > 0 {
                assert(is_preamble(lines[0]));
            }
        }
    } else {
        let rest = lines.drop_first();
        lemma_header_index(rest);
        let k = header_index(rest);
        assert forall|j: int| 0 <= j < k + 1 implies is_preamble(#[trigger] lines[j]) by {
            if j > 0 {
                assert(rest[j - 1] == lines[j]);
            }
        }
        assert forall|h: int| is_header_index(lines, h) implies h == k + 1 by {
            assert(h > 0);
            assert forall|j: int| 0 <= j < h - 1 implies is_preamble(#[trigger] rest[j]) by {
                assert(rest[j] == lines[j + 1]);
            }
            assert(is_header_index(rest, h - 1));
        }
    }
}

/// Lines that should hold an entry and do not.
pub open spec fn is_malformed(line: Seq<char>) -> bool {
    !is_skipped(line) && parse_entry(line) is Err
}

/// The report on the malformed line with index `index`; lines are counted from one.
pub open spec fn line_report(index: int, line: Seq<char>) -> ErrorView {
    ErrorView::Malformed(
        parse_entry(line)->Err_0 + " at line "@ + render_number((index + 1) as nat, 10),
    )
}

/// The entries on the lines with index `first` to `n - 1`, in order.
pub open spec fn entries_upto(lines: Seq<Seq<char>>, first: int, n: int) -> Seq<EntryView>
    decreases n - first,
{
    if n <= first {
        Seq::empty()
    } else {
        let before = entries_upto(lines, first, n - 1);
        let line = lines[n - 1];
        if !is_skipped(line) && parse_entry(line) is Ok {
            before.push(parse_entry(line)->Ok_0)
        } else {
            before
        }
    }
}

/// The reports on the malformed lines with index `first` to `n - 1`, in order.
pub open spec fn reports_upto(lines: Seq<Seq<char>>, first: int, n: int) -> Seq<ErrorView>
    decreases n - first,
{
    if n <= first {
        Seq::empty()
    } else {
        let before = reports_upto(lines, first, n - 1);
        if is_malformed(lines[n - 1]) {
            before.push(line_report(n - 1, lines[n - 1]))
        } else {
            before
        }
    }
}

/// What reading a metafile gives: the entries, and a report for each line
/// that was passed over as malformed.
pub struct ParsedView {
    pub entries: Seq<EntryView>,
    pub diagnostics: Seq<ErrorView>,
}

/// What reading `text` gives. Empty lines and comments may stand before the
/// header; the first other line must be a header with the supported version.
/// The lines after it hold the entries. Strict reading fails with the report
/// on the first malformed line; lenient reading passes such lines over and
/// reports them. Lines are numbered as they stand in the text.
pub open spec fn parse_metafile(text: Seq<char>, strict: bool) -> Result<ParsedView, ErrorView> {
    let all = lines(text);
    let h = header_index(all);
    if h >= all.len() {
        Err(ErrorView::Malformed(header_fault_text()))
    } else {
        match header_version(all[h]) {
            None => Err(ErrorView::Malformed(header_fault_text())),
            Some(version) => if version != METAFILE_VERSION {
                Err(ErrorView::UnsupportedVersion(version))
            } else {
                let reports = reports_upto(all, h + 1, all.len() as int);
                if strict && reports.len() > 0 {
                    Err(reports[0])
                } else {
                    Ok(
                        ParsedView {
                            entries: entries_upto(all, h + 1, all.len() as int),
                            diagnostics: reports,
                        },
                    )
                }
            },
        }
    }
}

/// The lines of the entries, each with its line feed.
pub open spec fn render_entries(entries: Seq<EntryView>) -> Seq<char>
    decreases entries.len(),
{
    if entries.len() == 0 {
        Seq::empty()
    } else {
        render_entries(entries.drop_last()) + render_entry(entries.last()) + seq!['\n']
    }
}

/// The text of a metafile with these entries: the header, a comment that
/// names the columns, the entries, and a closing comment, each line ended by
/// a line feed.
pub open spec fn render_metafile(entries: Seq<EntryView>) -> Seq<char> {
    header_token() + seq![' '] + render_number(METAFILE_VERSION as nat, 10) + seq!['\n']
        + columns_comment() + seq!['\n'] + render_entries(entries) + closing_comment()
        + seq!['\n']
}

/// The entries as mathematical values.
pub open spec fn entry_views(entries: Seq<MetafileEntry>) -> Seq<EntryView> {
    Seq::new(entries.len(), |i: int| entries[i]@)
}

/// The errors as mathematical values.
pub open spec fn error_views(errors: Seq<MetafileError>) -> Seq<ErrorView> {
    Seq::new(errors.len(), |i: int| errors[i]@)
}

/// The metadata of a set of paths, in the order in which they are stored.
///
/// A path may occur more than once: reading keeps every entry at its place
/// and rejects none, and each entry is applied by itself, so that of several
/// entries for one path the last one decides.
#[derive(Debug)]
pub struct Metafile {
    pub entries: Vec<MetafileEntry>,
}

impl View for Metafile {
    type V = Seq<EntryView>;

    open spec fn view(&self) -> Seq<EntryView> {
        entry_views(self.entries@)
    }
}

/// A metafile as it was read, with a report for each malformed line that was
/// passed over.
#[derive(Debug)]
pub struct Parsed {
    pub metafile: Metafile,
    pub diagnostics: Vec<MetafileError>,
}

impl View for Parsed {
    type V = ParsedView;

    open spec fn view(&self) -> ParsedView {
        ParsedView { entries: self.metafile@, diagnostics: error_views(self.diagnostics@) }
    }
}

/// `boolinator::Boolinator::as_some`: `Some(some)` where `b` holds, `None` where it does not.
#[verifier::external_body]
fn as_some<T>(b: bool, some: T) -> (r: Option<T>)
    ensures
        r == (if b {
            Some(some)
        } else {
            None
        }),
{
    boolinator::Boolinator::as_some(b, some)
}

/// Splits `text` into its lines.
pub(crate) fn split_lines(text: &Vec<char>) -> (r: Vec<Vec<char>>)
    ensures
        views(r@) == lines(text@),
{
    let mut r: Vec<Vec<char>> = Vec::new();
    let mut start: usize = 0;
    proof {
        assert(text@.skip(0) =~= text@);
        assert(views(r@) + lines(text@) =~= lines(text@));
    }
    while start < text.len()
        invariant
            start <= text.len(),
            views(r@) + lines(text@.skip(start as int)) == lines(text@),
        decreases text.len() - start,
    {
        let end = find_from(text, start, '\n');
        let ghost before = r@;
        let ghost tail = text@.skip(start as int);
        proof {
            assert(tail.take(end - start) =~= text@.subrange(start as int, end as int));
        }
        if end == text.len() {
            r.push(copy_range(text, start, end));
            proof {
                assert(tail.take(end - start) =~= tail);
                assert(lines(text@.skip(end as int)) =~= Seq::<Seq<char>>::empty());
                assert(views(r@) =~= views(before) + lines(tail));
            }
            start = end;
        } else {
            let stop = if end > start && text[end - 1] == '\r' {
                end - 1
            } else {
                end
            };
            r.push(copy_range(text, start, stop));
            proof {
                let line = tail.take(end - start);
                assert(chomp(line) =~= text@.subrange(start as int, stop as int));
                assert(tail.skip(end - start + 1) =~= text@.skip(end + 1));
                assert(views(r@) =~= views(before).push(chomp(line)));
                assert(views(r@) + lines(text@.skip(end + 1)) =~= views(before) + lines(tail));
            }
            start = end + 1;
        }
    }
    proof {
        assert(lines(text@.skip(start as int)) =~= Seq::<Seq<char>>::empty());
        assert(views(r@) + Seq::<Seq<char>>::empty() =~= views(r@));
    }
    r
}

/// The characters of the header's token.
fn header_token_chars() -> (token: Vec<char>)
    ensures
        token@ == header_token(),
        token@.len() == 14,
{
    proof {
        reveal_strlit("#%GIT-METAFILE");
    }
    to_chars("#%GIT-METAFILE")
}

/// Whether `line` may stand before the header.
fn is_preamble_line(line: &Vec<char>, token: &Vec<char>) -> (r: bool)
    requires
        token@ == header_token(),
    ensures
        r == is_preamble(line@),
{
    proof {
        assert(line@.skip(0) =~= line@);
    }
    (line.len() == 0 || line[0] == '#') && !starts_with_at(line, 0, token)
}

/// The version that the header line declares.
fn read_header(line: &Vec<char>, token: &Vec<char>) -> (r: Option<u32>)
    requires
        token@ == header_token(),
        token@.len() == 14,
    ensures
        r == header_version(line@),
{
    proof {
        assert(line@.skip(0) =~= line@);
    }
    match as_some(starts_with_at(line, 0, token), line) {
        None => None,
        Some(line) => {
            let mut from: usize = 0;
            while starts_with_at(line, from, token)
                invariant
                    from <= line.len(),
                    token@.len() == 14,
                    strip_repeated(line@, token@) == strip_repeated(
                        line@.skip(from as int),
                        token@,
                    ),
                decreases line.len() - from,
            {
                proof {
                    assert(line@.skip(from as int).skip(token@.len() as int) =~= line@.skip(
                        from + token@.len(),
                    ));
                }
                from += token.len();
            }
            let digits = trim_from(line, from);
            match read_number(&digits, 10) {
                Ok(version) => Some(version),
                Err(_) => None,
            }
        },
    }
}

/// The report on a malformed line, from its cause and the line's index.
fn report_line(error: MetafileError, index: usize) -> (r: MetafileError)
    requires
        index < usize::MAX,
        error@ is Malformed,
    ensures
        r@ == ErrorView::Malformed(
            error@->Malformed_0 + " at line "@ + render_number((index + 1) as nat, 10),
        ),
{
    match error {
        MetafileError::Malformed(cause) => {
            let mut text = cause;
            text.append(" at line ");
            let mut number: Vec<char> = Vec::new();
            push_number(&mut number, index as u64 + 1, 10);
            append_chars(&mut text, &number);
            MetafileError::Malformed(text)
        },
        other => other,
    }
}

impl Metafile {
    /// The metafile with these entries.
    pub fn new(entries: Vec<MetafileEntry>) -> (r: Metafile)
        ensures
            r.entries == entries,
    {
        Metafile { entries }
    }

    /// Reads the text of a metafile.
    pub fn parse(source: &str, strict: bool) -> (r: Result<Parsed, MetafileError>)
        ensures
            match r {
                Ok(parsed) => parse_metafile(source@, strict) == Ok::<ParsedView, ErrorView>(
                    parsed@,
                ),
                Err(error) => parse_metafile(source@, strict) == Err::<ParsedView, ErrorView>(
                    error@,
                ),
            },
    {
        let text = to_chars(source);
        let all = split_lines(&text);
        let token = header_token_chars();
        let mut h: usize = 0;
        while h < all.len() && is_preamble_line(&all[h], &token)
            invariant
                h <= all.len(),
                token@ == header_token(),
                forall|j: int| 0 <= j < h ==> is_preamble(#[trigger] views(all@)[j]),
            decreases all.len() - h,
        {
            assert(views(all@)[h as int] == all@[h as int]@);
            h += 1;
        }
        proof {
            if h < all.len() {
                assert(views(all@)[h as int] == all@[h as int]@);
            }
            assert(is_header_index(views(all@), h as int));
            lemma_header_index(views(all@));
        }
        if h == all.len() {
            return Err(MetafileError::Malformed("missing or malformed header".to_owned()));
        }
        let version = match read_header(&all[h], &token) {
            Some(version) => version,
            None => {
                return Err(MetafileError::Malformed("missing or malformed header".to_owned()));
            },
        };
        if version != METAFILE_VERSION {
            return Err(MetafileError::UnsupportedVersion(version));
        }
        let mut entries: Vec<MetafileEntry> = Vec::new();
        let mut diagnostics: Vec<MetafileError> = Vec::new();
        let mut i: usize = h + 1;
        while i < all.len()
            invariant
                h < i <= all.len(),
                views(all@) == lines(source@),
                h == header_index(lines(source@)),
                header_version(lines(source@)[h as int]) == Some(METAFILE_VERSION),
                entry_views(entries@) == entries_upto(lines(source@), h + 1, i as int),
                error_views(diagnostics@) == reports_upto(lines(source@), h + 1, i as int),
                strict ==> diagnostics@.len() == 0,
            decreases all.len() - i,
        {
            let line = &all[i];
            assert(views(all@)[i as int] == line@);
            let ghost entries_before = entries@;
            let ghost diagnostics_before = diagnostics@;
            if line.len() > 0 && line[0] != '#' {
                match MetafileEntry::parse_chars(line) {
                    Ok(entry) => {
                        entries.push(entry);
                        proof {
                            assert(entry_views(entries@) =~= entry_views(entries_before).push(
                                entry@,
                            ));
                        }
                    },
                    Err(error) => {
                        let report = report_line(error, i);
                        if strict {
                            proof {
                                let reports = reports_upto(lines(source@), h + 1, i + 1);
                                assert(reports =~= seq![report@]);
                                lemma_reports_grow(
                                    lines(source@),
                                    h + 1,
                                    i + 1,
                                    all.len() as int,
                                );
                            }
                            return Err(report);
                        }
                        diagnostics.push(report);
                        proof {
                            assert(error_views(diagnostics@) =~= error_views(
                                diagnostics_before,
                            ).push(report@));
                        }
                    },
                }
            }
            i += 1;
        }
        Ok(Parsed { metafile: Metafile { entries }, diagnostics })
    }

    /// Appends the text of this metafile to `dest`.
    pub fn dump(self, dest: &mut String)
        ensures
            final(dest)@ == old(dest)@ + render_metafile(self@),
    {
        let mut text: Vec<char> = to_chars("#%GIT-METAFILE");
        text.push(' ');
        push_number(&mut text, METAFILE_VERSION as u64, 10);
        text.push('\n');
        let mut comment = to_chars("# <path>\t<mode>\t<uid>\t<gid>");
        text.append(&mut comment);
        text.push('\n');
        let ghost head = text@;
        let mut i: usize = 0;
        proof {
            assert(entry_views(self.entries@).take(0) =~= Seq::<EntryView>::empty());
            assert(text@ =~= head + render_entries(Seq::<EntryView>::empty()));
        }
        while i < self.entries.len()
            invariant
                i <= self.entries.len(),
                text@ == head + render_entries(entry_views(self.entries@).take(i as int)),
            decreases self.entries.len() - i,
        {
            let ghost before = text@;
            self.entries[i].push_line(&mut text);
            text.push('\n');
            proof {
                let done = entry_views(self.entries@).take(i + 1);
                assert(done.drop_last() =~= entry_views(self.entries@).take(i as int));
                assert(done.last() == self.entries@[i as int]@);
                assert(text@ =~= head + render_entries(done));
            }
            i += 1;
        }
        let mut closing = to_chars("# vim: set ts=16");
        text.append(&mut closing);
        text.push('\n');
        proof {
            assert(entry_views(self.entries@).take(i as int) =~= entry_views(self.entries@));
            assert(text@ =~= render_metafile(self@));
        }
        append_chars(dest, &text);
    }
}

/// The reports on a longer run of lines begin with the reports on a shorter one.
pub proof fn lemma_reports_grow(lines: Seq<Seq<char>>, first: int, m: int, n: int)
    requires
        m <= n,
    ensures
        reports_upto(lines, first, m).len() <= reports_upto(lines, first, n).len(),
        forall|k: int|
            0 <= k < reports_upto(lines, first, m).len() ==> reports_upto(lines, first, n)[k]
                == reports_upto(lines, first, m)[k],
    decreases n - m,
{
    if m < n {
        lemma_reports_grow(lines, first, m, n - 1);
    }
}

} // verus!
