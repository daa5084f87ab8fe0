//! What holds of reading and writing metafiles, whatever the entries and the text.

use crate::entry::{lemma_parse_render_entry, render_entry, EntryView};
use crate::error::ErrorView;
use crate::metafile::{
    chomp, closing_comment, columns_comment, entries_upto, header_index, header_token,
    header_version, is_malformed, is_preamble, is_skipped, line_report, lines, parse_metafile,
    render_entries, render_metafile, reports_upto, ParsedView, METAFILE_VERSION,
};
use crate::number::{lemma_number_lacks, lemma_parse_render, render_number};
use crate::text::{
    has_prefix, is_whitespace, lacks, lemma_split_first, strip_repeated, trim,
    trim_end, trim_start,
};
use vstd::prelude::*;

verus! {

/// An entry that a metafile can hold and give back: its path has no tab and
/// no line feed in it and does not begin like a comment.
pub open spec fn is_storable(e: EntryView) -> bool {
    &&& lacks(e.path, '\t')
    &&& lacks(e.path, '\n')
    &&& e.path.len() > 0 ==> e.path[0] != '#'
}

/// Every one of the entries is storable.
pub open spec fn all_storable(entries: Seq<EntryView>) -> bool {
    forall|i: int| 0 <= i < entries.len() ==> is_storable(#[trigger] entries[i])
}

/// The lines of the entries.
pub open spec fn entry_lines(entries: Seq<EntryView>) -> Seq<Seq<char>> {
    Seq::new(entries.len(), |i: int| render_entry(entries[i]))
}

/// A header that declares another version than the supported one makes
/// reading fail with that version, whatever follows the header and whether
/// the reading is strict or not.
pub proof fn lemma_version_gate(text: Seq<char>, strict: bool, version: u32)
    requires
        header_index(lines(text)) < lines(text).len(),
        header_version(lines(text)[header_index(lines(text))]) == Some(version),
        version != METAFILE_VERSION,
    ensures
        parse_metafile(text, strict) == Err::<ParsedView, ErrorView>(
            ErrorView::UnsupportedVersion(version),
        ),
{
}

/// What two sequences lack, the two joined lack.
proof fn lemma_lacks_joined(a: Seq<char>, b: Seq<char>, c: char)
    requires
        lacks(a, c),
        lacks(b, c),
    ensures
        lacks(a + b, c),
{
}

/// The line of a storable entry is one line, is not passed over, and keeps
/// its last character when read.
proof fn lemma_entry_line(e: EntryView)
    requires
        is_storable(e),
    ensures
        lacks(render_entry(e), '\n'),
        chomp(render_entry(e)) == render_entry(e),
        !is_skipped(render_entry(e)),
{
    let tab = seq!['\t'];
    let mode = render_number(e.mode as nat, 8);
    let uid = render_number(e.uid as nat, 10);
    let gid = render_number(e.gid as nat, 10);
    lemma_number_lacks(e.mode as nat, 8, '\n');
    lemma_number_lacks(e.uid as nat, 10, '\n');
    lemma_number_lacks(e.gid as nat, 10, '\n');
    lemma_number_lacks(e.gid as nat, 10, '\r');
    lemma_lacks_joined(e.path, tab, '\n');
    lemma_lacks_joined(e.path + tab, mode, '\n');
    lemma_lacks_joined(e.path + tab + mode, tab, '\n');
    lemma_lacks_joined(e.path + tab + mode + tab, uid, '\n');
    lemma_lacks_joined(e.path + tab + mode + tab + uid, tab, '\n');
    lemma_lacks_joined(e.path + tab + mode + tab + uid + tab, gid, '\n');
    let line = render_entry(e);
    assert(line.last() == gid.last());
    if e.path.len() > 0 {
        assert(line[0] == e.path[0]);
    } else {
        assert(line[0] == '\t');
    }
}

/// The first line of a text is what stands before its first line feed.
proof fn lemma_lines_first(head: Seq<char>, rest: Seq<char>)
    requires
        lacks(head, '\n'),
    ensures
        lines(head + seq!['\n'] + rest) == seq![chomp(head)] + lines(rest),
{
    let text = head + seq!['\n'] + rest;
    let i = head.len() as int;
    lemma_split_first(head, '\n', rest);
    assert(text.take(i) =~= head);
    assert(text.skip(i + 1) =~= rest);
}

/// Rendering one more entry appends its line.
proof fn lemma_render_entries_push(entries: Seq<EntryView>, e: EntryView)
    ensures
        render_entries(entries.push(e)) == render_entries(entries) + render_entry(e) + seq!['\n'],
{
    assert(entries.push(e).drop_last() =~= entries);
}

/// The lines of rendered entries, with any text behind them.
proof fn lemma_lines_of_entries(entries: Seq<EntryView>, rest: Seq<char>)
    requires
        all_storable(entries),
    ensures
        lines(render_entries(entries) + rest) == entry_lines(entries) + lines(rest),
    decreases entries.len(),
{
    if entries.len() == 0 {
        assert(render_entries(entries) + rest =~= rest);
        assert(entry_lines(entries) + lines(rest) =~= lines(rest));
    } else {
        let init = entries.drop_last();
        let last = entries.last();
        let line = render_entry(last);
        assert(is_storable(entries[entries.len() - 1]));
        assert forall|i: int| 0 <= i < init.len() implies is_storable(#[trigger] init[i]) by {
            assert(init[i] == entries[i]);
        }
        lemma_entry_line(last);
        lemma_lines_first(line, rest);
        lemma_lines_of_entries(init, line + seq!['\n'] + rest);
        assert(render_entries(entries) + rest =~= render_entries(init) + (line + seq!['\n']
            + rest));
        assert(entry_lines(entries) + lines(rest) =~= entry_lines(init) + (seq![line] + lines(
            rest,
        )));
    }
}

/// The header line that is written declares the supported version.
proof fn lemma_written_header()
    ensures
        ({
            let line = header_token() + seq![' '] + render_number(METAFILE_VERSION as nat, 10);
            &&& header_version(line) == Some(METAFILE_VERSION)
            &&& !is_preamble(line)
            &&& lacks(line, '\n')
            &&& chomp(line) == line
        }),
{
    reveal_strlit("#%GIT-METAFILE");
    let token = header_token();
    let number = render_number(METAFILE_VERSION as nat, 10);
    let line = token + seq![' '] + number;
    lemma_parse_render(1, 10);
    assert(number =~= seq!['1']);
    assert(line.take(token.len() as int) =~= token);
    let after = line.skip(token.len() as int);
    assert(after =~= seq![' ', '1']);
    assert(!has_prefix(after, token));
    assert(strip_repeated(after, token) == after);
    assert(strip_repeated(line, token) == after);
    assert(is_whitespace(' '));
    assert(!is_whitespace('1'));
    assert(after.drop_first() =~= number);
    assert(trim_start(number) == number);
    assert(trim_start(after) == number);
    assert(trim_end(number) == number);
    assert(trim(after) == number);
    assert(line.last() == '1');
}

/// The lines of a written metafile: the header, the comment that names the
/// columns, one line for each entry, and the closing comment.
proof fn lemma_written_lines(entries: Seq<EntryView>)
    requires
        all_storable(entries),
    ensures
        lines(render_metafile(entries)) == seq![
            header_token() + seq![' '] + render_number(METAFILE_VERSION as nat, 10),
            columns_comment(),
        ] + entry_lines(entries) + seq![closing_comment()],
{
    reveal_strlit("# <path>\t<mode>\t<uid>\t<gid>");
    reveal_strlit("# vim: set ts=16");
    lemma_written_header();
    let header = header_token() + seq![' '] + render_number(METAFILE_VERSION as nat, 10);
    let columns = columns_comment();
    let closing = closing_comment();
    let body = render_entries(entries) + (closing + seq!['\n']);
    let below = columns + seq!['\n'] + body;
    assert(render_metafile(entries) =~= header + seq!['\n'] + below);
    assert(lacks(columns, '\n'));
    assert(lacks(closing, '\n'));
    assert(chomp(columns) == columns);
    assert(chomp(closing) == closing);
    lemma_lines_first(header, below);
    lemma_lines_first(columns, body);
    lemma_lines_of_entries(entries, closing + seq!['\n']);
    lemma_lines_first(closing, Seq::empty());
    assert(closing + seq!['\n'] + Seq::<char>::empty() =~= closing + seq!['\n']);
    assert(seq![closing] + lines(Seq::<char>::empty()) =~= seq![closing]);
    assert(seq![header] + (seq![columns] + (entry_lines(entries) + seq![closing])) =~= seq![
        header,
        columns,
    ] + entry_lines(entries) + seq![closing]);
}

/// What is read from the first `n` lines of a written metafile.
proof fn lemma_written_body(all: Seq<Seq<char>>, entries: Seq<EntryView>, n: int)
    requires
        all_storable(entries),
        all.len() == entries.len() + 3,
        is_skipped(all[1]),
        forall|j: int| 0 <= j < entries.len() ==> all[j + 2] == render_entry(entries[j]),
        2 <= n <= entries.len() + 2,
    ensures
        entries_upto(all, 1, n) == entries.take(n - 2),
        reports_upto(all, 1, n) == Seq::<ErrorView>::empty(),
    decreases n,
{
    if n == 2 {
        assert(entries_upto(all, 1, 1) == Seq::<EntryView>::empty());
        assert(reports_upto(all, 1, 1) == Seq::<ErrorView>::empty());
        assert(entries.take(0) =~= Seq::<EntryView>::empty());
    } else {
        lemma_written_body(all, entries, n - 1);
        let e = entries[n - 3];
        assert(is_storable(e));
        assert(all[n - 1] == render_entry(e));
        lemma_entry_line(e);
        lemma_parse_render_entry(e);
        assert(entries.take(n - 3).push(e) =~= entries.take(n - 2));
    }
}

/// Reading the text that a metafile is written to gives its entries back, in
/// their order, with nothing to report, strictly or not: provided that no
/// path holds a tab or a line feed or begins with `#`.
pub proof fn lemma_parse_render_metafile(entries: Seq<EntryView>, strict: bool)
    requires
        all_storable(entries),
    ensures
        parse_metafile(render_metafile(entries), strict) == Ok::<ParsedView, ErrorView>(
            ParsedView { entries, diagnostics: Seq::empty() },
        ),
{
    reveal_strlit("# <path>\t<mode>\t<uid>\t<gid>");
    reveal_strlit("# vim: set ts=16");
    let all = lines(render_metafile(entries));
    let n = entries.len() as int;
    lemma_written_lines(entries);
    lemma_written_header();
    assert(all.len() == n + 3);
    assert(all[1] == columns_comment());
    assert(all[n + 2] == closing_comment());
    assert forall|j: int| 0 <= j < n implies all[j + 2] == render_entry(entries[j]) by {
        assert(entry_lines(entries)[j] == render_entry(entries[j]));
    }
    lemma_written_body(all, entries, n + 2);
    assert(entries.take(n) =~= entries);
    assert(is_skipped(all[n + 2]));
    assert(header_index(all) == 0);
    assert(entries_upto(all, 1, n + 3) == entries);
    assert(reports_upto(all, 1, n + 3) == Seq::<ErrorView>::empty());
}

/// The reports on lines of which, from `first` on, exactly the line with
/// index `k` is malformed.
proof fn lemma_reports_of_one(all: Seq<Seq<char>>, first: int, k: int, n: int)
    requires
        0 <= first <= k < all.len(),
        is_malformed(all[k]),
        forall|j: int| first <= j < all.len() && j != k ==> !is_malformed(all[j]),
        n <= all.len(),
    ensures
        reports_upto(all, first, n) == if n <= k {
            Seq::<ErrorView>::empty()
        } else {
            seq![line_report(k, all[k])]
        },
    decreases n - first,
{
    if n > first {
        lemma_reports_of_one(all, first, k, n - 1);
        if n - 1 == k {
            assert(Seq::<ErrorView>::empty().push(line_report(k, all[k])) =~= seq![
                line_report(k, all[k]),
            ]);
        }
    }
}

/// Lines of which, from `first` on, none is malformed give no report.
proof fn lemma_reports_of_none(all: Seq<Seq<char>>, first: int, n: int)
    requires
        0 <= first,
        forall|j: int| first <= j < all.len() ==> !is_malformed(all[j]),
        n <= all.len(),
    ensures
        reports_upto(all, first, n) == Seq::<ErrorView>::empty(),
    decreases n - first,
{
    if n > first {
        lemma_reports_of_none(all, first, n - 1);
    }
}

/// A malformed line adds nothing to the entries.
proof fn lemma_entries_without(all: Seq<Seq<char>>, first: int, k: int, n: int)
    requires
        0 <= first <= k < all.len(),
        is_malformed(all[k]),
        n <= all.len(),
    ensures
        entries_upto(all, first, n) == if n <= k {
            entries_upto(all.remove(k), first, n)
        } else {
            entries_upto(all.remove(k), first, n - 1)
        },
    decreases n - first,
{
    let rest = all.remove(k);
    if n > first {
        lemma_entries_without(all, first, k, n - 1);
        if n - 1 < k {
            assert(rest[n - 1] == all[n - 1]);
        } else if n - 1 > k {
            assert(rest[n - 2] == all[n - 1]);
        }
    }
}

/// Of a text with one malformed line among lines that are all valid, strict
/// reading gives no entries and fails with the report on that line; lenient
/// reading reports that line and gives the entries of the other lines, which
/// are what the text without that line holds. The header stands on the line
/// with index `h`, the malformed line, with index `k`, after it.
pub proof fn lemma_one_malformed_line(text: Seq<char>, h: int, k: int)
    requires
        h == header_index(lines(text)),
        h < lines(text).len(),
        header_version(lines(text)[h]) == Some(METAFILE_VERSION),
        h < k < lines(text).len(),
        is_malformed(lines(text)[k]),
        forall|j: int| h < j < lines(text).len() && j != k ==> !is_malformed(lines(text)[j]),
    ensures
        parse_metafile(text, true) == Err::<ParsedView, ErrorView>(
            line_report(k, lines(text)[k]),
        ),
        parse_metafile(text, false) == Ok::<ParsedView, ErrorView>(
            ParsedView {
                entries: entries_upto(lines(text).remove(k), h + 1, lines(text).len() - 1),
                diagnostics: seq![line_report(k, lines(text)[k])],
            },
        ),
        reports_upto(lines(text).remove(k), h + 1, lines(text).len() - 1) == Seq::<
            ErrorView,
        >::empty(),
{
    let all = lines(text);
    let rest = all.remove(k);
    crate::metafile::lemma_header_index(all);
    lemma_reports_of_one(all, h + 1, k, all.len() as int);
    lemma_entries_without(all, h + 1, k, all.len() as int);
    assert forall|j: int| h + 1 <= j < rest.len() implies !is_malformed(rest[j]) by {
        if j < k {
            assert(rest[j] == all[j]);
        } else {
            assert(rest[j] == all[j + 1]);
        }
    }
    lemma_reports_of_none(rest, h + 1, rest.len() as int);
}

/// Every line before the one on which the header is looked for is empty or
/// a comment that does not begin with the token; that line itself is
/// neither; and where reading succeeds, it declares the supported version.
pub proof fn lemma_lines_before_header(text: Seq<char>, strict: bool)
    requires
        header_index(lines(text)) < lines(text).len(),
    ensures
        forall|j: int|
            0 <= j < header_index(lines(text)) ==> is_preamble(#[trigger] lines(text)[j]),
        !is_preamble(lines(text)[header_index(lines(text))]),
        parse_metafile(text, strict) is Ok ==> header_version(
            lines(text)[header_index(lines(text))],
        ) == Some(METAFILE_VERSION),
{
    crate::metafile::lemma_header_index(lines(text));
}

} // verus!
