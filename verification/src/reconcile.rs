//! Bringing the metadata of a path into agreement with an entry, and
//! gathering the entries of a set of paths.

use crate::entry::{EntryView, MetafileEntry};
use crate::error::MetafileError;
use crate::metafile::Metafile;
use crate::number::{push_number, render_number};
use crate::text::{from_chars, to_chars};
use vstd::prelude::*;
use vstd::string::StringExecFns;

verus! {

/// What an entry records of a path.
#[derive(Debug, Clone, Copy, PartialEq, Eq)]
pub enum Attribute {
    /// The permission bits.
    Mode,
    /// The owning user.
    Owner,
    /// The owning group.
    Group,
}

/// A change to make to one attribute of a path.
#[derive(Debug, Clone, Copy, PartialEq, Eq)]
pub struct Change {
    /// The attribute to change.
    pub attribute: Attribute,
    /// The value that the path has now.
    pub from: u32,
    /// The value to give it.
    pub to: u32,
}

/// The value that `e` records for `attribute`.
pub open spec fn attribute_of(e: EntryView, attribute: Attribute) -> u32 {
    match attribute {
        Attribute::Mode => e.mode,
        Attribute::Owner => e.uid,
        Attribute::Group => e.gid,
    }
}

/// `e` with `value` for `attribute`.
pub open spec fn with_attribute(e: EntryView, attribute: Attribute, value: u32) -> EntryView {
    match attribute {
        Attribute::Mode => EntryView { mode: value, ..e },
        Attribute::Owner => EntryView { uid: value, ..e },
        Attribute::Group => EntryView { gid: value, ..e },
    }
}

/// The change that `attribute` needs, if it needs one.
pub open spec fn change_of(expected: EntryView, current: EntryView, attribute: Attribute) -> Seq<
    Change,
> {
    if attribute_of(expected, attribute) != attribute_of(current, attribute) {
        seq![
            Change {
                attribute,
                from: attribute_of(current, attribute),
                to: attribute_of(expected, attribute),
            },
        ]
    } else {
        Seq::empty()
    }
}

/// The changes that make `current` agree with `expected`: one for each
/// attribute in which they differ, in the order mode, owner, group.
pub open spec fn plan(expected: EntryView, current: EntryView) -> Seq<Change> {
    change_of(expected, current, Attribute::Mode) + change_of(
        expected,
        current,
        Attribute::Owner,
    ) + change_of(expected, current, Attribute::Group)
}

/// What the path records once the changes were attempted one after the
/// other, where `succeeded[i]` tells whether the change `changes[i]` took effect.
pub open spec fn after(current: EntryView, changes: Seq<Change>, succeeded: Seq<bool>) -> EntryView
    decreases changes.len(),
{
    if changes.len() == 0 {
        current
    } else if succeeded[0] {
        after(
            with_attribute(current, changes[0].attribute, changes[0].to),
            changes.drop_first(),
            succeeded.drop_first(),
        )
    } else {
        after(current, changes.drop_first(), succeeded.drop_first())
    }
}

/// The word for an attribute in messages.
pub open spec fn attribute_word(attribute: Attribute) -> Seq<char> {
    match attribute {
        Attribute::Mode => "mode"@,
        Attribute::Owner => "owner"@,
        Attribute::Group => "group"@,
    }
}

/// The radix in which an attribute is shown: modes in base eight, ids in base ten.
pub open spec fn attribute_radix(attribute: Attribute) -> nat {
    match attribute {
        Attribute::Mode => 8,
        _ => 10,
    }
}

/// The message that announces a change to `path`.
pub open spec fn change_text(path: Seq<char>, change: Change) -> Seq<char> {
    path + ": change "@ + attribute_word(change.attribute) + seq![' '] + render_number(
        change.from as nat,
        attribute_radix(change.attribute),
    ) + " -> "@ + render_number(change.to as nat, attribute_radix(change.attribute))
}

/// What to tell of a change once it was tried.
#[derive(Debug, Clone, PartialEq, Eq)]
pub enum Report {
    /// Nothing is to be told.
    Silent,
    /// A line for the stream of messages.
    Info(String),
    /// A line for the stream of errors.
    Error(String),
}

/// A `Report` as a mathematical value.
pub enum ReportView {
    Silent,
    Info(Seq<char>),
    Error(Seq<char>),
}

impl View for Report {
    type V = ReportView;

    open spec fn view(&self) -> ReportView {
        match self {
            Report::Silent => ReportView::Silent,
            Report::Info(line) => ReportView::Info(line@),
            Report::Error(line) => ReportView::Error(line@),
        }
    }
}

/// What to tell of a change to `path` that was tried and, where `failure`
/// holds a cause, failed with it. A change that took effect is announced
/// with a message, unless messages are quieted; one that failed is an error,
/// quieted or not.
pub open spec fn report_of(
    path: Seq<char>,
    change: Change,
    failure: Option<Seq<char>>,
    quiet: bool,
) -> ReportView {
    match failure {
        Some(cause) => ReportView::Error(path + ": "@ + cause),
        None => if quiet {
            ReportView::Silent
        } else {
            ReportView::Info(change_text(path, change))
        },
    }
}

/// What to tell of a path that could not be captured.
pub open spec fn capture_failure_text(cause: Seq<char>) -> Seq<char> {
    "warning: "@ + cause
}

/// What to tell of a change to `path` that was tried; `failure` holds the
/// cause where it failed.
pub fn report(path: &str, change: &Change, failure: Option<&str>, quiet: bool) -> (r: Report)
    ensures
        r@ == report_of(
            path@,
            *change,
            match failure {
                Some(cause) => Some(cause@),
                None => None,
            },
            quiet,
        ),
{
    match failure {
        Some(cause) => {
            let mut line = path.to_owned();
            line.append(": ");
            line.append(cause);
            Report::Error(line)
        },
        None => {
            if quiet {
                Report::Silent
            } else {
                Report::Info(change.message(path))
            }
        },
    }
}

/// What to tell of a path that could not be captured, and to which nothing
/// was done therefore.
pub fn report_capture_failure(cause: &str) -> (r: Report)
    ensures
        r@ == ReportView::Error(capture_failure_text(cause@)),
{
    let mut line = "warning: ".to_owned();
    line.append(cause);
    Report::Error(line)
}

impl Change {
    /// The message that announces this change to `path`.
    pub fn message(&self, path: &str) -> (s: String)
        ensures
            s@ == change_text(path@, *self),
    {
        let mut text = to_chars(path);
        let mut lead = to_chars(": change ");
        text.append(&mut lead);
        let radix: u64 = match self.attribute {
            Attribute::Mode => 8,
            _ => 10,
        };
        let mut word = match self.attribute {
            Attribute::Mode => to_chars("mode"),
            Attribute::Owner => to_chars("owner"),
            Attribute::Group => to_chars("group"),
        };
        text.append(&mut word);
        text.push(' ');
        push_number(&mut text, self.from as u64, radix);
        let mut arrow = to_chars(" -> ");
        text.append(&mut arrow);
        push_number(&mut text, self.to as u64, radix);
        proof {
            assert(text@ =~= change_text(path@, *self));
        }
        from_chars(&text)
    }
}

/// The changes to make to a path that is recorded as `expected` and found as
/// `current`. Each attribute is judged by itself.
pub fn apply(expected: &MetafileEntry, current: &MetafileEntry) -> (changes: Vec<Change>)
    ensures
        changes@ == plan(expected@, current@),
{
    let mut changes: Vec<Change> = Vec::new();
    if expected.mode != current.mode {
        changes.push(Change { attribute: Attribute::Mode, from: current.mode, to: expected.mode });
    }
    if expected.uid != current.uid {
        changes.push(Change { attribute: Attribute::Owner, from: current.uid, to: expected.uid });
    }
    if expected.gid != current.gid {
        changes.push(Change { attribute: Attribute::Group, from: current.gid, to: expected.gid });
    }
    proof {
        assert(changes@ =~= plan(expected@, current@));
    }
    changes
}

/// Nothing is changed exactly where the path already has the mode, the owner
/// and the group that are expected.
pub proof fn lemma_apply_settled(expected: EntryView, current: EntryView)
    ensures
        plan(expected, current).len() == 0 <==> (expected.mode == current.mode && expected.uid
            == current.uid && expected.gid == current.gid),
{
}

/// A change is planned for an attribute exactly if the attribute differs,
/// whatever holds of the other two; it leads from the current value to the
/// expected one.
pub proof fn lemma_apply_each(expected: EntryView, current: EntryView, attribute: Attribute)
    ensures
        attribute_of(expected, attribute) != attribute_of(current, attribute) <==> exists|
            i: int,
        |
            0 <= i < plan(expected, current).len() && (#[trigger] plan(
                expected,
                current,
            )[i]).attribute == attribute,
        forall|i: int|
            0 <= i < plan(expected, current).len() && (#[trigger] plan(
                expected,
                current,
            )[i]).attribute == attribute ==> plan(expected, current)[i] == (Change {
                attribute,
                from: attribute_of(current, attribute),
                to: attribute_of(expected, attribute),
            }),
{
    let changes = plan(expected, current);
    let mode = change_of(expected, current, Attribute::Mode);
    let owner = change_of(expected, current, Attribute::Owner);
    let group = change_of(expected, current, Attribute::Group);
    if attribute_of(expected, attribute) != attribute_of(current, attribute) {
        let i = match attribute {
            Attribute::Mode => 0int,
            Attribute::Owner => mode.len() as int,
            Attribute::Group => (mode.len() + owner.len()) as int,
        };
        assert(changes[i].attribute == attribute);
    }
}

/// Whether one change takes effect decides nothing about the others: after
/// the planned changes were attempted, an attribute has the expected value
/// if it had it before or if its own change succeeded, and else the value
/// that it had.
pub proof fn lemma_apply_isolated(expected: EntryView, current: EntryView, succeeded: Seq<bool>)
    requires
        succeeded.len() == plan(expected, current).len(),
    ensures
        forall|i: int|
            0 <= i < succeeded.len() ==> attribute_of(
                after(current, plan(expected, current), succeeded),
                (#[trigger] plan(expected, current)[i]).attribute,
            ) == if succeeded[i] {
                plan(expected, current)[i].to
            } else {
                plan(expected, current)[i].from
            },
        forall|attribute: Attribute|
            attribute_of(expected, attribute) == attribute_of(current, attribute)
                ==> #[trigger] attribute_of(
                after(current, plan(expected, current), succeeded),
                attribute,
            ) == attribute_of(expected, attribute),
        after(current, plan(expected, current), succeeded).path == current.path,
{
    reveal_with_fuel(after, 4);
    let changes = plan(expected, current);
    if changes.len() >= 1 {
        let rest = changes.drop_first();
        let marks = succeeded.drop_first();
        if rest.len() >= 1 {
            assert(rest.drop_first().len() == rest.len() - 1);
            if rest.len() >= 2 {
                assert(rest.drop_first().drop_first().len() == 0);
            }
        }
    }
}

/// Once every planned change has taken effect, nothing is left to change.
pub proof fn lemma_apply_converges(expected: EntryView, current: EntryView)
    ensures
        plan(
            expected,
            after(
                current,
                plan(expected, current),
                Seq::new(plan(expected, current).len(), |i: int| true),
            ),
        ).len() == 0,
{
    let changes = plan(expected, current);
    let all = Seq::new(changes.len(), |i: int| true);
    lemma_apply_isolated(expected, current, all);
    let done = after(current, changes, all);
    lemma_apply_each(expected, current, Attribute::Mode);
    lemma_apply_each(expected, current, Attribute::Owner);
    lemma_apply_each(expected, current, Attribute::Group);
    assert(attribute_of(done, Attribute::Mode) == expected.mode);
    assert(attribute_of(done, Attribute::Owner) == expected.uid);
    assert(attribute_of(done, Attribute::Group) == expected.gid);
}

/// Gathers what was captured of each path into a metafile, in the order of
/// the paths. A path that could not be captured fails the whole: the result
/// is then the index of the first such path, with its error.
pub fn save(captured: Vec<Result<MetafileEntry, MetafileError>>) -> (r: Result<
    Metafile,
    (usize, MetafileError),
>)
    ensures
        match r {
            Ok(metafile) => {
                &&& metafile.entries@.len() == captured@.len()
                &&& forall|i: int|
                    0 <= i < captured@.len() ==> captured@[i] == Ok::<
                        MetafileEntry,
                        MetafileError,
                    >(#[trigger] metafile.entries@[i])
            },
            Err((index, error)) => {
                &&& index < captured@.len()
                &&& captured@[index as int] == Err::<MetafileEntry, MetafileError>(error)
                &&& forall|i: int| 0 <= i < index ==> (#[trigger] captured@[i]) is Ok
            },
        },
{
    let ghost all = captured@;
    let mut entries: Vec<MetafileEntry> = Vec::new();
    for item in rest: captured
        invariant
            rest.seq() == all,
            entries@.len() == rest.index(),
            forall|i: int|
                0 <= i < entries@.len() ==> all[i] == Ok::<MetafileEntry, MetafileError>(
                    #[trigger] entries@[i],
                ),
    {
        match item {
            Ok(entry) => {
                entries.push(entry);
            },
            Err(error) => {
                proof {
                    assert(all[entries@.len() as int] == Err::<MetafileEntry, MetafileError>(
                        error,
                    ));
                    assert forall|i: int| 0 <= i < entries@.len() implies (#[trigger] all[i])
                        is Ok by {
                        assert(all[i] == Ok::<MetafileEntry, MetafileError>(entries@[i]));
                    }
                }
                return Err((entries.len(), error));
            },
        }
    }
    Ok(Metafile { entries })
}

} // verus!
