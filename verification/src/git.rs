//! The paths to store: the files that the repository tracks and that still
//! exist, with every directory above them.
//!
//! Paths are relative and use `/` between their components, as the listing
//! of tracked files gives them.

use crate::text::{copy_range, from_chars, split, split_chars, to_chars, views};
use vstd::prelude::*;

verus! {

/// Whether the first `n` characters of `file` are a path to store: the whole
/// of `file`, or a directory above it, that is, what stands before a `/`
/// and does not itself end in one.
pub open spec fn is_cut(file: Seq<char>, n: int) -> bool {
    0 < n <= file.len() && (n == file.len() || (file[n] == '/' && file[n - 1] != '/'))
}

/// Whether `path` is `file` or a directory above it.
pub open spec fn covers(file: Seq<char>, path: Seq<char>) -> bool {
    is_cut(file, path.len() as int) && file.take(path.len() as int) == path
}

/// The file and the directories above it that are at most `n` characters long.
pub open spec fn cuts_upto(file: Seq<char>, n: int) -> Set<Seq<char>>
    decreases n,
{
    if n <= 0 {
        Set::empty()
    } else if is_cut(file, n) {
        cuts_upto(file, n - 1).insert(file.take(n))
    } else {
        cuts_upto(file, n - 1)
    }
}

/// The paths to store for the tracked files: each file that is not among
/// the deleted ones, with the directories above it.
pub open spec fn listed(files: Seq<Seq<char>>, deleted: Seq<Seq<char>>) -> Set<Seq<char>>
    decreases files.len(),
{
    if files.len() == 0 {
        Set::empty()
    } else if deleted.contains(files.last()) {
        listed(files.drop_last(), deleted)
    } else {
        listed(files.drop_last(), deleted).union(
            cuts_upto(files.last(), files.last().len() as int),
        )
    }
}

/// `cuts_upto` holds the file and the directories above it, and nothing else.
pub proof fn lemma_cuts(file: Seq<char>, n: int, path: Seq<char>)
    requires
        n <= file.len(),
    ensures
        cuts_upto(file, n).contains(path) <==> covers(file, path) && path.len() <= n,
    decreases n,
{
    if n > 0 {
        lemma_cuts(file, n - 1, path);
        if is_cut(file, n) && path == file.take(n) {
            assert(path.len() == n);
        }
    }
}

/// A path is listed exactly if it is a tracked file that is not deleted, or
/// a directory above one.
pub proof fn lemma_listed(files: Seq<Seq<char>>, deleted: Seq<Seq<char>>, path: Seq<char>)
    ensures
        listed(files, deleted).contains(path) <==> exists|i: int|
            0 <= i < files.len() && !deleted.contains(#[trigger] files[i]) && covers(
                files[i],
                path,
            ),
    decreases files.len(),
{
    if files.len() > 0 {
        let init = files.drop_last();
        let last = files.last();
        lemma_listed(init, deleted, path);
        lemma_cuts(last, last.len() as int, path);
        if listed(files, deleted).contains(path) {
            if listed(init, deleted).contains(path) {
                let i = choose|i: int|
                    0 <= i < init.len() && !deleted.contains(#[trigger] init[i]) && covers(
                        init[i],
                        path,
                    );
                assert(files[i] == init[i]);
            } else {
                assert(files[files.len() - 1] == last);
            }
        }
        if exists|i: int|
            0 <= i < files.len() && !deleted.contains(#[trigger] files[i]) && covers(
                files[i],
                path,
            ) {
            let i = choose|i: int|
                0 <= i < files.len() && !deleted.contains(#[trigger] files[i]) && covers(
                    files[i],
                    path,
                );
            if i < init.len() {
                assert(init[i] == files[i]);
            }
        }
    }
}

/// The order of characters within paths: `/` comes before all others.
pub open spec fn char_before(x: char, y: char) -> bool {
    x != y && (x == '/' || (y != '/' && x < y))
}

/// The order of paths: component by component, a path before those below
/// it. This is the order of the character sequences with `/` as the least
/// character.
pub open spec fn path_before(a: Seq<char>, b: Seq<char>) -> bool
    decreases a.len(),
{
    if b.len() == 0 {
        false
    } else if a.len() == 0 {
        true
    } else if a[0] != b[0] {
        char_before(a[0], b[0])
    } else {
        path_before(a.drop_first(), b.drop_first())
    }
}

/// Each path stands before all that follow it.
pub open spec fn is_sorted(paths: Seq<Seq<char>>) -> bool {
    forall|i: int, j: int| 0 <= i < j < paths.len() ==> path_before(paths[i], paths[j])
}

/// No path stands before itself.
pub proof fn lemma_before_irreflexive(a: Seq<char>)
    ensures
        !path_before(a, a),
    decreases a.len(),
{
    if a.len() > 0 {
        lemma_before_irreflexive(a.drop_first());
    }
}

/// The order of paths is transitive.
pub proof fn lemma_before_transitive(a: Seq<char>, b: Seq<char>, c: Seq<char>)
    requires
        path_before(a, b),
        path_before(b, c),
    ensures
        path_before(a, c),
    decreases a.len(),
{
    if a.len() > 0 && a[0] == b[0] && b[0] == c[0] {
        lemma_before_transitive(a.drop_first(), b.drop_first(), c.drop_first());
    }
}

/// Of two different paths one stands before the other.
pub proof fn lemma_before_total(a: Seq<char>, b: Seq<char>)
    ensures
        a == b || path_before(a, b) || path_before(b, a),
    decreases a.len(),
{
    if a.len() > 0 && b.len() > 0 && a[0] == b[0] {
        lemma_before_total(a.drop_first(), b.drop_first());
        if a.drop_first() == b.drop_first() {
            assert(a =~= seq![a[0]] + a.drop_first());
            assert(b =~= seq![b[0]] + b.drop_first());
            assert(a =~= b);
        }
    } else if a.len() == 0 && b.len() == 0 {
        assert(a =~= b);
    } else if a.len() > 0 && b.len() > 0 {
        assert(a[0] as int != b[0] as int);
    }
}

/// A sorted sequence of paths holds none twice.
pub proof fn lemma_sorted_distinct(paths: Seq<Seq<char>>, i: int, j: int)
    requires
        is_sorted(paths),
        0 <= i < j < paths.len(),
    ensures
        paths[i] != paths[j],
{
    lemma_before_irreflexive(paths[i]);
}

/// Whether `x` stands before `y` in the order of characters within paths.
fn is_char_before(x: char, y: char) -> (r: bool)
    ensures
        r == char_before(x, y),
{
    x != y && (x == '/' || (y != '/' && x < y))
}

/// Whether `a` stands before `b` in the order of paths.
fn before(a: &Vec<char>, b: &Vec<char>) -> (r: bool)
    ensures
        r == path_before(a@, b@),
{
    let mut i: usize = 0;
    proof {
        assert(a@.skip(0) =~= a@);
        assert(b@.skip(0) =~= b@);
    }
    while i < a.len() && i < b.len() && a[i] == b[i]
        invariant
            i <= a.len(),
            i <= b.len(),
            path_before(a@, b@) == path_before(a@.skip(i as int), b@.skip(i as int)),
        decreases a.len() - i,
    {
        proof {
            assert(a@.skip(i as int).drop_first() =~= a@.skip(i + 1));
            assert(b@.skip(i as int).drop_first() =~= b@.skip(i + 1));
        }
        i += 1;
    }
    if i == b.len() {
        false
    } else if i == a.len() {
        true
    } else {
        is_char_before(a[i], b[i])
    }
}

/// Puts `path` at its place in the sorted `paths`, unless it is there already.
fn insert_sorted(paths: &mut Vec<Vec<char>>, path: Vec<char>)
    requires
        is_sorted(views(old(paths)@)),
    ensures
        is_sorted(views(final(paths)@)),
        views(final(paths)@).to_set() == views(old(paths)@).to_set().insert(path@),
{
    let ghost before_all = views(paths@);
    let mut j: usize = 0;
    while j < paths.len() && before(&paths[j], &path)
        invariant
            j <= paths.len(),
            paths@ == old(paths)@,
            forall|k: int| 0 <= k < j ==> path_before(#[trigger] before_all[k], path@),
            before_all == views(paths@),
        decreases paths.len() - j,
    {
        assert(before_all[j as int] == paths@[j as int]@);
        j += 1;
    }
    if j < paths.len() && !before(&path, &paths[j]) {
        proof {
            assert(before_all[j as int] == paths@[j as int]@);
            lemma_before_total(path@, before_all[j as int]);
            assert(before_all.contains(path@));
            assert(before_all.to_set().insert(path@) =~= before_all.to_set());
        }
        return ;
    }
    proof {
        if j < paths.len() {
            assert(before_all[j as int] == paths@[j as int]@);
            assert forall|k: int| j <= k < before_all.len() implies path_before(
                path@,
                #[trigger] before_all[k],
            ) by {
                if k > j {
                    lemma_before_transitive(path@, before_all[j as int], before_all[k]);
                }
            }
        }
    }
    let ghost x = path@;
    paths.insert(j, path);
    proof {
        let after = views(paths@);
        assert(after =~= before_all.insert(j as int, x));
        assert forall|a: int, b: int| 0 <= a < b < after.len() implies path_before(
            after[a],
            after[b],
        ) by {
            if a < j && b > j {
                assert(path_before(before_all[a], before_all[b - 1]));
            } else if a < j && b < j {
                assert(path_before(before_all[a], before_all[b]));
            } else if a > j {
                assert(path_before(before_all[a - 1], before_all[b - 1]));
            }
        }
        assert forall|p: Seq<char>| after.to_set().contains(p) <==> before_all.to_set().insert(
            x,
        ).contains(p) by {
            if after.contains(p) {
                let i = choose|i: int| 0 <= i < after.len() && after[i] == p;
                if i < j {
                    assert(before_all[i] == p);
                } else if i > j {
                    assert(before_all[i - 1] == p);
                }
            }
            if before_all.contains(p) {
                let i = choose|i: int| 0 <= i < before_all.len() && before_all[i] == p;
                if i < j {
                    assert(after[i] == p);
                } else {
                    assert(after[i + 1] == p);
                }
            }
            if p == x {
                assert(after[j as int] == p);
            }
        }
        assert(after.to_set() =~= before_all.to_set().insert(x));
    }
}

/// Whether the two hold the same characters.
fn same_chars(a: &Vec<char>, b: &Vec<char>) -> (r: bool)
    ensures
        r == (a@ == b@),
{
    if a.len() != b.len() {
        return false;
    }
    let mut i: usize = 0;
    while i < a.len()
        invariant
            i <= a.len(),
            a.len() == b.len(),
            forall|k: int| 0 <= k < i ==> a@[k] == b@[k],
        decreases a.len() - i,
    {
        if a[i] != b[i] {
            return false;
        }
        i += 1;
    }
    assert(a@ =~= b@);
    true
}

/// Whether `path` is one of `paths`.
fn is_among(paths: &Vec<Vec<char>>, path: &Vec<char>) -> (r: bool)
    ensures
        r == views(paths@).contains(path@),
{
    let mut i: usize = 0;
    while i < paths.len()
        invariant
            i <= paths.len(),
            forall|k: int| 0 <= k < i ==> views(paths@)[k] != path@,
        decreases paths.len() - i,
    {
        if same_chars(&paths[i], path) {
            assert(views(paths@)[i as int] == path@);
            return true;
        }
        i += 1;
    }
    false
}

/// The character sequences that the strings hold.
pub open spec fn string_views(strings: Seq<String>) -> Seq<Seq<char>> {
    Seq::new(strings.len(), |i: int| strings[i]@)
}

/// The strings as vectors of characters.
fn all_to_chars(strings: &Vec<String>) -> (r: Vec<Vec<char>>)
    ensures
        views(r@) == string_views(strings@),
{
    let mut r: Vec<Vec<char>> = Vec::new();
    let mut i: usize = 0;
    while i < strings.len()
        invariant
            i <= strings.len(),
            views(r@) == string_views(strings@).take(i as int),
        decreases strings.len() - i,
    {
        let ghost before = r@;
        r.push(to_chars(strings[i].as_str()));
        assert(views(r@) =~= views(before).push(strings@[i as int]@));
        assert(views(r@) =~= string_views(strings@).take(i + 1));
        i += 1;
    }
    assert(string_views(strings@).take(i as int) =~= string_views(strings@));
    r
}

/// The vectors of characters as strings.
fn all_from_chars(pieces: &Vec<Vec<char>>) -> (r: Vec<String>)
    ensures
        string_views(r@) == views(pieces@),
{
    let mut r: Vec<String> = Vec::new();
    let mut k: usize = 0;
    while k < pieces.len()
        invariant
            k <= pieces.len(),
            string_views(r@) == views(pieces@).take(k as int),
        decreases pieces.len() - k,
    {
        let ghost before = r@;
        r.push(from_chars(&pieces[k]));
        assert(string_views(r@) =~= string_views(before).push(pieces@[k as int]@));
        assert(string_views(r@) =~= views(pieces@).take(k + 1));
        k += 1;
    }
    assert(views(pieces@).take(k as int) =~= views(pieces@));
    r
}

/// The names in a listing in which a NUL character ends each name. What
/// stands behind the last NUL is a name too, be it empty.
pub fn listed_names(listing: &str) -> (names: Vec<String>)
    ensures
        string_views(names@) == split(listing@, '\0'),
{
    all_from_chars(&split_chars(&to_chars(listing), '\0'))
}

/// The paths to store, given the tracked files and those of them that are
/// deleted from the working tree: every tracked file that is not deleted,
/// and every directory above one, each once, in the order of paths.
pub fn staged_files(files: &Vec<String>, deleted: &Vec<String>) -> (paths: Vec<String>)
    ensures
        is_sorted(string_views(paths@)),
        string_views(paths@).to_set() == listed(
            string_views(files@),
            string_views(deleted@),
        ),
{
    let names = all_to_chars(files);
    let gone = all_to_chars(deleted);
    let mut found: Vec<Vec<char>> = Vec::new();
    let mut i: usize = 0;
    proof {
        assert(views(found@).to_set() =~= Set::<Seq<char>>::empty());
        assert(views(names@).take(0) =~= Seq::<Seq<char>>::empty());
    }
    while i < names.len()
        invariant
            i <= names.len(),
            is_sorted(views(found@)),
            views(found@).to_set() == listed(views(names@).take(i as int), views(gone@)),
        decreases names.len() - i,
    {
        let file = &names[i];
        let ghost done = views(names@).take(i as int);
        let ghost base = listed(done, views(gone@));
        proof {
            let next = views(names@).take(i + 1);
            assert(next.drop_last() =~= done);
            assert(next.last() == file@);
        }
        if !is_among(&gone, file) {
            let mut m: usize = 0;
            proof {
                assert(base.union(cuts_upto(file@, 0)) =~= base);
            }
            while m < file.len()
                invariant
                    m <= file.len(),
                    is_sorted(views(found@)),
                    views(found@).to_set() == base.union(cuts_upto(file@, m as int)),
                decreases file.len() - m,
            {
                let n = m + 1;
                if n == file.len() || (file[n] == '/' && file[m] != '/') {
                    let ghost before_insert = views(found@).to_set();
                    insert_sorted(&mut found, copy_range(file, 0, n));
                    proof {
                        assert(file@.subrange(0, n as int) =~= file@.take(n as int));
                        assert(before_insert.insert(file@.take(n as int)) =~= base.union(
                            cuts_upto(file@, n as int),
                        ));
                    }
                }
                m = n;
            }
        }
        i += 1;
    }
    proof {
        assert(views(names@).take(i as int) =~= views(names@));
    }
    all_from_chars(&found)
}

} // verus!
