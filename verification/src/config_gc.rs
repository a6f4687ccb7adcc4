//! Finding repo-level config directories whose repo path no longer exists.
//!
//! The directories are read and deleted elsewhere: here is which ones are
//! missing their repo, and what the user is told.

use vstd::prelude::*;

use crate::decimal::decimal;
use crate::decimal::decimal_text;
use crate::text::chars_of;
use crate::text::concat;
use crate::text::concat3;
use crate::text::lemma_texts_push;
use crate::text::texts;

verus! {

/// Find and optionally delete repo-level config directories whose repo path no
/// longer exists.
#[derive(Debug, PartialEq, Eq, Structural, Clone, Copy)]
pub struct ConfigGcArgs {}

/// What was found in the directory of repo-level configuration.
#[derive(Debug)]
pub struct ConfigDir {
    /// The name of the directory.
    pub name: String,
    /// Whether it is a directory at all.
    pub is_dir: bool,
    /// The repo path that is recorded in it, if it can be read.
    pub repo_path: Option<String>,
    /// Whether there is something at the repo path, if that can be told.
    pub repo_exists: Option<bool>,
}

impl ConfigDir {
    /// Whether the repo no longer exists. Where that cannot be told (e.g.
    /// permission denied), it still exists, so we don't propose deleting
    /// configs we can't actually verify.
    pub open spec fn is_missing(&self) -> bool {
        self.is_dir && self.repo_path is Some && self.repo_exists == Some(false)
    }
}

/// A directory, and the repo path that is recorded in it.
#[derive(Debug, PartialEq, Eq)]
pub struct MissingRepo {
    /// The place of the directory among those that were found.
    pub dir: usize,
    /// The name of the directory.
    pub name: String,
    /// The repo path.
    pub repo_path: String,
}

/// What can be seen of directories.
pub open spec fn missing_view(missing: Seq<MissingRepo>) -> Seq<(Seq<char>, Seq<char>, int)> {
    missing.map_values(|repo: MissingRepo| (repo.name@, repo.repo_path@, repo.dir as int))
}

/// The directories whose repo no longer exists, as they were found: the name,
/// the repo path and the place of each.
pub open spec fn missing_of(dirs: Seq<ConfigDir>) -> Seq<(Seq<char>, Seq<char>, int)>
    decreases dirs.len(),
{
    if dirs.len() == 0 {
        Seq::empty()
    } else {
        let front = missing_of(dirs.drop_last());
        if dirs.last().is_missing() {
            front.push(
                (dirs.last().name@, dirs.last().repo_path->Some_0@, dirs.len() as int - 1),
            )
        } else {
            front
        }
    }
}

/// Whether a text comes before another: character by character, and what is
/// shorter first.
pub open spec fn text_less(a: Seq<char>, b: Seq<char>) -> bool
    decreases b.len(),
{
    if b.len() == 0 {
        false
    } else if a.len() == 0 {
        true
    } else {
        a[0] < b[0] || (a[0] == b[0] && text_less(a.skip(1), b.skip(1)))
    }
}

/// Whether directories are sorted by name.
pub open spec fn is_sorted(missing: Seq<(Seq<char>, Seq<char>, int)>) -> bool {
    forall|i: int, j: int|
        0 <= i < j < missing.len() ==> !text_less(
            (#[trigger] missing[j]).0,
            (#[trigger] missing[i]).0,
        )
}

proof fn lemma_text_order(a: Seq<char>, b: Seq<char>)
    ensures
        !(text_less(a, b) && text_less(b, a)),
    decreases a.len(),
{
    if a.len() > 0 && b.len() > 0 {
        lemma_text_order(a.skip(1), b.skip(1));
    }
}

proof fn lemma_text_order_transitive(a: Seq<char>, b: Seq<char>, c: Seq<char>)
    requires
        !text_less(b, a),
        !text_less(c, b),
    ensures
        !text_less(c, a),
    decreases a.len(),
{
    if a.len() > 0 && b.len() > 0 && c.len() > 0 && a[0] == b[0] && b[0] == c[0] {
        lemma_text_order_transitive(a.skip(1), b.skip(1), c.skip(1));
    }
}

fn comes_before(a: &str, b: &str) -> (less: bool)
    ensures
        less == text_less(a@, b@),
{
    let left: Vec<char> = chars_of(a);
    let right: Vec<char> = chars_of(b);
    let mut i: usize = 0;
    assert(left@.skip(0) =~= left@);
    assert(right@.skip(0) =~= right@);
    while i < left.len() && i < right.len()
        invariant
            i <= left@.len(),
            i <= right@.len(),
            text_less(a@, b@) == text_less(left@.skip(i as int), right@.skip(i as int)),
        decreases left@.len() - i,
    {
        assert(left@.skip(i as int)[0] == left@[i as int]);
        assert(right@.skip(i as int)[0] == right@[i as int]);
        assert(left@.skip(i as int).skip(1) =~= left@.skip(i + 1));
        assert(right@.skip(i as int).skip(1) =~= right@.skip(i + 1));
        if left[i] != right[i] {
            return left[i] < right[i];
        }
        i += 1;
    }
    i < right.len()
}

/// Adds a directory to directories that are sorted.
fn insert_sorted(missing: &mut Vec<MissingRepo>, repo: MissingRepo)
    requires
        is_sorted(missing_view(old(missing)@)),
    ensures
        is_sorted(missing_view(final(missing)@)),
        missing_view(final(missing)@).to_multiset() == missing_view(
            old(missing)@,
        ).to_multiset().insert((repo.name@, repo.repo_path@, repo.dir as int)),
{
    let ghost before = missing_view(missing@);
    let ghost new = (repo.name@, repo.repo_path@, repo.dir as int);
    let mut i: usize = missing.len();
    while i > 0 && comes_before(repo.name.as_str(), missing[i - 1].name.as_str())
        invariant
            i <= missing@.len(),
            before == missing_view(missing@),
            new == (repo.name@, repo.repo_path@, repo.dir as int),
            forall|j: int| i <= j < before.len() ==> text_less(new.0, (#[trigger] before[j]).0),
        decreases i,
    {
        assert(before[i - 1].0 == missing@[i - 1].name@);
        i -= 1;
    }
    proof {
        if i > 0 {
            assert(before[i - 1].0 == missing@[i - 1].name@);
        }
    }
    missing.insert(i, repo);
    proof {
        let after = missing_view(missing@);
        assert(after =~= before.insert(i as int, new));
        vstd::seq_lib::to_multiset_insert(before, i as int, new);
        assert forall|a: int, b: int| 0 <= a < b < after.len() implies !text_less(
            (#[trigger] after[b]).0,
            (#[trigger] after[a]).0,
        ) by {
            if a == i {
                lemma_text_order(new.0, before[b - 1].0);
            } else if b == i {
                if a < i - 1 {
                    assert(!text_less(before[i - 1].0, before[a].0));
                    lemma_text_order_transitive(before[a].0, before[i - 1].0, new.0);
                }
            } else if a > i {
                assert(!text_less(before[b - 1].0, before[a - 1].0));
            } else if b > i {
                assert(!text_less(before[b - 1].0, before[a].0));
            }
        }
    }
}

/// Returns every per-repo config directory whose recorded repo path no longer
/// exists on disk. The list is sorted by config directory name.
pub fn find_missing_repo_configs(dirs: &[ConfigDir]) -> (missing: Vec<MissingRepo>)
    ensures
        is_sorted(missing_view(missing@)),
        missing_view(missing@).to_multiset() == missing_of(dirs@).to_multiset(),
{
    let mut missing: Vec<MissingRepo> = Vec::new();
    let mut i: usize = 0;
    assert(missing_view(missing@) =~= missing_of(dirs@.take(0)));
    while i < dirs.len()
        invariant
            i <= dirs@.len(),
            is_sorted(missing_view(missing@)),
            missing_view(missing@).to_multiset() == missing_of(
                dirs@.take(i as int),
            ).to_multiset(),
        decreases dirs@.len() - i,
    {
        let dir: &ConfigDir = &dirs[i];
        let ghost before = missing_of(dirs@.take(i as int));
        assert(dirs@.take(i + 1).drop_last() =~= dirs@.take(i as int));
        if dir.is_dir {
            if let Some(repo_path) = &dir.repo_path {
                let gone: bool = match dir.repo_exists {
                    Some(found) => !found,
                    None => false,
                };
                if gone {
                    proof {
                        vstd::seq_lib::to_multiset_build(
                            before,
                            (dir.name@, repo_path@, i as int),
                        );
                    }
                    insert_sorted(
                        &mut missing,
                        MissingRepo {
                            dir: i,
                            name: dir.name.clone(),
                            repo_path: repo_path.clone(),
                        },
                    );
                }
            }
        }
        i += 1;
    }
    assert(dirs@.take(i as int) =~= dirs@);
    missing
}

/// The lines that list directories.
pub open spec fn listing(missing: Seq<(Seq<char>, Seq<char>, int)>) -> Seq<Seq<char>>
    decreases missing.len(),
{
    if missing.len() == 0 {
        Seq::empty()
    } else {
        listing(missing.drop_last()).push("  "@ + missing.last().0).push(
            "    repo path: "@ + missing.last().1,
        )
    }
}

fn push_line(lines: &mut Vec<String>, line: String)
    ensures
        texts(final(lines)@) == texts(old(lines)@).push(line@),
{
    proof {
        lemma_texts_push(lines@, line);
    }
    lines.push(line);
}

/// Returns the lines that the user is shown. Directories are shown by the given
/// names.
pub fn gc_report(missing: &[MissingRepo]) -> (lines: Vec<String>)
    ensures
        texts(lines@) == seq!["Missing repo configs (repo path no longer exists):"@] + (
        if missing@.len() == 0 {
            seq!["  (none)"@]
        } else {
            listing(missing_view(missing@))
        }),
{
    let mut lines: Vec<String> = Vec::new();
    push_line(&mut lines, "Missing repo configs (repo path no longer exists):".to_owned());
    let ghost head = seq!["Missing repo configs (repo path no longer exists):"@];
    assert(texts(lines@) =~= head);
    if missing.len() == 0 {
        push_line(&mut lines, "  (none)".to_owned());
        assert(texts(lines@) =~= head + seq!["  (none)"@]);
        return lines;
    }
    let ghost all = missing_view(missing@);
    let mut i: usize = 0;
    assert(texts(lines@) =~= head + listing(all.take(0)));
    while i < missing.len()
        invariant
            i <= missing@.len(),
            all == missing_view(missing@),
            texts(lines@) == head + listing(all.take(i as int)),
        decreases missing@.len() - i,
    {
        let ghost before = listing(all.take(i as int));
        let ghost now = all.take(i + 1);
        assert(now.drop_last() =~= all.take(i as int));
        assert(now.last().0 == missing@[i as int].name@);
        assert(now.last().1 == missing@[i as int].repo_path@);
        push_line(&mut lines, concat("  ", missing[i].name.as_str()));
        push_line(&mut lines, concat("    repo path: ", missing[i].repo_path.as_str()));
        assert(texts(lines@) =~= head + listing(now));
        i += 1;
    }
    assert(all.take(i as int) =~= all);
    lines
}

/// Returns what the user is asked before directories are deleted. Nothing is
/// asked if there are none.
pub fn gc_prompt(missing: &[MissingRepo]) -> (prompt: Option<String>)
    ensures
        match prompt {
            Some(prompt) => missing@.len() > 0 && prompt@ == "Delete "@ + decimal(missing@.len())
                + " missing repo config directories?"@,
            None => missing@.len() == 0,
        },
{
    if missing.len() == 0 {
        return None;
    }
    let count: String = decimal_text(missing.len());
    Some(concat3("Delete ", count.as_str(), " missing repo config directories?"))
}

/// The number of directories that were deleted.
pub open spec fn deleted_count(results: Seq<Result<(), String>>) -> nat
    decreases results.len(),
{
    if results.len() == 0 {
        0
    } else {
        deleted_count(results.drop_last()) + (if results.last() is Ok {
            1nat
        } else {
            0
        })
    }
}

/// Returns what the user is told in the end, given what became of each deletion.
/// No results are given if the user did not agree.
pub fn gc_summary(results: &Option<Vec<Result<(), String>>>) -> (summary: String)
    ensures
        summary@ == (match results {
            None => "Aborted; nothing was deleted."@,
            Some(results) => "Deleted "@ + decimal(deleted_count(results@))
                + " config directories."@,
        }),
{
    let results: &Vec<Result<(), String>> = match results {
        None => {
            return "Aborted; nothing was deleted.".to_owned();
        },
        Some(results) => results,
    };
    let mut deleted: usize = 0;
    let mut i: usize = 0;
    while i < results.len()
        invariant
            i <= results@.len(),
            deleted <= i,
            deleted == deleted_count(results@.take(i as int)),
        decreases results@.len() - i,
    {
        assert(results@.take(i + 1).drop_last() =~= results@.take(i as int));
        if results[i].is_ok() {
            deleted += 1;
        }
        i += 1;
    }
    assert(results@.take(i as int) =~= results@);
    let count: String = decimal_text(deleted);
    concat3("Deleted ", count.as_str(), " config directories.")
}

/// Returns what the user is told if a directory could not be deleted.
pub fn gc_failure(name: &str, error: &str) -> (warning: String)
    ensures
        warning@ == "Failed to delete "@ + name@ + ": "@ + error@,
{
    let mut warning: String = concat3("Failed to delete ", name, ": ");
    warning.append(error);
    warning
}

/// A directory is listed if, and only if, its repo is known and known not to be
/// there, with its own name, path and place.
pub proof fn lemma_missing_of(dirs: Seq<ConfigDir>, name: Seq<char>, path: Seq<char>, k: int)
    ensures
        missing_of(dirs).contains((name, path, k)) <==> 0 <= k < dirs.len() && dirs[k].is_dir
            && dirs[k].repo_exists == Some(false) && dirs[k].name@ == name && (
        dirs[k].repo_path matches Some(own) && own@ == path),
    decreases dirs.len(),
{
    if dirs.len() > 0 {
        let front = dirs.drop_last();
        let last = dirs.len() - 1;
        lemma_missing_of(front, name, path, k);
        assert(dirs[last] == dirs.last());
        if 0 <= k < last {
            assert(front[k] == dirs[k]);
        }
        if dirs.last().is_missing() {
            crate::seq_util::lemma_push_contains(
                missing_of(front),
                (dirs.last().name@, dirs.last().repo_path->Some_0@, last as int),
                (name, path, k),
            );
        }
    }
}

/// No directory is listed twice.
pub proof fn lemma_missing_once(dirs: Seq<ConfigDir>)
    ensures
        missing_of(dirs).no_duplicates(),
        forall|i: int|
            0 <= i < missing_of(dirs).len() ==> 0 <= (#[trigger] missing_of(dirs)[i]).2
                < dirs.len(),
    decreases dirs.len(),
{
    if dirs.len() > 0 {
        lemma_missing_once(dirs.drop_last());
    }
}

/// The first character that differs decides which text comes first, and what is
/// shorter comes before what it is the beginning of.
pub proof fn lemma_text_less(common: Seq<char>, a: Seq<char>, b: Seq<char>)
    requires
        a.len() > 0 && b.len() > 0 ==> a[0] != b[0],
    ensures
        text_less(common + a, common + b) <==> b.len() > 0 && (a.len() == 0 || a[0] < b[0]),
    decreases common.len(),
{
    if common.len() == 0 {
        assert(common + a =~= a);
        assert(common + b =~= b);
    } else {
        assert((common + a).skip(1) =~= common.skip(1) + a);
        assert((common + b).skip(1) =~= common.skip(1) + b);
        lemma_text_less(common.skip(1), a, b);
    }
}

/// Each directory is shown on two lines, in order.
pub proof fn lemma_listing(missing: Seq<(Seq<char>, Seq<char>, int)>, i: int)
    requires
        0 <= i < missing.len(),
    ensures
        listing(missing).len() == 2 * missing.len(),
        listing(missing)[2 * i] == "  "@ + missing[i].0,
        listing(missing)[2 * i + 1] == "    repo path: "@ + missing[i].1,
    decreases missing.len(),
{
    let front = missing.drop_last();
    if i < front.len() {
        lemma_listing(front, i);
        assert(front[i] == missing[i]);
    } else if front.len() > 0 {
        lemma_listing(front, 0);
    } else {
        assert(listing(front).len() == 0);
    }
}

/// Every deletion that went well counts, and no other.
pub proof fn lemma_deleted_count(
    a: Seq<Result<(), String>>,
    result: Result<(), String>,
    b: Seq<Result<(), String>>,
)
    ensures
        deleted_count(a.push(result) + b) == deleted_count(a) + deleted_count(b) + (if result is Ok {
            1int
        } else {
            0int
        }),
        deleted_count(a) <= a.len(),
        deleted_count(a) == a.len() <==> forall|i: int| 0 <= i < a.len() ==> #[trigger] a[i] is Ok,
    decreases b.len(), a.len(),
{
    let all = a.push(result) + b;
    if b.len() > 0 {
        assert(all.drop_last() =~= a.push(result) + b.drop_last());
        assert(all.last() == b.last());
        lemma_deleted_count(a, result, b.drop_last());
    } else {
        assert(all =~= a.push(result));
        assert(all.drop_last() =~= a);
        if a.len() > 0 {
            let front = a.drop_last();
            lemma_deleted_count(front, result, b);
            assert(a[a.len() - 1] == a.last());
            if forall|i: int| 0 <= i < front.len() ==> #[trigger] front[i] is Ok {
                assert forall|i: int| 0 <= i < front.len() implies #[trigger] a[i] is Ok by {
                    assert(front[i] == a[i]);
                }
            } else {
                let i = choose|i: int| 0 <= i < front.len() && !(#[trigger] front[i] is Ok);
                assert(a[i] == front[i]);
            }
        }
    }
}

} // verus!
