//! Transforming file content, for example to apply formatting, and propagating
//! those changes across revisions.
//!
//! Files and paths are known here by the numbers under which a store keeps
//! them, as commits are.

use std::collections::HashMap;
use std::collections::HashSet;

use indexmap::IndexSet;
use vstd::prelude::*;

use crate::commit::commit_ids;
use crate::commit::Commit;
use crate::file_search::lemma_lines_concat;
use crate::file_search::lines_of;
use crate::index_collections::members;
use crate::index_collections::set_get_index;
use crate::index_collections::set_insert;
use crate::index_collections::set_len;
use crate::index_collections::set_new;
use crate::seq_util::dedup;
use crate::seq_util::lemma_concat_contains;
use crate::seq_util::lemma_concat_to_set;
use crate::seq_util::lemma_dedup;
use crate::seq_util::lemma_dedup_push;
use crate::seq_util::lemma_push_contains;

verus! {

broadcast use vstd::std_specs::hash::group_hash_axioms;

/// The number of line feeds in a text.
pub open spec fn newline_count(text: Seq<u8>) -> nat
    decreases text.len(),
{
    if text.len() == 0 {
        0
    } else {
        newline_count(text.drop_last()) + (if text.last() == 10 {
            1nat
        } else {
            0nat
        })
    }
}

/// The number of lines of a text: each line feed ends one, and a last line may
/// lack its line feed.
pub open spec fn line_count(text: Seq<u8>) -> nat {
    newline_count(text) + (if text.len() > 0 && text.last() != 10 {
        1nat
    } else {
        0nat
    })
}

proof fn lemma_newline_count_bound(text: Seq<u8>)
    ensures
        newline_count(text) <= text.len(),
        text.len() > 0 && text.last() != 10 ==> newline_count(text) < text.len(),
    decreases text.len(),
{
    if text.len() > 0 {
        lemma_newline_count_bound(text.drop_last());
    }
}

proof fn lemma_newline_count_concat(a: Seq<u8>, b: Seq<u8>)
    ensures
        newline_count(a + b) == newline_count(a) + newline_count(b),
    decreases b.len(),
{
    if b.len() == 0 {
        assert(a + b =~= a);
    } else {
        lemma_newline_count_concat(a, b.drop_last());
        assert((a + b).drop_last() =~= a + b.drop_last());
        assert((a + b).last() == b.last());
    }
}

/// The lines of two texts add up when the first of them ends with a line feed.
pub proof fn lemma_line_count_concat(a: Seq<u8>, b: Seq<u8>)
    requires
        a.len() == 0 || a.last() == 10,
    ensures
        line_count(a + b) == line_count(a) + line_count(b),
{
    lemma_newline_count_concat(a, b);
    if b.len() == 0 {
        assert(a + b =~= a);
    } else {
        assert((a + b).last() == b.last());
    }
}

/// A text has no more lines than bytes, and none only if it is empty.
pub proof fn lemma_line_count_bound(text: Seq<u8>)
    ensures
        line_count(text) <= text.len(),
        line_count(text) == 0 <==> text.len() == 0,
{
    lemma_newline_count_bound(text);
}

/// Computes the number of lines in a byte slice (i.e. a file).
pub fn compute_file_line_count(text: &[u8]) -> (count: usize)
    ensures
        count == line_count(text@),
{
    let mut count: usize = 0;
    let mut i: usize = 0;
    while i < text.len()
        invariant
            i <= text@.len(),
            count == newline_count(text@.take(i as int)),
            count <= i,
        decreases text@.len() - i,
    {
        let ghost longer = text@.take(i + 1);
        assert(longer.drop_last() =~= text@.take(i as int));
        if text[i] == 10 {
            count += 1;
        }
        i += 1;
    }
    assert(text@.take(text@.len() as int) =~= text@);
    if text.len() > 0 && text[text.len() - 1] != 10 {
        proof {
            lemma_newline_count_bound(text@);
        }
        count += 1;
    }
    count
}

/// A formattable range of lines or bytes.
#[derive(Debug, PartialEq, Eq, Structural, Clone, Copy)]
pub struct FormatRange {
    /// The first (inclusive) of the range.
    pub first: usize,
    /// The last (inclusive) of the range.
    pub last: usize,
}

impl FormatRange {
    /// Creates a new `FormatRange`.
    pub fn new(first: usize, last: usize) -> (range: Self)
        ensures
            range.first == first,
            range.last == last,
    {
        FormatRange { first, last }
    }
}

/// A line range (1-based, inclusive [first, last]).
pub type LineRange = FormatRange;

/// Representation of different ranges formatters can use to emit diff ranges.
#[derive(Debug, PartialEq, Eq)]
pub enum RegionsToFormat {
    /// Line ranges (1-based, inclusive [first, last]).
    LineRanges(Vec<LineRange>),
}

/// Whether the two sides of a part of a diff are the same.
#[derive(Debug, PartialEq, Eq, Structural, Clone, Copy)]
pub enum DiffHunkKind {
    /// Both sides are the same.
    Matching,
    /// The sides differ.
    Different,
}

/// A part of a line-by-line diff between a base text and the current text.
#[derive(Debug)]
pub struct DiffHunk {
    /// Whether the sides are the same.
    pub kind: DiffHunkKind,
    /// The bytes of the base text.
    pub base: Vec<u8>,
    /// The bytes of the current text.
    pub current: Vec<u8>,
}

/// The base text of the hunks of a diff.
pub open spec fn hunks_base(hunks: Seq<DiffHunk>) -> Seq<u8>
    decreases hunks.len(),
{
    if hunks.len() == 0 {
        Seq::empty()
    } else {
        hunks_base(hunks.drop_last()) + hunks.last().base@
    }
}

/// The text that the hunks of a diff make up.
pub open spec fn hunks_text(hunks: Seq<DiffHunk>) -> Seq<u8>
    decreases hunks.len(),
{
    if hunks.len() == 0 {
        Seq::empty()
    } else {
        hunks_text(hunks.drop_last()) + hunks.last().current@
    }
}

/// The number of lines in the hunks of a diff.
pub open spec fn hunks_lines(hunks: Seq<DiffHunk>) -> nat
    decreases hunks.len(),
{
    if hunks.len() == 0 {
        0
    } else {
        hunks_lines(hunks.drop_last()) + line_count(hunks.last().current@)
    }
}

/// The line ranges of the hunks that differ, as far as they have lines.
pub open spec fn changed_ranges(hunks: Seq<DiffHunk>) -> Seq<(int, int)>
    decreases hunks.len(),
{
    if hunks.len() == 0 {
        Seq::empty()
    } else {
        let front = hunks.drop_last();
        let lines = line_count(hunks.last().current@);
        if hunks.last().kind == DiffHunkKind::Different && lines > 0 {
            changed_ranges(front).push(
                (hunks_lines(front) as int + 1, hunks_lines(front) as int + lines as int),
            )
        } else {
            changed_ranges(front)
        }
    }
}

/// The ranges as pairs of numbers.
pub open spec fn range_pairs(ranges: Seq<LineRange>) -> Seq<(int, int)> {
    ranges.map_values(|range: LineRange| (range.first as int, range.last as int))
}

proof fn lemma_hunks_lines_bound(hunks: Seq<DiffHunk>)
    ensures
        hunks_lines(hunks) <= hunks_text(hunks).len(),
    decreases hunks.len(),
{
    if hunks.len() > 0 {
        lemma_hunks_lines_bound(hunks.drop_last());
        lemma_line_count_bound(hunks.last().current@);
    }
}

proof fn lemma_hunks_text_prefix(hunks: Seq<DiffHunk>, i: int)
    requires
        0 <= i <= hunks.len(),
    ensures
        hunks_text(hunks.take(i)).len() <= hunks_text(hunks).len(),
    decreases hunks.len(),
{
    if i < hunks.len() {
        lemma_hunks_text_prefix(hunks.drop_last(), i);
        assert(hunks.drop_last().take(i) =~= hunks.take(i));
    } else {
        assert(hunks.take(i) =~= hunks);
    }
}

/// Changed ranges are not empty, come in ascending order without overlaps, and
/// lie within the lines of the hunks.
pub proof fn lemma_changed_ranges_ordered(hunks: Seq<DiffHunk>)
    ensures
        forall|i: int|
            0 <= i < changed_ranges(hunks).len() ==> 1 <= (#[trigger] changed_ranges(hunks)[i]).0
                <= changed_ranges(hunks)[i].1 <= hunks_lines(hunks),
        forall|i: int, j: int|
            0 <= i < j < changed_ranges(hunks).len() ==> (#[trigger] changed_ranges(hunks)[i]).1 < (
            #[trigger] changed_ranges(hunks)[j]).0,
    decreases hunks.len(),
{
    if hunks.len() > 0 {
        let front = hunks.drop_last();
        lemma_changed_ranges_ordered(front);
        assert forall|i: int| 0 <= i < changed_ranges(front).len() implies #[trigger] changed_ranges(
            hunks,
        )[i] == changed_ranges(front)[i] by {}
    }
}

/// Whether a piece of text is empty or ends with a line feed.
pub open spec fn ends_line(text: Seq<u8>) -> bool {
    text.len() == 0 || text.last() == 10
}

proof fn lemma_hunks_end_line(hunks: Seq<DiffHunk>)
    requires
        forall|i: int| 0 <= i < hunks.len() ==> ends_line((#[trigger] hunks[i]).current@),
    ensures
        ends_line(hunks_text(hunks)),
    decreases hunks.len(),
{
    if hunks.len() > 0 {
        let front = hunks.drop_last();
        lemma_hunks_end_line(front);
        assert(ends_line(hunks[hunks.len() - 1].current@));
        let a = hunks_text(front);
        let b = hunks.last().current@;
        if b.len() > 0 {
            assert((a + b).last() == b.last());
        } else {
            assert(a + b =~= a);
        }
    }
}

/// The lines of the hunks are the lines of the text, if every hunk but the
/// last one is empty or ends with a line feed. A hunk is empty where lines were
/// only removed.
pub proof fn lemma_hunks_lines(hunks: Seq<DiffHunk>)
    requires
        forall|i: int| 0 <= i < hunks.len() - 1 ==> ends_line((#[trigger] hunks[i]).current@),
    ensures
        hunks_lines(hunks) == line_count(hunks_text(hunks)),
    decreases hunks.len(),
{
    if hunks.len() > 0 {
        let front = hunks.drop_last();
        lemma_hunks_lines(front);
        lemma_hunks_end_line(front);
        lemma_line_count_concat(hunks_text(front), hunks.last().current@);
    }
}

/// Whether hunks are those of a line-by-line diff: the sides of a hunk that
/// matches are the same, and only the last hunk may end within a line.
pub open spec fn is_line_diff(hunks: Seq<DiffHunk>) -> bool {
    &&& forall|i: int|
        0 <= i < hunks.len() ==> ((#[trigger] hunks[i]).kind == DiffHunkKind::Matching
            ==> hunks[i].base@ == hunks[i].current@)
    &&& forall|i: int|
        0 <= i < hunks.len() - 1 ==> ends_line((#[trigger] hunks[i]).base@) && ends_line(
            hunks[i].current@,
        )
}

/// Whether a line lies in one of the ranges.
pub open spec fn is_in_ranges(ranges: Seq<(int, int)>, line: int) -> bool {
    exists|i: int| 0 <= i < ranges.len() && (#[trigger] ranges[i]).0 <= line <= ranges[i].1
}

/// The line of the base text that a line of the current text stands for, if it
/// is in a hunk that matches.
pub open spec fn base_line(hunks: Seq<DiffHunk>, line: int) -> int
    decreases hunks.len(),
{
    if hunks.len() == 0 {
        0
    } else {
        let front = hunks.drop_last();
        if line > hunks_lines(front) {
            line_count(hunks_base(front)) + line - hunks_lines(front)
        } else {
            base_line(front, line)
        }
    }
}

/// The lines of a text are as many as are counted.
pub proof fn lemma_line_count_lines(text: Seq<u8>)
    ensures
        line_count(text) == lines_of(text).len(),
    decreases text.len(),
{
    if text.len() > 0 {
        let rest = text.drop_last();
        lemma_line_count_lines(rest);
        if rest.len() > 0 {
            assert(rest.last() == text[text.len() - 2]);
            lemma_line_count_bound(rest);
        }
    }
}

proof fn lemma_base_ends_line(hunks: Seq<DiffHunk>)
    requires
        forall|i: int| 0 <= i < hunks.len() ==> ends_line((#[trigger] hunks[i]).base@),
    ensures
        ends_line(hunks_base(hunks)),
    decreases hunks.len(),
{
    if hunks.len() > 0 {
        let front = hunks.drop_last();
        lemma_base_ends_line(front);
        assert(ends_line(hunks[hunks.len() - 1].base@));
        let a = hunks_base(front);
        let b = hunks.last().base@;
        if b.len() > 0 {
            assert((a + b).last() == b.last());
        } else {
            assert(a + b =~= a);
        }
    }
}

/// The lines of both sides of a diff are those before the last hunk and those in
/// it.
proof fn lemma_diff_lines(hunks: Seq<DiffHunk>)
    requires
        is_line_diff(hunks),
        hunks.len() > 0,
    ensures
        is_line_diff(hunks.drop_last()),
        lines_of(hunks_text(hunks)) == lines_of(hunks_text(hunks.drop_last())) + lines_of(
            hunks.last().current@,
        ),
        lines_of(hunks_base(hunks)) == lines_of(hunks_base(hunks.drop_last())) + lines_of(
            hunks.last().base@,
        ),
        lines_of(hunks_text(hunks.drop_last())).len() == hunks_lines(hunks.drop_last()),
        lines_of(hunks_base(hunks.drop_last())).len() == line_count(
            hunks_base(hunks.drop_last()),
        ),
        lines_of(hunks.last().current@).len() == line_count(hunks.last().current@),
{
    let front = hunks.drop_last();
    assert forall|i: int| 0 <= i < front.len() implies #[trigger] front[i] == hunks[i] && ends_line(
        front[i].base@,
    ) && ends_line(front[i].current@) by {
        assert(ends_line(hunks[i].base@));
    }
    lemma_hunks_end_line(front);
    lemma_base_ends_line(front);
    lemma_lines_concat(hunks_text(front), hunks.last().current@);
    lemma_lines_concat(hunks_base(front), hunks.last().base@);
    lemma_hunks_lines(front);
    lemma_line_count_lines(hunks_text(front));
    lemma_line_count_lines(hunks_base(front));
    lemma_line_count_lines(hunks.last().current@);
}

/// A line outside of all changed ranges is a line of the base text.
pub proof fn lemma_unchanged_line(hunks: Seq<DiffHunk>, line: int)
    requires
        is_line_diff(hunks),
        1 <= line <= line_count(hunks_text(hunks)),
        !is_in_ranges(changed_ranges(hunks), line),
    ensures
        1 <= base_line(hunks, line) <= line_count(hunks_base(hunks)),
        lines_of(hunks_text(hunks))[line - 1] == lines_of(hunks_base(hunks))[base_line(
            hunks,
            line,
        ) - 1],
    decreases hunks.len(),
{
    lemma_line_count_lines(hunks_text(hunks));
    lemma_line_count_lines(hunks_base(hunks));
    if hunks.len() > 0 {
        let front = hunks.drop_last();
        let last = hunks.last();
        let before = hunks_lines(front) as int;
        lemma_diff_lines(hunks);
        assert(hunks[hunks.len() - 1] == last);
        let ranges = changed_ranges(hunks);
        let count = line_count(last.current@) as int;
        if line > before {
            if last.kind == DiffHunkKind::Different {
                assert(ranges[ranges.len() - 1] == (before + 1, before + count));
            }
            assert(last.base@ == last.current@);
        } else {
            assert(!is_in_ranges(changed_ranges(front), line)) by {
                if is_in_ranges(changed_ranges(front), line) {
                    let i = choose|i: int|
                        0 <= i < changed_ranges(front).len() && (
                        #[trigger] changed_ranges(front)[i]).0 <= line <= changed_ranges(
                            front,
                        )[i].1;
                    assert(ranges[i] == changed_ranges(front)[i]);
                }
            }
            lemma_line_count_lines(hunks_text(front));
            lemma_unchanged_line(front, line);
        }
    } else {
        lemma_line_count_bound(hunks_text(hunks));
    }
}

/// The lines outside of all changed ranges are in the order in which they are in
/// the base text.
pub proof fn lemma_unchanged_lines_ordered(hunks: Seq<DiffHunk>, first: int, second: int)
    requires
        is_line_diff(hunks),
        1 <= first < second <= line_count(hunks_text(hunks)),
        !is_in_ranges(changed_ranges(hunks), first),
        !is_in_ranges(changed_ranges(hunks), second),
    ensures
        base_line(hunks, first) < base_line(hunks, second),
    decreases hunks.len(),
{
    lemma_line_count_lines(hunks_text(hunks));
    if hunks.len() > 0 {
        let front = hunks.drop_last();
        let before = hunks_lines(front) as int;
        lemma_diff_lines(hunks);
        lemma_line_count_lines(hunks_text(front));
        let ranges = changed_ranges(hunks);
        if first <= before {
            assert forall|line: int| is_in_ranges(changed_ranges(front), line) implies is_in_ranges(
                ranges,
                line,
            ) by {
                let i = choose|i: int|
                    0 <= i < changed_ranges(front).len() && (#[trigger] changed_ranges(front)[i]).0
                        <= line <= changed_ranges(front)[i].1;
                assert(ranges[i] == changed_ranges(front)[i]);
            }
            lemma_unchanged_line(front, first);
            if second <= before {
                lemma_unchanged_lines_ordered(front, first, second);
            }
        }
    } else {
        lemma_line_count_bound(hunks_text(hunks));
    }
}

/// Lines are in a changed range if, and only if, their hunk differs. So no line
/// of a hunk that matches is in one, and there are no ranges if all hunks match.
pub proof fn lemma_changed_line(hunks: Seq<DiffHunk>, h: int, line: int)
    requires
        0 <= h < hunks.len(),
        hunks_lines(hunks.take(h)) < line <= hunks_lines(hunks.take(h)) + line_count(
            hunks[h].current@,
        ),
    ensures
        is_in_ranges(changed_ranges(hunks), line) <==> hunks[h].kind == DiffHunkKind::Different,
    decreases hunks.len(),
{
    let front = hunks.drop_last();
    let ranges = changed_ranges(hunks);
    let before = changed_ranges(front);
    lemma_changed_ranges_ordered(front);
    assert forall|i: int| 0 <= i < before.len() implies ranges[i] == #[trigger] before[i] by {}
    if h < hunks.len() - 1 {
        assert(front.take(h) =~= hunks.take(h));
        assert(front[h] == hunks[h]);
        lemma_changed_line(front, h, line);
        lemma_lines_before(hunks, h);
        if is_in_ranges(before, line) {
            let i = choose|i: int|
                0 <= i < before.len() && (#[trigger] before[i]).0 <= line <= before[i].1;
            assert(ranges[i].0 <= line <= ranges[i].1);
        }
        if is_in_ranges(ranges, line) {
            let i = choose|i: int|
                0 <= i < ranges.len() && (#[trigger] ranges[i]).0 <= line <= ranges[i].1;
            assert(i < before.len());
            assert(before[i].0 <= line <= before[i].1);
        }
    } else {
        assert(hunks.take(h) =~= front);
        if hunks[h].kind == DiffHunkKind::Different {
            assert(ranges[before.len() as int].0 <= line <= ranges[before.len() as int].1);
        } else if is_in_ranges(ranges, line) {
            let i = choose|i: int|
                0 <= i < ranges.len() && (#[trigger] ranges[i]).0 <= line <= ranges[i].1;
            assert(before[i].1 <= hunks_lines(front));
        }
    }
}

/// The lines up to a hunk and its own are among the lines of all hunks but the
/// last one, if it is not the last one.
proof fn lemma_lines_before(hunks: Seq<DiffHunk>, h: int)
    requires
        0 <= h < hunks.len() - 1,
    ensures
        hunks_lines(hunks.take(h)) + line_count(hunks[h].current@) <= hunks_lines(
            hunks.drop_last(),
        ),
    decreases hunks.len(),
{
    let front = hunks.drop_last();
    assert(front.take(h) =~= hunks.take(h));
    assert(front[h] == hunks[h]);
    if h == hunks.len() - 2 {
        assert(front.drop_last() =~= hunks.take(h));
    } else {
        lemma_lines_before(front, h);
    }
}

/// Each hunk that differs and has lines has a range of its own, which holds just
/// the lines of the hunk, and there are no other ranges.
pub proof fn lemma_changed_ranges(hunks: Seq<DiffHunk>, range: (int, int))
    ensures
        changed_ranges(hunks).contains(range) <==> exists|h: int|
            {
                &&& 0 <= h < hunks.len()
                &&& (#[trigger] hunks[h]).kind == DiffHunkKind::Different
                &&& hunks[h].current@.len() > 0
                &&& range.0 == hunks_lines(hunks.take(h)) + 1
                &&& range.1 == hunks_lines(hunks.take(h)) + line_count(hunks[h].current@)
            },
        (forall|h: int|
            0 <= h < hunks.len() ==> (#[trigger] hunks[h]).kind == DiffHunkKind::Matching)
            ==> changed_ranges(hunks).len() == 0,
    decreases hunks.len(),
{
    if hunks.len() > 0 {
        let front = hunks.drop_last();
        let last = hunks.len() - 1;
        lemma_changed_ranges(front, range);
        lemma_line_count_bound(hunks.last().current@);
        assert(hunks.take(last) =~= front);
        assert(hunks[last] == hunks.last());
        assert forall|h: int| 0 <= h < front.len() implies (#[trigger] front[h]) == hunks[h]
            && front.take(h) == hunks.take(h) by {
            assert(front.take(h) =~= hunks.take(h));
        }
        let own = (
            hunks_lines(front) as int + 1,
            hunks_lines(front) as int + line_count(hunks.last().current@) as int,
        );
        lemma_push_contains(changed_ranges(front), own, range);
        if changed_ranges(front).contains(range) {
            let h = choose|h: int|
                {
                    &&& 0 <= h < front.len()
                    &&& (#[trigger] front[h]).kind == DiffHunkKind::Different
                    &&& front[h].current@.len() > 0
                    &&& range.0 == hunks_lines(front.take(h)) + 1
                    &&& range.1 == hunks_lines(front.take(h)) + line_count(front[h].current@)
                };
            assert(front[h] == hunks[h]);
        }
        if exists|h: int|
            {
                &&& 0 <= h < hunks.len()
                &&& (#[trigger] hunks[h]).kind == DiffHunkKind::Different
                &&& hunks[h].current@.len() > 0
                &&& range.0 == hunks_lines(hunks.take(h)) + 1
                &&& range.1 == hunks_lines(hunks.take(h)) + line_count(hunks[h].current@)
            } {
            let h = choose|h: int|
                {
                    &&& 0 <= h < hunks.len()
                    &&& (#[trigger] hunks[h]).kind == DiffHunkKind::Different
                    &&& hunks[h].current@.len() > 0
                    &&& range.0 == hunks_lines(hunks.take(h)) + 1
                    &&& range.1 == hunks_lines(hunks.take(h)) + line_count(hunks[h].current@)
                };
            if h < last {
                assert(front[h] == hunks[h]);
            } else {
                assert(range == own);
            }
        }
    }
}

/// Computes the 1-based line ranges of a text that are different from its
/// base, given the hunks of the line-by-line diff between them.
pub fn compute_changed_ranges(current: &[u8], hunks: &[DiffHunk]) -> (regions: RegionsToFormat)
    requires
        hunks_text(hunks@) == current@,
        current@.len() < usize::MAX,
    ensures
        regions matches RegionsToFormat::LineRanges(ranges) && range_pairs(ranges@)
            == changed_ranges(hunks@),
{
    let mut ranges: Vec<LineRange> = Vec::new();
    if current.len() == 0 {
        proof {
            lemma_no_changed_ranges(hunks@);
            assert(range_pairs(ranges@) =~= changed_ranges(hunks@));
        }
        return RegionsToFormat::LineRanges(ranges);
    }
    let mut current_line: usize = 1;
    let mut i: usize = 0;
    assert(range_pairs(ranges@) =~= changed_ranges(hunks@.take(0)));
    while i < hunks.len()
        invariant
            i <= hunks@.len(),
            hunks_text(hunks@).len() < usize::MAX,
            current_line == hunks_lines(hunks@.take(i as int)) + 1,
            range_pairs(ranges@) == changed_ranges(hunks@.take(i as int)),
        decreases hunks@.len() - i,
    {
        let hunk: &DiffHunk = &hunks[i];
        let line_count: usize = compute_file_line_count(hunk.current.as_slice());
        proof {
            let longer = hunks@.take(i + 1);
            assert(longer.drop_last() =~= hunks@.take(i as int));
            lemma_hunks_lines_bound(longer);
            lemma_hunks_text_prefix(hunks@, i + 1);
        }
        let ghost before = ranges@;
        match hunk.kind {
            DiffHunkKind::Matching => {},
            DiffHunkKind::Different => {
                if line_count > 0 {
                    ranges.push(
                        FormatRange { first: current_line, last: current_line + line_count - 1 },
                    );
                    assert(range_pairs(ranges@) =~= range_pairs(before).push(
                        (current_line as int, current_line + line_count - 1),
                    ));
                }
            },
        }
        current_line += line_count;
        i += 1;
    }
    assert(hunks@.take(hunks@.len() as int) =~= hunks@);
    RegionsToFormat::LineRanges(ranges)
}

proof fn lemma_no_changed_ranges(hunks: Seq<DiffHunk>)
    requires
        hunks_text(hunks).len() == 0,
    ensures
        changed_ranges(hunks).len() == 0,
    decreases hunks.len(),
{
    if hunks.len() > 0 {
        lemma_no_changed_ranges(hunks.drop_last());
        lemma_line_count_bound(hunks.last().current@);
    }
}

/// Whether no commit occurs twice and children come before their parents.
pub open spec fn children_first(commits: Seq<Commit>) -> bool {
    &&& commit_ids(commits).no_duplicates()
    &&& forall|i: int, k: int|
        0 <= i < commits.len() && 0 <= k < commits[i].parent_ids@.len() && commit_ids(
            commits,
        ).contains(#[trigger] commits[i].parent_ids@[k]) ==> commit_ids(commits).index_of(
            commits[i].parent_ids@[k],
        ) > i
}

/// The base commits of the commit at `i`: its closest ancestors that are not
/// in `commits`, in the order of its parents, without repetitions.
pub open spec fn bases_of(commits: Seq<Commit>, i: int) -> Seq<u64>
    decreases commits.len() - i, commits[i].parent_ids@.len() + 1,
{
    dedup(bases_of_parents(commits, i, commits[i].parent_ids@))
}

/// The base commits that the commit at `i` has through some of its parents: a
/// parent outside `commits` itself, or the bases of a parent in `commits`.
pub open spec fn bases_of_parents(commits: Seq<Commit>, i: int, parents: Seq<u64>) -> Seq<u64>
    decreases commits.len() - i, parents.len(),
{
    if parents.len() == 0 {
        Seq::empty()
    } else {
        let parent = parents.last();
        let j = commit_ids(commits).index_of(parent);
        bases_of_parents(commits, i, parents.drop_last()) + (if !commit_ids(commits).contains(
            parent,
        ) {
            seq![parent]
        } else if i < j < commits.len() {
            bases_of(commits, j)
        } else {
            Seq::empty()
        })
    }
}

/// Whether `chain` leads from the commit at `i` to one at its end, from child
/// to parent, within `commits`.
pub open spec fn is_chain(commits: Seq<Commit>, i: int, chain: Seq<int>) -> bool {
    &&& chain.len() > 0
    &&& chain[0] == i
    &&& forall|k: int| 0 <= k < chain.len() ==> 0 <= #[trigger] chain[k] < commits.len()
    &&& forall|k: int|
        0 <= k < chain.len() - 1 ==> #[trigger] commits[chain[k]].parent_ids@.contains(
            commits[chain[k + 1]].id,
        )
}

/// Whether `chain` leads from the commit at `i` to a child of `base`.
pub open spec fn leads_to(commits: Seq<Commit>, i: int, chain: Seq<int>, base: u64) -> bool {
    is_chain(commits, i, chain) && commits[chain.last()].parent_ids@.contains(base)
}

proof fn lemma_bases_within(commits: Seq<Commit>, i: int, parents: Seq<u64>, base: u64)
    requires
        children_first(commits),
        0 <= i < commits.len(),
        forall|p: u64| #[trigger] parents.contains(p) ==> commits[i].parent_ids@.contains(p),
        bases_of_parents(commits, i, parents).contains(base),
    ensures
        !commit_ids(commits).contains(base),
        exists|chain: Seq<int>| leads_to(commits, i, chain, base),
    decreases commits.len() - i, parents.len(),
{
    let all = bases_of_parents(commits, i, parents);
    let k = choose|k: int| 0 <= k < all.len() && all[k] == base;
    let front = bases_of_parents(commits, i, parents.drop_last());
    let parent = parents.last();
    let j = commit_ids(commits).index_of(parent);
    assert(parents[parents.len() - 1] == parent);
    assert(parents.contains(parent));
    if k < front.len() {
        assert(front[k] == base);
        assert forall|p: u64| #[trigger] parents.drop_last().contains(p) implies commits[i].parent_ids@.contains(
            p,
        ) by {
            let m = choose|m: int| 0 <= m < parents.drop_last().len() && parents.drop_last()[m] == p;
            assert(parents[m] == p);
            assert(parents.contains(p));
        }
        lemma_bases_within(commits, i, parents.drop_last(), base);
    } else if !commit_ids(commits).contains(parent) {
        assert(all[k] == seq![parent][k - front.len()]);
        assert(leads_to(commits, i, seq![i], base));
    } else {
        let list = bases_of_parents(commits, j, commits[j].parent_ids@);
        lemma_dedup(list);
        assert(bases_of(commits, j)[k - front.len()] == base);
        assert(bases_of(commits, j).contains(base));
        assert(list.contains(base));
        lemma_bases_within(commits, j, commits[j].parent_ids@, base);
        let chain = choose|chain: Seq<int>| leads_to(commits, j, chain, base);
        let longer = seq![i] + chain;
        assert(commit_ids(commits)[j] == parent);
        assert forall|m: int| 0 <= m < longer.len() - 1 implies #[trigger] commits[longer[m]].parent_ids@.contains(
            commits[longer[m + 1]].id,
        ) by {
            if m > 0 {
                assert(commits[chain[m - 1]].parent_ids@.contains(commits[chain[m - 1 + 1]].id));
            }
        }
        assert forall|m: int| 0 <= m < longer.len() implies 0 <= #[trigger] longer[m]
            < commits.len() by {
            if m > 0 {
                assert(0 <= chain[m - 1] < commits.len());
            }
        }
        assert(longer.last() == chain.last());
        assert(leads_to(commits, i, longer, base));
    }
}

proof fn lemma_bases_reached(
    commits: Seq<Commit>,
    i: int,
    parents: Seq<u64>,
    parent: u64,
    base: u64,
)
    requires
        children_first(commits),
        0 <= i < commits.len(),
        parents.contains(parent),
        if commit_ids(commits).contains(parent) {
            let j = commit_ids(commits).index_of(parent);
            i < j && bases_of(commits, j).contains(base)
        } else {
            parent == base
        },
    ensures
        bases_of_parents(commits, i, parents).contains(base),
    decreases parents.len(),
{
    let all = bases_of_parents(commits, i, parents);
    let front = bases_of_parents(commits, i, parents.drop_last());
    if parents.last() == parent {
        if commit_ids(commits).contains(parent) {
            let j = commit_ids(commits).index_of(parent);
            assert(commit_ids(commits)[j] == parent);
            let k = choose|k: int| 0 <= k < bases_of(commits, j).len() && bases_of(commits, j)[k] == base;
            assert(all[front.len() + k] == base);
        } else {
            assert(all[front.len() as int] == base);
        }
    } else {
        let m = choose|m: int| 0 <= m < parents.len() && parents[m] == parent;
        assert(parents.drop_last()[m] == parent);
        lemma_bases_reached(commits, i, parents.drop_last(), parent, base);
        let k = choose|k: int| 0 <= k < front.len() && front[k] == base;
        assert(all[k] == base);
    }
}

proof fn lemma_chain_gives_base(commits: Seq<Commit>, i: int, chain: Seq<int>, base: u64)
    requires
        children_first(commits),
        leads_to(commits, i, chain, base),
        !commit_ids(commits).contains(base),
    ensures
        bases_of(commits, i).contains(base),
    decreases chain.len(),
{
    assert(0 <= chain[0] < commits.len());
    let parents = commits[i].parent_ids@;
    lemma_dedup(bases_of_parents(commits, i, parents));
    if chain.len() == 1 {
        lemma_bases_reached(commits, i, parents, base, base);
    } else {
        let j = chain[1];
        let rest = chain.drop_first();
        assert(0 <= j < commits.len());
        let parent = commits[j].id;
        assert(commits[chain[0]].parent_ids@.contains(commits[chain[0int + 1]].id));
        assert forall|m: int| 0 <= m < rest.len() - 1 implies #[trigger] commits[rest[m]].parent_ids@.contains(
            commits[rest[m + 1]].id,
        ) by {
            assert(commits[chain[m + 1]].parent_ids@.contains(commits[chain[m + 1 + 1]].id));
        }
        assert forall|m: int| 0 <= m < rest.len() implies 0 <= #[trigger] rest[m]
            < commits.len() by {
            assert(0 <= chain[m + 1] < commits.len());
        }
        assert(rest.last() == chain.last());
        lemma_chain_gives_base(commits, j, rest, base);
        assert(commit_ids(commits)[j] == parent);
        assert(commit_ids(commits).contains(parent));
        assert(commit_ids(commits).index_of(parent) == j);
        let k = choose|k: int| 0 <= k < parents.len() && parents[k] == parent;
        assert(commit_ids(commits).contains(commits[i].parent_ids@[k]));
        lemma_bases_reached(commits, i, parents, parent, base);
    }
}

/// The base commits of a commit are the commits outside `commits` that are
/// parents of the commit, or of its ancestors that can be reached within
/// `commits`.
pub proof fn lemma_base_commits(commits: Seq<Commit>, i: int, base: u64)
    requires
        children_first(commits),
        0 <= i < commits.len(),
    ensures
        bases_of(commits, i).contains(base) <==> !commit_ids(commits).contains(base) && exists|
            chain: Seq<int>,
        | leads_to(commits, i, chain, base),
{
    let parents = commits[i].parent_ids@;
    lemma_dedup(bases_of_parents(commits, i, parents));
    if bases_of(commits, i).contains(base) {
        assert(bases_of_parents(commits, i, parents).contains(base));
        lemma_bases_within(commits, i, parents, base);
    }
    if !commit_ids(commits).contains(base) && exists|chain: Seq<int>|
        leads_to(commits, i, chain, base) {
        let chain = choose|chain: Seq<int>| leads_to(commits, i, chain, base);
        lemma_chain_gives_base(commits, i, chain, base);
    }
}

/// Given a list of commits, determines the base commits of each of them: the
/// closest ancestors that are not in the list. They may be ancestors of other
/// base commits.
pub fn get_base_commit_map(commits: &[Commit]) -> (base_commit_map: HashMap<u64, IndexSet<u64>>)
    requires
        children_first(commits@),
    ensures
        forall|id: u64| #[trigger]
            base_commit_map@.contains_key(id) <==> commit_ids(commits@).contains(id),
        forall|i: int|
            0 <= i < commits@.len() ==> members(base_commit_map@[(#[trigger] commits@[i]).id])
                == bases_of(commits@, i),
{
    let ghost ids = commit_ids(commits@);
    let mut known_ids: HashSet<u64> = HashSet::new();
    let mut n: usize = 0;
    while n < commits.len()
        invariant
            n <= commits@.len(),
            ids == commit_ids(commits@),
            forall|id: u64| #[trigger] known_ids@.contains(id) <==> ids.take(n as int).contains(id),
        decreases commits@.len() - n,
    {
        let ghost taken = ids.take(n as int);
        known_ids.insert(commits[n].id);
        n += 1;
        proof {
            assert(ids.take(n as int) =~= taken.push(commits@[n - 1].id));
            assert forall|id: u64| #[trigger] known_ids@.contains(id) <==> ids.take(
                n as int,
            ).contains(id) by {
                crate::seq_util::lemma_push_contains(taken, commits@[n - 1].id, id);
            }
        }
    }
    assert(ids.take(commits@.len() as int) =~= ids);
    let mut base_commit_map: HashMap<u64, IndexSet<u64>> = HashMap::new();
    let mut i: usize = commits.len();
    while i > 0
        invariant
            i <= commits@.len(),
            children_first(commits@),
            ids == commit_ids(commits@),
            forall|id: u64| #[trigger] known_ids@.contains(id) <==> ids.contains(id),
            forall|j: int|
                i <= j < commits@.len() ==> base_commit_map@.contains_key(
                    (#[trigger] commits@[j]).id,
                ) && members(base_commit_map@[commits@[j].id]) == bases_of(commits@, j),
            forall|id: u64| #[trigger]
                base_commit_map@.contains_key(id) ==> exists|j: int|
                    i <= j < commits@.len() && (#[trigger] commits@[j]).id == id,
        decreases i,
    {
        i -= 1;
        let commit: &Commit = &commits[i];
        let mut base_ids: IndexSet<u64> = set_new();
        let ghost parents = commit.parent_ids@;
        let mut k: usize = 0;
        while k < commit.parent_ids.len()
            invariant
                i < commits@.len(),
                *commit == commits@[i as int],
                parents == commit.parent_ids@,
                k <= parents.len(),
                children_first(commits@),
                ids == commit_ids(commits@),
                forall|id: u64| #[trigger] known_ids@.contains(id) <==> ids.contains(id),
                forall|j: int|
                    i < j < commits@.len() ==> base_commit_map@.contains_key(
                        (#[trigger] commits@[j]).id,
                    ) && members(base_commit_map@[commits@[j].id]) == bases_of(commits@, j),
                forall|id: u64| #[trigger]
                    base_commit_map@.contains_key(id) ==> exists|j: int|
                        i < j < commits@.len() && (#[trigger] commits@[j]).id == id,
                members(base_ids) == dedup(
                    bases_of_parents(commits@, i as int, parents.take(k as int)),
                ),
            decreases parents.len() - k,
        {
            let parent_id: u64 = commit.parent_ids[k];
            let ghost so_far = bases_of_parents(commits@, i as int, parents.take(k as int));
            let ghost j = ids.index_of(parent_id);
            proof {
                assert(parents.take(k + 1).drop_last() =~= parents.take(k as int));
                assert(parents.take(k + 1).last() == parent_id);
                assert(commits@[i as int].parent_ids@[k as int] == parent_id);
                if ids.contains(parent_id) {
                    assert(ids[j] == parent_id);
                    assert(commits@[j].id == parent_id);
                } else if base_commit_map@.contains_key(parent_id) {
                    let m = choose|m: int|
                        i < m < commits@.len() && (#[trigger] commits@[m]).id == parent_id;
                    assert(ids[m] == parent_id);
                }
            }
            if let Some(parent_bases) = base_commit_map.get(&parent_id) {
                let ghost list = members(*parent_bases);
                assert(list == bases_of(commits@, j));
                let len: usize = set_len(parent_bases);
                let mut m: usize = 0;
                assert(so_far + list.take(0) =~= so_far);
                while m < len
                    invariant
                        list == members(*parent_bases),
                        len == list.len(),
                        m <= len,
                        members(base_ids) == dedup(so_far + list.take(m as int)),
                    decreases len - m,
                {
                    if let Some(base) = set_get_index(parent_bases, m) {
                        let ghost before = so_far + list.take(m as int);
                        set_insert(&mut base_ids, base);
                        proof {
                            lemma_dedup_push(before, base);
                            assert(so_far + list.take(m + 1) =~= before.push(base));
                        }
                    }
                    m += 1;
                }
                assert(list.take(len as int) =~= list);
            }
            if !known_ids.contains(&parent_id) {
                set_insert(&mut base_ids, parent_id);
                proof {
                    lemma_dedup_push(so_far, parent_id);
                    assert(so_far + seq![parent_id] =~= so_far.push(parent_id));
                }
            }
            k += 1;
        }
        assert(parents.take(parents.len() as int) =~= parents);
        let ghost before_map = base_commit_map@;
        base_commit_map.insert(commit.id, base_ids);
        proof {
            assert forall|j: int| i <= j < commits@.len() implies base_commit_map@.contains_key(
                (#[trigger] commits@[j]).id,
            ) && members(base_commit_map@[commits@[j].id]) == bases_of(commits@, j) by {
                if j > i {
                    assert(ids[j] == commits@[j].id);
                    assert(ids[i as int] == commits@[i as int].id);
                }
            }
            assert forall|id: u64| #[trigger] base_commit_map@.contains_key(id) implies exists|j: int|
                i <= j < commits@.len() && (#[trigger] commits@[j]).id == id by {
                if id == commit.id {
                    assert(commits@[i as int].id == id);
                } else {
                    assert(before_map.contains_key(id));
                }
            }
        }
    }
    proof {
        assert forall|id: u64| #[trigger] base_commit_map@.contains_key(id) <==> ids.contains(
            id,
        ) by {
            if base_commit_map@.contains_key(id) {
                let j = choose|j: int| 0 <= j < commits@.len() && (#[trigger] commits@[j]).id == id;
                assert(ids[j] == id);
            }
            if ids.contains(id) {
                let j = ids.index_of(id);
                assert(ids[j] == id);
                assert(commits@[j].id == id);
            }
        }
    }
    base_commit_map
}

/// A file whose content may be transformed by a [`FileFixer`].
#[derive(Debug, PartialEq, Eq, Hash, Structural, Clone, Copy)]
pub struct FileToFix {
    /// Unique identifier for the file content.
    pub file_id: u64,
    /// The content that the file is compared with to find its changed lines.
    pub base_file_id: Option<u64>,
    /// The path of the file.
    pub repo_path: u64,
}

/// What a tree holds at a path.
#[derive(Debug, PartialEq, Eq, Structural, Clone, Copy)]
pub enum TreeValue {
    /// A normal file.
    File {
        /// The content of the file.
        id: u64,
        /// Whether the file is executable.
        executable: bool,
        /// The origin of the file.
        copy_id: u64,
    },
    /// A directory, a symlink or anything else that has no content to fix.
    Other(u64),
}

/// A difference between the tree of a commit and the tree it is compared with.
/// A value that is not conflicted has one term.
#[derive(Debug)]
pub struct TreeDiffEntry {
    /// The path.
    pub path: u64,
    /// The value at the path in the tree that the diff starts from.
    pub before: Vec<Option<TreeValue>>,
    /// The value at the path in the merged trees of the base commits.
    pub base: Vec<Option<TreeValue>>,
    /// The value at the path in the commit.
    pub after: Vec<Option<TreeValue>>,
}

/// A commit and the differences in it that may have to be fixed.
#[derive(Debug)]
pub struct CommitToFix {
    /// The commit.
    pub id: u64,
    /// The differences.
    pub entries: Vec<TreeDiffEntry>,
}

/// Whether there is nothing at the path.
pub open spec fn is_absent(terms: Seq<Option<TreeValue>>) -> bool {
    terms.len() == 1 && terms[0] is None
}

/// The content of a term that is a file.
pub open spec fn term_file_id(term: Option<TreeValue>) -> Option<u64> {
    match term {
        Some(TreeValue::File { id, .. }) => Some(id),
        _ => None,
    }
}

/// The content of the first term of a value.
pub open spec fn first_file_id(terms: Seq<Option<TreeValue>>) -> Option<u64> {
    if terms.len() > 0 {
        term_file_id(terms[0])
    } else {
        None
    }
}

/// The content that the file of an entry is compared with: that of the first
/// side of the base.
pub open spec fn entry_base(entry: TreeDiffEntry, include_unchanged_files: bool) -> Option<u64> {
    first_file_id(
        if include_unchanged_files {
            entry.base@
        } else {
            entry.before@
        },
    )
}

/// The files to fix among the terms of a value.
pub open spec fn term_files(
    path: u64,
    base: Option<u64>,
    terms: Seq<Option<TreeValue>>,
) -> Seq<FileToFix>
    decreases terms.len(),
{
    if terms.len() == 0 {
        Seq::empty()
    } else {
        let front = term_files(path, base, terms.drop_last());
        match term_file_id(terms.last()) {
            Some(id) => front.push(
                FileToFix { file_id: id, base_file_id: base, repo_path: path },
            ),
            None => front,
        }
    }
}

/// The files to fix of an entry: all sides of the current value that are
/// files. A deleted file has none.
pub open spec fn entry_files(entry: TreeDiffEntry, include_unchanged_files: bool) -> Seq<
    FileToFix,
> {
    if is_absent(entry.after@) {
        Seq::empty()
    } else {
        term_files(entry.path, entry_base(entry, include_unchanged_files), entry.after@)
    }
}

/// The files to fix of a list of entries.
pub open spec fn entries_files(entries: Seq<TreeDiffEntry>, include_unchanged_files: bool) -> Seq<
    FileToFix,
>
    decreases entries.len(),
{
    if entries.len() == 0 {
        Seq::empty()
    } else {
        entries_files(entries.drop_last(), include_unchanged_files) + entry_files(
            entries.last(),
            include_unchanged_files,
        )
    }
}

/// The files to fix of a list of commits, from the last commit to the first.
pub open spec fn all_files(commits: Seq<CommitToFix>, include_unchanged_files: bool) -> Seq<
    FileToFix,
>
    decreases commits.len(),
{
    if commits.len() == 0 {
        Seq::empty()
    } else {
        all_files(commits.drop_first(), include_unchanged_files) + entries_files(
            commits[0].entries@,
            include_unchanged_files,
        )
    }
}

/// The paths of a list of files, without repetitions.
pub open spec fn paths_of(files: Seq<FileToFix>) -> Seq<u64> {
    dedup(files.map_values(|file: FileToFix| file.repo_path))
}

/// The content that a file of a commit is compared with.
#[derive(Debug, PartialEq, Eq, Structural, Clone, Copy)]
pub struct BaseFile {
    /// The commit.
    pub commit_id: u64,
    /// The path of the file.
    pub path: u64,
    /// The content.
    pub file_id: u64,
}

/// The base files of a list of entries.
pub open spec fn entries_base_files(
    commit_id: u64,
    entries: Seq<TreeDiffEntry>,
    include_unchanged_files: bool,
) -> Seq<BaseFile>
    decreases entries.len(),
{
    if entries.len() == 0 {
        Seq::empty()
    } else {
        let front = entries_base_files(commit_id, entries.drop_last(), include_unchanged_files);
        let entry = entries.last();
        match entry_base(entry, include_unchanged_files) {
            Some(file_id) if !is_absent(entry.after@) => front.push(
                BaseFile { commit_id, path: entry.path, file_id },
            ),
            _ => front,
        }
    }
}

/// The base files of a list of commits, from the last commit to the first.
pub open spec fn all_base_files(commits: Seq<CommitToFix>, include_unchanged_files: bool) -> Seq<
    BaseFile,
>
    decreases commits.len(),
{
    if commits.len() == 0 {
        Seq::empty()
    } else {
        all_base_files(commits.drop_first(), include_unchanged_files) + entries_base_files(
            commits[0].id,
            commits[0].entries@,
            include_unchanged_files,
        )
    }
}

/// What has to be fixed, and where the fixes belong.
#[derive(Debug)]
pub struct FixPlan {
    /// The files to hand to the fixer. A file that occurs at several places is
    /// handed over once.
    pub files: Vec<FileToFix>,
    /// The paths that may be fixed in each commit.
    pub commit_paths: HashMap<u64, Vec<u64>>,
    /// The content that the files are compared with.
    pub base_files: Vec<BaseFile>,
}

fn insert_file(files: &mut Vec<FileToFix>, file: FileToFix)
    ensures
        final(files)@ == (if old(files)@.contains(file) {
            old(files)@
        } else {
            old(files)@.push(file)
        }),
{
    let mut i: usize = 0;
    while i < files.len()
        invariant
            files@ == old(files)@,
            i <= files@.len(),
            forall|k: int| 0 <= k < i ==> files@[k] != file,
        decreases files@.len() - i,
    {
        if files[i] == file {
            assert(old(files)@[i as int] == file);
            return;
        }
        i += 1;
    }
    files.push(file);
}

fn insert_path(paths: &mut Vec<u64>, path: u64)
    ensures
        final(paths)@ == (if old(paths)@.contains(path) {
            old(paths)@
        } else {
            old(paths)@.push(path)
        }),
{
    let mut i: usize = 0;
    while i < paths.len()
        invariant
            paths@ == old(paths)@,
            i <= paths@.len(),
            forall|k: int| 0 <= k < i ==> paths@[k] != path,
        decreases paths@.len() - i,
    {
        if paths[i] == path {
            assert(old(paths)@[i as int] == path);
            return;
        }
        i += 1;
    }
    paths.push(path);
}

/// Adds the files of one entry to what has to be fixed.
fn add_entry(
    entry: &TreeDiffEntry,
    include_unchanged_files: bool,
    commit_id: u64,
    files: &mut Vec<FileToFix>,
    paths: &mut Vec<u64>,
    base_files: &mut Vec<BaseFile>,
    Ghost(prior): Ghost<Seq<FileToFix>>,
    Ghost(done): Ghost<Seq<TreeDiffEntry>>,
)
    requires
        old(files)@ == dedup(prior + entries_files(done, include_unchanged_files)),
        old(paths)@ == paths_of(entries_files(done, include_unchanged_files)),
    ensures
        final(files)@ == dedup(prior + entries_files(done.push(*entry), include_unchanged_files)),
        final(paths)@ == paths_of(entries_files(done.push(*entry), include_unchanged_files)),
        final(base_files)@ == old(base_files)@ + entries_base_files(
            commit_id,
            seq![*entry],
            include_unchanged_files,
        ),
{
    let ghost front = entries_files(done, include_unchanged_files);
    proof {
        assert(done.push(*entry).drop_last() =~= done);
        assert(seq![*entry].drop_last() =~= Seq::<TreeDiffEntry>::empty());
        reveal_with_fuel(entries_base_files, 2);
        assert(seq![*entry].last() == *entry);
    }
    if entry.after.len() == 1 && entry.after[0].is_none() {
        proof {
            assert(front + Seq::<FileToFix>::empty() =~= front);
            assert(base_files@ + Seq::<BaseFile>::empty() =~= base_files@);
        }
        return;
    }
    let before: &Vec<Option<TreeValue>> = if include_unchanged_files {
        &entry.base
    } else {
        &entry.before
    };
    let mut base_file_id: Option<u64> = None;
    if before.len() > 0 {
        if let Some(TreeValue::File { id, .. }) = before[0] {
            base_file_id = Some(id);
        }
    }
    if let Some(file_id) = base_file_id {
        base_files.push(BaseFile { commit_id, path: entry.path, file_id });
        assert(base_files@ =~= old(base_files)@ + entries_base_files(
            commit_id,
            seq![*entry],
            include_unchanged_files,
        ));
    } else {
        assert(base_files@ + Seq::<BaseFile>::empty() =~= base_files@);
    }
    let ghost base = entry_base(*entry, include_unchanged_files);
    let mut t: usize = 0;
    proof {
        let none = term_files(entry.path, base, entry.after@.take(0));
        assert(front + none =~= front);
    }
    while t < entry.after.len()
        invariant
            t <= entry.after@.len(),
            base_file_id == base,
            files@ == dedup(
                prior + (front + term_files(entry.path, base, entry.after@.take(t as int))),
            ),
            paths@ == paths_of(front + term_files(entry.path, base, entry.after@.take(t as int))),
        decreases entry.after@.len() - t,
    {
        let ghost shorter = entry.after@.take(t as int);
        let ghost list = front + term_files(entry.path, base, shorter);
        let ghost longer = entry.after@.take(t + 1);
        assert(longer.drop_last() =~= shorter);
        assert(longer.last() == entry.after@[t as int]);
        if let Some(TreeValue::File { id, .. }) = entry.after[t] {
            let file: FileToFix = FileToFix {
                file_id: id,
                base_file_id: base_file_id,
                repo_path: entry.path,
            };
            proof {
                lemma_dedup_push(prior + list, file);
                assert((prior + list).push(file) =~= prior + list.push(file));
                assert(list.push(file) =~= front + term_files(entry.path, base, longer));
                let names = list.map_values(|f: FileToFix| f.repo_path);
                lemma_dedup_push(names, entry.path);
                assert(names.push(entry.path) =~= list.push(file).map_values(
                    |f: FileToFix| f.repo_path,
                ));
            }
            insert_file(files, file);
            insert_path(paths, entry.path);
        }
        t += 1;
    }
    assert(entry.after@.take(entry.after@.len() as int) =~= entry.after@);
}

/// Collects the unique files to fix of all commits, given children first, and
/// the paths that may be fixed in each of them.
///
/// If a path is being fixed in a commit, it must also be fixed in all that
/// commit's descendants. The differences of every commit are those to its base
/// commits, which lie outside the list, so that the descendants repeat them.
pub fn collect_files_to_fix(commits: &[CommitToFix], include_unchanged_files: bool) -> (plan:
    FixPlan)
    requires
        commits@.map_values(|commit: CommitToFix| commit.id).no_duplicates(),
    ensures
        plan.files@ == dedup(all_files(commits@, include_unchanged_files)),
        plan.base_files@ == all_base_files(commits@, include_unchanged_files),
        forall|id: u64| #[trigger]
            plan.commit_paths@.contains_key(id) <==> commits@.map_values(
                |commit: CommitToFix| commit.id,
            ).contains(id),
        forall|i: int|
            0 <= i < commits@.len() ==> plan.commit_paths@[(#[trigger] commits@[i]).id]@
                == paths_of(entries_files(commits@[i].entries@, include_unchanged_files)),
{
    let ghost ids = commits@.map_values(|commit: CommitToFix| commit.id);
    let mut files: Vec<FileToFix> = Vec::new();
    let mut commit_paths: HashMap<u64, Vec<u64>> = HashMap::new();
    let mut base_files: Vec<BaseFile> = Vec::new();
    let mut i: usize = commits.len();
    assert(commits@.skip(i as int) =~= Seq::<CommitToFix>::empty());
    while i > 0
        invariant
            i <= commits@.len(),
            ids == commits@.map_values(|commit: CommitToFix| commit.id),
            ids.no_duplicates(),
            files@ == dedup(all_files(commits@.skip(i as int), include_unchanged_files)),
            base_files@ == all_base_files(commits@.skip(i as int), include_unchanged_files),
            forall|j: int|
                i <= j < commits@.len() ==> commit_paths@.contains_key((#[trigger] commits@[j]).id)
                    && commit_paths@[commits@[j].id]@ == paths_of(
                    entries_files(commits@[j].entries@, include_unchanged_files),
                ),
            forall|id: u64| #[trigger] commit_paths@.contains_key(id) ==> ids.contains(id),
        decreases i,
    {
        let ghost prior = all_files(commits@.skip(i as int), include_unchanged_files);
        let ghost prior_bases = base_files@;
        i -= 1;
        let commit: &CommitToFix = &commits[i];
        let ghost entries = commit.entries@;
        let mut paths: Vec<u64> = Vec::new();
        let mut k: usize = 0;
        proof {
            let none = entries_files(entries.take(0), include_unchanged_files);
            assert(prior + none =~= prior);
            assert(paths@ =~= paths_of(none));
            assert(prior_bases + entries_base_files(
                commit.id,
                entries.take(0),
                include_unchanged_files,
            ) =~= prior_bases);
        }
        while k < commit.entries.len()
            invariant
                entries == commit.entries@,
                k <= entries.len(),
                files@ == dedup(
                    prior + entries_files(entries.take(k as int), include_unchanged_files),
                ),
                paths@ == paths_of(entries_files(entries.take(k as int), include_unchanged_files)),
                base_files@ == prior_bases + entries_base_files(
                    commit.id,
                    entries.take(k as int),
                    include_unchanged_files,
                ),
            decreases entries.len() - k,
        {
            let ghost done = entries.take(k as int);
            let ghost bases_so_far = entries_base_files(commit.id, done, include_unchanged_files);
            add_entry(
                &commit.entries[k],
                include_unchanged_files,
                commit.id,
                &mut files,
                &mut paths,
                &mut base_files,
                Ghost(prior),
                Ghost(done),
            );
            proof {
                let entry = entries[k as int];
                assert(entries.take(k + 1) =~= done.push(entry));
                assert(done.push(entry).drop_last() =~= done);
                assert(seq![entry].drop_last() =~= Seq::<TreeDiffEntry>::empty());
                reveal_with_fuel(entries_base_files, 2);
                assert(bases_so_far + entries_base_files(
                    commit.id,
                    seq![entry],
                    include_unchanged_files,
                ) =~= entries_base_files(commit.id, done.push(entry), include_unchanged_files));
                assert(base_files@ =~= prior_bases + entries_base_files(
                    commit.id,
                    done.push(entry),
                    include_unchanged_files,
                ));
            }
            k += 1;
        }
        proof {
            assert(entries.take(entries.len() as int) =~= entries);
            assert(commits@.skip(i as int).drop_first() =~= commits@.skip(i + 1));
            assert(commits@.skip(i as int)[0] == commits@[i as int]);
        }
        let ghost before_map = commit_paths@;
        commit_paths.insert(commit.id, paths);
        proof {
            assert(ids[i as int] == commit.id);
            assert forall|j: int| i <= j < commits@.len() implies commit_paths@.contains_key(
                (#[trigger] commits@[j]).id,
            ) && commit_paths@[commits@[j].id]@ == paths_of(
                entries_files(commits@[j].entries@, include_unchanged_files),
            ) by {
                if j > i {
                    assert(ids[j] == commits@[j].id);
                }
            }
        }
    }
    proof {
        assert(commits@.skip(0) =~= commits@);
        assert forall|id: u64| #[trigger] commit_paths@.contains_key(id) <==> ids.contains(id) by {
            if ids.contains(id) {
                let j = choose|j: int| 0 <= j < ids.len() && ids[j] == id;
                assert(commits@[j].id == id);
            }
        }
    }
    FixPlan { files, commit_paths, base_files }
}

/// Error fixing files.
#[derive(Debug)]
pub enum FixError {
    /// Error while contacting the backend.
    Backend(String),
    /// Error resolving commit ancestry.
    RevsetEvaluation(String),
    /// Error occurred while reading or writing file content.
    Io(String),
    /// Error occurred while processing the file content.
    FixContent(String),
}

/// Fixes a set of files.
///
/// Fixing a file is implementation dependent. For example it may format source
/// code using a code formatter.
pub trait FileFixer {
    /// Whether the fixer can be asked to fix files.
    open spec fn is_ready(&self) -> bool {
        true
    }

    /// Whether `answer` is something that the fixer may return for the files.
    open spec fn may_answer(
        &self,
        files: Seq<FileToFix>,
        answer: Result<Vec<(FileToFix, u64)>, FixError>,
    ) -> bool {
        true
    }

    /// Fixes a set of files. Stores the resulting file content (for modified
    /// files).
    ///
    /// Returns the files among `files_to_fix` that resulted in changed file
    /// content, each with its new content.
    fn fix_files(&mut self, files_to_fix: &Vec<FileToFix>) -> (answer: Result<
        Vec<(FileToFix, u64)>,
        FixError,
    >)
        requires
            old(self).is_ready(),
        ensures
            old(self).may_answer(files_to_fix@, answer),
    ;
}

/// The files among the results of a fixer that were changed.
pub open spec fn changed_files(results: Seq<(FileToFix, Result<Option<u64>, FixError>)>) -> Seq<
    (FileToFix, u64),
>
    decreases results.len(),
{
    if results.len() == 0 {
        Seq::empty()
    } else {
        let front = changed_files(results.drop_last());
        match results.last().1 {
            Ok(Some(id)) => front.push((results.last().0, id)),
            _ => front,
        }
    }
}

/// Gathers the results of fixing files one by one: the files that changed, or
/// the first error.
pub fn collect_changed_files(results: Vec<(FileToFix, Result<Option<u64>, FixError>)>) -> (changed:
    Result<Vec<(FileToFix, u64)>, FixError>)
    ensures
        changed is Err <==> exists|i: int|
            0 <= i < results@.len() && (#[trigger] results@[i]).1 is Err,
        changed matches Ok(files) ==> files@ == changed_files(results@),
        changed matches Err(error) ==> exists|i: int|
            {
                &&& 0 <= i < results@.len()
                &&& (#[trigger] results@[i]).1 == Err::<Option<u64>, FixError>(error)
                &&& forall|k: int| 0 <= k < i ==> (#[trigger] results@[k]).1 is Ok
            },
{
    let ghost all = results@;
    let mut remaining: Vec<(FileToFix, Result<Option<u64>, FixError>)> = results;
    let mut changed: Vec<(FileToFix, u64)> = Vec::new();
    let mut i: usize = 0;
    while i < remaining.len()
        invariant
            all == results@,
            remaining@ == all,
            i <= all.len(),
            changed@ == changed_files(all.take(i as int)),
            forall|k: int| 0 <= k < i ==> (#[trigger] all[k]).1 is Ok,
        decreases all.len() - i,
    {
        let ghost longer = all.take(i + 1);
        assert(longer.drop_last() =~= all.take(i as int));
        assert(longer.last() == all[i as int]);
        let failed: bool = match &remaining[i].1 {
            Ok(Some(id)) => {
                changed.push((remaining[i].0, *id));
                false
            },
            Ok(None) => false,
            Err(_) => true,
        };
        if failed {
            let (_, result) = remaining.remove(i);
            assert(all[i as int].1 is Err);
            if let Err(error) = result {
                return Err(error);
            }
        }
        i += 1;
    }
    assert(all.take(all.len() as int) =~= all);
    Ok(changed)
}

/// A fixer that applies `fix_fn` to each file.
#[derive(Debug)]
pub struct ParallelFileFixer<T> {
    /// What is applied.
    pub fix_fn: T,
}

impl<T: Fn(FileToFix) -> Result<Option<u64>, FixError>> ParallelFileFixer<T> {
    /// Creates a ParallelFileFixer.
    pub fn new(fix_fn: T) -> (fixer: Self)
        ensures
            fixer.fix_fn == fix_fn,
    {
        ParallelFileFixer { fix_fn }
    }

    /// Whether results are what `fix_fn` may return for files.
    pub open spec fn may_return(
        &self,
        files: Seq<FileToFix>,
        results: Seq<(FileToFix, Result<Option<u64>, FixError>)>,
    ) -> bool {
        &&& results.len() == files.len()
        &&& forall|i: int|
            0 <= i < files.len() ==> (#[trigger] results[i]).0 == files[i] && call_ensures(
                self.fix_fn,
                (files[i],),
                results[i].1,
            )
    }
}

impl<T: Fn(FileToFix) -> Result<Option<u64>, FixError>> FileFixer for ParallelFileFixer<T> {
    open spec fn is_ready(&self) -> bool {
        forall|file: FileToFix| #[trigger] call_requires(self.fix_fn, (file,))
    }

    /// The files that changed, each with its new content, or an error if there
    /// is one.
    open spec fn may_answer(
        &self,
        files: Seq<FileToFix>,
        answer: Result<Vec<(FileToFix, u64)>, FixError>,
    ) -> bool {
        exists|results: Seq<(FileToFix, Result<Option<u64>, FixError>)>|
            {
                &&& #[trigger] self.may_return(files, results)
                &&& answer is Err <==> exists|i: int|
                    0 <= i < results.len() && (#[trigger] results[i]).1 is Err
                &&& answer matches Ok(changed) ==> changed@ == changed_files(results)
                &&& answer matches Err(error) ==> exists|i: int|
                    0 <= i < results.len() && (#[trigger] results[i]).1 == Err::<
                        Option<u64>,
                        FixError,
                    >(error)
            }
    }

    /// Applies `fix_fn` to each file.
    fn fix_files(&mut self, files_to_fix: &Vec<FileToFix>) -> (answer: Result<
        Vec<(FileToFix, u64)>,
        FixError,
    >) {
        let mut results: Vec<(FileToFix, Result<Option<u64>, FixError>)> = Vec::new();
        let mut i: usize = 0;
        while i < files_to_fix.len()
            invariant
                i <= files_to_fix@.len(),
                forall|file: FileToFix| #[trigger] call_requires(self.fix_fn, (file,)),
                self.may_return(files_to_fix@.take(i as int), results@),
            decreases files_to_fix@.len() - i,
        {
            let file: FileToFix = files_to_fix[i];
            let ghost before = results@;
            assert(call_requires(self.fix_fn, (file,)));
            let result: Result<Option<u64>, FixError> = (self.fix_fn)(file);
            results.push((file, result));
            proof {
                let files = files_to_fix@.take(i + 1);
                assert forall|k: int| 0 <= k < files.len() implies (#[trigger] results@[k]).0
                    == files[k] && call_ensures(self.fix_fn, (files[k],), results@[k].1) by {
                    if k < i {
                        assert(results@[k] == before[k]);
                        assert(files_to_fix@.take(i as int)[k] == files[k]);
                    }
                }
            }
            i += 1;
        }
        assert(files_to_fix@.take(i as int) =~= files_to_fix@);
        let ghost all = results@;
        assert(self.may_return(files_to_fix@, all));
        collect_changed_files(results)
    }
}

/// What has been fixed.
#[derive(Debug)]
pub struct FixedFiles {
    /// What was to be fixed.
    pub plan: FixPlan,
    /// The files that changed, each with its new content.
    pub changed: Vec<(FileToFix, u64)>,
}

/// Updates files with formatting fixes or other changes, using the given
/// fixer: hands all unique files of the commits to the fixer and keeps what it
/// changed. [`FixedFiles::fix_commit`] then says how each commit is rewritten.
pub fn fix_files<F: FileFixer>(
    commits: &[CommitToFix],
    include_unchanged_files: bool,
    file_fixer: &mut F,
) -> (result: Result<FixedFiles, FixError>)
    requires
        old(file_fixer).is_ready(),
        commits@.map_values(|commit: CommitToFix| commit.id).no_duplicates(),
    ensures
        old(file_fixer).may_answer(
            dedup(all_files(commits@, include_unchanged_files)),
            match result {
                Ok(fixed) => Ok(fixed.changed),
                Err(error) => Err(error),
            },
        ),
        result matches Ok(fixed) ==> {
            &&& fixed.plan.files@ == dedup(all_files(commits@, include_unchanged_files))
            &&& fixed.plan.base_files@ == all_base_files(commits@, include_unchanged_files)
            &&& forall|id: u64| #[trigger]
                fixed.plan.commit_paths@.contains_key(id) <==> commits@.map_values(
                    |commit: CommitToFix| commit.id,
                ).contains(id)
            &&& forall|i: int|
                0 <= i < commits@.len() ==> fixed.plan.commit_paths@[(#[trigger] commits@[i]).id]@
                    == paths_of(entries_files(commits@[i].entries@, include_unchanged_files))
        },
{
    let plan: FixPlan = collect_files_to_fix(commits, include_unchanged_files);
    match file_fixer.fix_files(&plan.files) {
        Ok(changed) => Ok(FixedFiles { plan, changed }),
        Err(error) => Err(error),
    }
}

/// Every file of every commit is handed to the fixer, no other file is, and none
/// is handed over twice.
pub proof fn lemma_each_file_once(commits: Seq<CommitToFix>, include_unchanged_files: bool)
    ensures
        dedup(all_files(commits, include_unchanged_files)).no_duplicates(),
        forall|file: FileToFix| #[trigger]
            dedup(all_files(commits, include_unchanged_files)).contains(file) <==> exists|i: int|
                0 <= i < commits.len() && entries_files(
                    #[trigger] commits[i].entries@,
                    include_unchanged_files,
                ).contains(file),
{
    let all = all_files(commits, include_unchanged_files);
    lemma_dedup(all);
    assert forall|file: FileToFix| #[trigger] dedup(all).contains(file) <==> exists|i: int|
        0 <= i < commits.len() && entries_files(
            #[trigger] commits[i].entries@,
            include_unchanged_files,
        ).contains(file) by {
        lemma_all_files(commits, include_unchanged_files, file);
        assert(dedup(all).contains(file) <==> all.contains(file));
    }
}

proof fn lemma_all_files(
    commits: Seq<CommitToFix>,
    include_unchanged_files: bool,
    file: FileToFix,
)
    ensures
        all_files(commits, include_unchanged_files).contains(file) <==> exists|i: int|
            0 <= i < commits.len() && entries_files(
                #[trigger] commits[i].entries@,
                include_unchanged_files,
            ).contains(file),
    decreases commits.len(),
{
    if commits.len() > 0 {
        let rest = commits.drop_first();
        let early = all_files(rest, include_unchanged_files);
        let here = entries_files(commits[0].entries@, include_unchanged_files);
        lemma_all_files(rest, include_unchanged_files, file);
        lemma_concat_to_set(early, here);
        assert((early + here).to_set().contains(file) <==> early.to_set().union(
            here.to_set(),
        ).contains(file));
        if early.contains(file) {
            let i = choose|i: int|
                0 <= i < rest.len() && entries_files(
                    #[trigger] rest[i].entries@,
                    include_unchanged_files,
                ).contains(file);
            assert(rest[i] == commits[i + 1]);
            assert(entries_files(commits[i + 1].entries@, include_unchanged_files).contains(file));
        }
        if here.contains(file) {
            assert(entries_files(commits[0].entries@, include_unchanged_files).contains(file));
        }
        if exists|i: int|
            0 <= i < commits.len() && entries_files(
                #[trigger] commits[i].entries@,
                include_unchanged_files,
            ).contains(file) {
            let i = choose|i: int|
                0 <= i < commits.len() && entries_files(
                    #[trigger] commits[i].entries@,
                    include_unchanged_files,
                ).contains(file);
            if i > 0 {
                assert(rest[i - 1] == commits[i]);
                assert(entries_files(rest[i - 1].entries@, include_unchanged_files).contains(
                    file,
                ));
            }
        }
    }
}

/// The content that a file at a path of a commit is compared with: the last
/// one that was noted.
pub open spec fn base_file_of(base_files: Seq<BaseFile>, commit_id: u64, path: u64) -> Option<u64>
    decreases base_files.len(),
{
    if base_files.len() == 0 {
        None
    } else if base_files.last().commit_id == commit_id && base_files.last().path == path {
        Some(base_files.last().file_id)
    } else {
        base_file_of(base_files.drop_last(), commit_id, path)
    }
}

/// The new content of a file, if it was changed: the last one that was given.
pub open spec fn new_content(changed: Seq<(FileToFix, u64)>, file: FileToFix) -> Option<u64>
    decreases changed.len(),
{
    if changed.len() == 0 {
        None
    } else if changed.last().0 == file {
        Some(changed.last().1)
    } else {
        new_content(changed.drop_last(), file)
    }
}

/// A value at a path.
#[derive(Debug)]
pub struct PathValue {
    /// The path.
    pub path: u64,
    /// The terms of the value.
    pub terms: Vec<Option<TreeValue>>,
}

/// How a commit is rewritten.
#[derive(Debug)]
pub enum CommitFix {
    /// The commit gets a new tree, with these values changed.
    Rewrite(Vec<PathValue>),
    /// The commit keeps its tree and gets new parents.
    Reparent,
    /// The commit stays as it is.
    Keep,
}

impl FixedFiles {
    /// What a term becomes: a file that was changed gets its new content and
    /// keeps everything else.
    pub open spec fn fixed_term(
        &self,
        commit_id: u64,
        path: u64,
        term: Option<TreeValue>,
    ) -> Option<TreeValue> {
        match term {
            Some(TreeValue::File { id, executable, copy_id }) => {
                let file = FileToFix {
                    file_id: id,
                    base_file_id: base_file_of(self.plan.base_files@, commit_id, path),
                    repo_path: path,
                };
                match new_content(self.changed@, file) {
                    Some(new_id) => Some(TreeValue::File { id: new_id, executable, copy_id }),
                    None => term,
                }
            },
            _ => term,
        }
    }

    /// What a value becomes.
    pub open spec fn fixed_terms(
        &self,
        commit_id: u64,
        path: u64,
        terms: Seq<Option<TreeValue>>,
    ) -> Seq<Option<TreeValue>> {
        terms.map_values(|term: Option<TreeValue>| self.fixed_term(commit_id, path, term))
    }

    /// Whether a path may be fixed in a commit: it is recorded for the commit.
    pub open spec fn may_fix(&self, commit_id: u64, path: u64) -> bool {
        self.plan.commit_paths@[commit_id]@.contains(path)
    }

    /// The values of a commit that change, with what they become. Those at paths
    /// that are not recorded for the commit stay as they are.
    pub open spec fn changes(
        &self,
        commit_id: u64,
        values: Seq<(u64, Seq<Option<TreeValue>>)>,
    ) -> Seq<(u64, Seq<Option<TreeValue>>)>
        decreases values.len(),
    {
        if values.len() == 0 {
            Seq::empty()
        } else {
            let front = self.changes(commit_id, values.drop_last());
            let (path, terms) = values.last();
            let fixed = self.fixed_terms(commit_id, path, terms);
            if self.may_fix(commit_id, path) && fixed != terms {
                front.push((path, fixed))
            } else {
                front
            }
        }
    }

    /// Fixing keeps the shape of a value: the number of its terms, which of
    /// them are files, and whether these are executable. So no value becomes
    /// conflicted that was not.
    pub proof fn lemma_fix_keeps_shape(
        &self,
        commit_id: u64,
        path: u64,
        terms: Seq<Option<TreeValue>>,
    )
        ensures
            self.fixed_terms(commit_id, path, terms).len() == terms.len(),
            forall|i: int|
                0 <= i < terms.len() ==> match (#[trigger] terms[i]) {
                    Some(TreeValue::File { id: _, executable, copy_id }) => {
                        self.fixed_terms(commit_id, path, terms)[i] matches Some(
                            TreeValue::File { id: _, executable: e, copy_id: c },
                        ) && e == executable && c == copy_id
                    },
                    other => self.fixed_terms(commit_id, path, terms)[i] == other,
                },
    {
    }

    fn base_file(&self, commit_id: u64, path: u64) -> (found: Option<u64>)
        ensures
            found == base_file_of(self.plan.base_files@, commit_id, path),
    {
        let ghost all = self.plan.base_files@;
        let mut i: usize = self.plan.base_files.len();
        assert(all.take(i as int) =~= all);
        while i > 0
            invariant
                all == self.plan.base_files@,
                i <= all.len(),
                base_file_of(all, commit_id, path) == base_file_of(
                    all.take(i as int),
                    commit_id,
                    path,
                ),
            decreases i,
        {
            i -= 1;
            assert(all.take(i + 1).drop_last() =~= all.take(i as int));
            let base: BaseFile = self.plan.base_files[i];
            if base.commit_id == commit_id && base.path == path {
                return Some(base.file_id);
            }
        }
        None
    }

    fn changed_content(&self, file: FileToFix) -> (found: Option<u64>)
        ensures
            found == new_content(self.changed@, file),
    {
        let ghost all = self.changed@;
        let mut i: usize = self.changed.len();
        assert(all.take(i as int) =~= all);
        while i > 0
            invariant
                all == self.changed@,
                i <= all.len(),
                new_content(all, file) == new_content(all.take(i as int), file),
            decreases i,
        {
            i -= 1;
            assert(all.take(i + 1).drop_last() =~= all.take(i as int));
            let (key, id) = self.changed[i];
            if key == file {
                return Some(id);
            }
        }
        None
    }

    /// Decides how a commit is rewritten, given the values at the paths that
    /// may be fixed in it. Values at other paths are left out.
    pub fn fix_commit(&self, commit_id: u64, values: &[PathValue], parents_changed: bool) -> (fix:
        CommitFix)
        requires
            self.plan.commit_paths@.contains_key(commit_id),
        ensures
            match fix {
                CommitFix::Rewrite(changes) => changes@.len() > 0 && value_views(changes@)
                    == self.changes(commit_id, value_views(values@)),
                CommitFix::Reparent => self.changes(commit_id, value_views(values@)).len() == 0
                    && parents_changed,
                CommitFix::Keep => self.changes(commit_id, value_views(values@)).len() == 0
                    && !parents_changed,
            },
    {
        let ghost views = value_views(values@);
        let paths: &Vec<u64> = self.plan.commit_paths.get(&commit_id).unwrap();
        let mut changes: Vec<PathValue> = Vec::new();
        let mut i: usize = 0;
        assert(value_views(changes@) =~= self.changes(commit_id, views.take(0)));
        while i < values.len()
            invariant
                i <= values@.len(),
                views == value_views(values@),
                paths@ == self.plan.commit_paths@[commit_id]@,
                value_views(changes@) == self.changes(commit_id, views.take(i as int)),
            decreases values@.len() - i,
        {
            let ghost longer = views.take(i + 1);
            let value: &PathValue = &values[i];
            let ghost goal = self.fixed_terms(commit_id, value.path, value.terms@);
            proof {
                assert(longer.drop_last() =~= views.take(i as int));
                assert(longer.last() == (value.path, value.terms@));
            }
            let base_file_id: Option<u64> = self.base_file(commit_id, value.path);
            let mut terms: Vec<Option<TreeValue>> = Vec::new();
            let mut differs: bool = false;
            let mut t: usize = 0;
            while t < value.terms.len()
                invariant
                    t <= value.terms@.len(),
                    base_file_id == base_file_of(
                        self.plan.base_files@,
                        commit_id,
                        value.path,
                    ),
                    goal == self.fixed_terms(commit_id, value.path, value.terms@),
                    terms@ == goal.take(t as int),
                    differs <==> exists|k: int|
                        0 <= k < t && goal[k] != #[trigger] value.terms@[k],
                decreases value.terms@.len() - t,
            {
                let old_term: Option<TreeValue> = value.terms[t];
                let mut new_term: Option<TreeValue> = old_term;
                if let Some(TreeValue::File { id, executable, copy_id }) = old_term {
                    let file: FileToFix = FileToFix {
                        file_id: id,
                        base_file_id: base_file_id,
                        repo_path: value.path,
                    };
                    if let Some(new_id) = self.changed_content(file) {
                        new_term = Some(TreeValue::File { id: new_id, executable, copy_id });
                        if new_id != id {
                            differs = true;
                            assert(goal[t as int] != value.terms@[t as int]);
                        }
                    }
                }
                terms.push(new_term);
                t += 1;
                assert(terms@ =~= goal.take(t as int));
            }
            proof {
                assert(goal.take(goal.len() as int) =~= goal);
                if !differs {
                    assert forall|k: int| 0 <= k < goal.len() implies goal[k]
                        == value.terms@[k] by {}
                    assert(goal =~= value.terms@);
                }
            }
            if differs && contains_path(paths, value.path) {
                let ghost before = changes@;
                changes.push(PathValue { path: value.path, terms });
                assert(value_views(changes@) =~= value_views(before).push((value.path, goal)));
            }
            i += 1;
        }
        assert(views.take(views.len() as int) =~= views);
        if changes.len() > 0 {
            CommitFix::Rewrite(changes)
        } else if parents_changed {
            CommitFix::Reparent
        } else {
            CommitFix::Keep
        }
    }
}

fn contains_path(paths: &Vec<u64>, path: u64) -> (found: bool)
    ensures
        found == paths@.contains(path),
{
    let mut i: usize = 0;
    while i < paths.len()
        invariant
            i <= paths@.len(),
            forall|k: int| 0 <= k < i ==> paths@[k] != path,
        decreases paths@.len() - i,
    {
        if paths[i] == path {
            assert(paths@[i as int] == path);
            return true;
        }
        i += 1;
    }
    false
}

/// The values of a list as pairs of a path and the terms at it.
pub open spec fn value_views(values: Seq<PathValue>) -> Seq<(u64, Seq<Option<TreeValue>>)> {
    values.map_values(|value: PathValue| (value.path, value.terms@))
}

/// Aggregate information about the outcome of the file fixer.
#[derive(Debug)]
pub struct FixSummary {
    /// The commits that were rewritten. Maps old commit id to new commit id.
    pub rewrites: HashMap<u64, u64>,
    /// The number of commits whose files were looked at, whether or not any of
    /// them were passed to the file fixer.
    pub num_checked_commits: i32,
    /// The number of new commits created due to file content changed by the
    /// fixer.
    pub num_fixed_commits: i32,
}

impl Default for FixSummary {
    fn default() -> (summary: Self)
        ensures
            summary.rewrites@ == Map::<u64, u64>::empty(),
            summary.num_checked_commits == 0,
            summary.num_fixed_commits == 0,
    {
        FixSummary { rewrites: HashMap::new(), num_checked_commits: 0, num_fixed_commits: 0 }
    }
}

impl FixSummary {
    /// Notes how a commit was rewritten. `new_commit_id` is the commit that was
    /// written for it, if it was not kept.
    pub fn record(&mut self, old_commit_id: u64, fix: &CommitFix, new_commit_id: u64)
        requires
            old(self).num_checked_commits < i32::MAX,
            old(self).num_fixed_commits < i32::MAX,
        ensures
            final(self).num_checked_commits == old(self).num_checked_commits + 1,
            final(self).num_fixed_commits == old(self).num_fixed_commits + (if *fix is Rewrite {
                1int
            } else {
                0int
            }),
            final(self).rewrites@ == (if *fix is Keep {
                old(self).rewrites@
            } else {
                old(self).rewrites@.insert(old_commit_id, new_commit_id)
            }),
    {
        self.num_checked_commits = self.num_checked_commits + 1;
        match fix {
            CommitFix::Rewrite(_) => {
                self.num_fixed_commits = self.num_fixed_commits + 1;
                self.rewrites.insert(old_commit_id, new_commit_id);
            },
            CommitFix::Reparent => {
                self.rewrites.insert(old_commit_id, new_commit_id);
            },
            CommitFix::Keep => {},
        }
    }
}

/// Whether a file is one side of the value of an entry, to be compared with the
/// content that the first side of the base has, if that is a file.
pub open spec fn is_side(
    entry: TreeDiffEntry,
    include_unchanged_files: bool,
    file: FileToFix,
    t: int,
) -> bool {
    let base = if include_unchanged_files {
        entry.base@
    } else {
        entry.before@
    };
    &&& file.repo_path == entry.path
    &&& (entry.after@[t] matches Some(TreeValue::File { id, .. }) && id == file.file_id)
    &&& match file.base_file_id {
        Some(content) => base.len() > 0 && (base[0] matches Some(TreeValue::File { id, .. }) && id
            == content),
        None => base.len() == 0 || !(base[0] matches Some(TreeValue::File { .. })),
    }
}

proof fn lemma_term_files(
    path: u64,
    base: Option<u64>,
    terms: Seq<Option<TreeValue>>,
    file: FileToFix,
)
    ensures
        term_files(path, base, terms).contains(file) <==> file.repo_path == path
            && file.base_file_id == base && exists|t: int|
            0 <= t < terms.len() && (#[trigger] terms[t] matches Some(TreeValue::File { id, .. })
                && id == file.file_id),
    decreases terms.len(),
{
    if terms.len() > 0 {
        let front = terms.drop_last();
        let last = terms.len() - 1;
        lemma_term_files(path, base, front, file);
        assert forall|t: int| 0 <= t < front.len() implies #[trigger] front[t] == terms[t] by {}
        if let Some(id) = term_file_id(terms.last()) {
            lemma_push_contains(
                term_files(path, base, front),
                FileToFix { file_id: id, base_file_id: base, repo_path: path },
                file,
            );
        }
        if exists|t: int|
            0 <= t < front.len() && (#[trigger] front[t] matches Some(TreeValue::File { id, .. })
                && id == file.file_id) {
            let t = choose|t: int|
                0 <= t < front.len() && (#[trigger] front[t] matches Some(
                    TreeValue::File { id, .. },
                ) && id == file.file_id);
            assert(terms[t] == front[t]);
        }
        if exists|t: int|
            0 <= t < terms.len() && (#[trigger] terms[t] matches Some(TreeValue::File { id, .. })
                && id == file.file_id) {
            let t = choose|t: int|
                0 <= t < terms.len() && (#[trigger] terms[t] matches Some(
                    TreeValue::File { id, .. },
                ) && id == file.file_id);
            if t < last {
                assert(front[t] == terms[t]);
            }
        }
        assert(terms[last] == terms.last());
    }
}

/// The files to fix of entries are all sides of their values that are files,
/// each with the content of the base at the same path.
pub proof fn lemma_entries_files(
    entries: Seq<TreeDiffEntry>,
    include_unchanged_files: bool,
    file: FileToFix,
)
    ensures
        entries_files(entries, include_unchanged_files).contains(file) <==> exists|e: int, t: int|
            0 <= e < entries.len() && 0 <= t < entries[e].after@.len() && #[trigger] is_side(
                entries[e],
                include_unchanged_files,
                file,
                t,
            ),
    decreases entries.len(),
{
    if entries.len() > 0 {
        let front = entries.drop_last();
        let last = entries.len() - 1;
        let entry = entries.last();
        lemma_entries_files(front, include_unchanged_files, file);
        lemma_concat_contains(
            entries_files(front, include_unchanged_files),
            entry_files(entry, include_unchanged_files),
            file,
        );
        lemma_term_files(
            entry.path,
            entry_base(entry, include_unchanged_files),
            entry.after@,
            file,
        );
        assert(entries[last] == entry);
        if entries_files(front, include_unchanged_files).contains(file) {
            let (e, t) = choose|e: int, t: int|
                0 <= e < front.len() && 0 <= t < front[e].after@.len() && #[trigger] is_side(
                    front[e],
                    include_unchanged_files,
                    file,
                    t,
                );
            assert(is_side(entries[e], include_unchanged_files, file, t));
        }
        if entry_files(entry, include_unchanged_files).contains(file) {
            let t = choose|t: int|
                0 <= t < entry.after@.len() && (#[trigger] entry.after@[t] matches Some(
                    TreeValue::File { id, .. },
                ) && id == file.file_id);
            assert(is_side(entries[last], include_unchanged_files, file, t));
        }
        if exists|e: int, t: int|
            0 <= e < entries.len() && 0 <= t < entries[e].after@.len() && #[trigger] is_side(
                entries[e],
                include_unchanged_files,
                file,
                t,
            ) {
            let (e, t) = choose|e: int, t: int|
                0 <= e < entries.len() && 0 <= t < entries[e].after@.len() && #[trigger] is_side(
                    entries[e],
                    include_unchanged_files,
                    file,
                    t,
                );
            if e < last {
                assert(is_side(front[e], include_unchanged_files, file, t));
            } else {
                assert(!is_absent(entry.after@)) by {
                    assert(entry.after@[t] is Some);
                }
                assert(entry.after@[t] matches Some(TreeValue::File { id, .. }) && id
                    == file.file_id);
            }
        }
    }
}

/// A path may be fixed in a commit if, and only if, the commit has a file to fix
/// there.
pub proof fn lemma_paths_of(files: Seq<FileToFix>, path: u64)
    ensures
        paths_of(files).contains(path) <==> exists|i: int|
            0 <= i < files.len() && (#[trigger] files[i]).repo_path == path,
        paths_of(files).no_duplicates(),
{
    let paths = files.map_values(|file: FileToFix| file.repo_path);
    lemma_dedup(paths);
    assert(dedup(paths).contains(path) <==> paths.contains(path));
    if paths.contains(path) {
        let i = choose|i: int| 0 <= i < paths.len() && paths[i] == path;
        assert(files[i].repo_path == path);
    }
    if exists|i: int| 0 <= i < files.len() && (#[trigger] files[i]).repo_path == path {
        let i = choose|i: int| 0 <= i < files.len() && (#[trigger] files[i]).repo_path == path;
        assert(paths[i] == path);
    }
}

/// The files that a fixer changed are those with new content, and no others.
pub proof fn lemma_changed_files(
    results: Seq<(FileToFix, Result<Option<u64>, FixError>)>,
    file: FileToFix,
    id: u64,
)
    ensures
        changed_files(results).contains((file, id)) <==> exists|i: int|
            0 <= i < results.len() && (#[trigger] results[i]).0 == file && results[i].1 == Ok::<
                Option<u64>,
                FixError,
            >(Some(id)),
    decreases results.len(),
{
    if results.len() > 0 {
        let front = results.drop_last();
        let last = results.len() - 1;
        lemma_changed_files(front, file, id);
        assert(results[last] == results.last());
        match results.last().1 {
            Ok(Some(new_id)) => {
                lemma_push_contains(
                    changed_files(front),
                    (results.last().0, new_id),
                    (file, id),
                );
            },
            _ => {},
        }
        if changed_files(front).contains((file, id)) {
            let i = choose|i: int|
                0 <= i < front.len() && (#[trigger] front[i]).0 == file && front[i].1 == Ok::<
                    Option<u64>,
                    FixError,
                >(Some(id));
            assert(results[i] == front[i]);
        }
        if exists|i: int|
            0 <= i < results.len() && (#[trigger] results[i]).0 == file && results[i].1 == Ok::<
                Option<u64>,
                FixError,
            >(Some(id)) {
            let i = choose|i: int|
                0 <= i < results.len() && (#[trigger] results[i]).0 == file && results[i].1 == Ok::<
                    Option<u64>,
                    FixError,
                >(Some(id));
            if i < last {
                assert(front[i] == results[i]);
            }
        }
    }
}

/// The new content of a file is the last one that was given for it.
pub proof fn lemma_new_content(changed: Seq<(FileToFix, u64)>, file: FileToFix, i: int)
    requires
        0 <= i < changed.len(),
        changed[i].0 == file,
        forall|j: int| i < j < changed.len() ==> (#[trigger] changed[j]).0 != file,
    ensures
        new_content(changed, file) == Some(changed[i].1),
    decreases changed.len(),
{
    if i < changed.len() - 1 {
        let front = changed.drop_last();
        assert(changed[changed.len() - 1].0 != file);
        assert(front[i] == changed[i]);
        assert forall|j: int| i < j < front.len() implies (#[trigger] front[j]).0 != file by {
            assert(front[j] == changed[j]);
        }
        lemma_new_content(front, file, i);
    }
}

/// A file for which none was given has no new content.
pub proof fn lemma_no_new_content(changed: Seq<(FileToFix, u64)>, file: FileToFix)
    requires
        forall|j: int| 0 <= j < changed.len() ==> (#[trigger] changed[j]).0 != file,
    ensures
        new_content(changed, file) is None,
    decreases changed.len(),
{
    if changed.len() > 0 {
        let front = changed.drop_last();
        assert(changed[changed.len() - 1].0 != file);
        assert forall|j: int| 0 <= j < front.len() implies (#[trigger] front[j]).0 != file by {
            assert(front[j] == changed[j]);
        }
        lemma_no_new_content(front, file);
    }
}

/// Whether each path occurs once among entries.
pub open spec fn has_unique_paths(entries: Seq<TreeDiffEntry>) -> bool {
    forall|i: int, j: int|
        0 <= i < j < entries.len() ==> (#[trigger] entries[i]).path != (
        #[trigger] entries[j]).path
}

/// What is noted of entries for a commit at a path is what their base has there.
proof fn lemma_entries_base_file(
    commit_id: u64,
    entries: Seq<TreeDiffEntry>,
    include_unchanged_files: bool,
    e: int,
)
    requires
        has_unique_paths(entries),
        0 <= e < entries.len(),
        !is_absent(entries[e].after@),
    ensures
        base_file_of(
            entries_base_files(commit_id, entries, include_unchanged_files),
            commit_id,
            entries[e].path,
        ) == entry_base(entries[e], include_unchanged_files),
    decreases entries.len(),
{
    let front = entries.drop_last();
    let last = entries.last();
    let noted = entries_base_files(commit_id, front, include_unchanged_files);
    if e < entries.len() - 1 {
        assert(front[e] == entries[e]);
        assert(entries[e].path != entries[entries.len() - 1].path);
        lemma_entries_base_file(commit_id, front, include_unchanged_files, e);
        match entry_base(last, include_unchanged_files) {
            Some(file_id) => {
                let own = BaseFile { commit_id, path: last.path, file_id };
                assert(noted.push(own).drop_last() =~= noted);
            },
            None => {},
        }
    } else {
        match entry_base(last, include_unchanged_files) {
            Some(file_id) => {},
            None => {
                lemma_no_base_file(commit_id, front, include_unchanged_files, last.path);
            },
        }
    }
}

proof fn lemma_no_base_file(
    commit_id: u64,
    entries: Seq<TreeDiffEntry>,
    include_unchanged_files: bool,
    path: u64,
)
    requires
        forall|i: int| 0 <= i < entries.len() ==> (#[trigger] entries[i]).path != path,
    ensures
        base_file_of(
            entries_base_files(commit_id, entries, include_unchanged_files),
            commit_id,
            path,
        ) is None,
    decreases entries.len(),
{
    if entries.len() > 0 {
        let front = entries.drop_last();
        let last = entries.last();
        let noted = entries_base_files(commit_id, front, include_unchanged_files);
        assert(entries[entries.len() - 1].path != path);
        lemma_no_base_file(commit_id, front, include_unchanged_files, path);
        match entry_base(last, include_unchanged_files) {
            Some(file_id) => {
                let own = BaseFile { commit_id, path: last.path, file_id };
                assert(noted.push(own).drop_last() =~= noted);
            },
            None => {},
        }
    }
}

/// What was noted first is looked at only if nothing noted later counts.
proof fn lemma_base_file_concat(a: Seq<BaseFile>, b: Seq<BaseFile>, commit_id: u64, path: u64)
    ensures
        base_file_of(a + b, commit_id, path) == (match base_file_of(b, commit_id, path) {
            Some(id) => Some(id),
            None => base_file_of(a, commit_id, path),
        }),
    decreases b.len(),
{
    if b.len() == 0 {
        assert(a + b =~= a);
    } else {
        assert((a + b).last() == b.last());
        assert((a + b).drop_last() =~= a + b.drop_last());
        lemma_base_file_concat(a, b.drop_last(), commit_id, path);
    }
}

proof fn lemma_other_commit(
    commit_id: u64,
    other: u64,
    entries: Seq<TreeDiffEntry>,
    include_unchanged_files: bool,
    path: u64,
)
    requires
        commit_id != other,
    ensures
        base_file_of(
            entries_base_files(other, entries, include_unchanged_files),
            commit_id,
            path,
        ) is None,
    decreases entries.len(),
{
    if entries.len() > 0 {
        let front = entries.drop_last();
        let last = entries.last();
        let noted = entries_base_files(other, front, include_unchanged_files);
        lemma_other_commit(commit_id, other, front, include_unchanged_files, path);
        match entry_base(last, include_unchanged_files) {
            Some(file_id) => {
                let own = BaseFile { commit_id: other, path: last.path, file_id };
                assert(noted.push(own).drop_last() =~= noted);
            },
            None => {},
        }
    }
}

/// What is noted for a commit at a path, among all commits, is what the base of
/// its own entry has there.
pub proof fn lemma_base_file(
    commits: Seq<CommitToFix>,
    include_unchanged_files: bool,
    c: int,
    e: int,
)
    requires
        forall|i: int, j: int|
            0 <= i < j < commits.len() ==> (#[trigger] commits[i]).id != (
            #[trigger] commits[j]).id,
        0 <= c < commits.len(),
        has_unique_paths(commits[c].entries@),
        0 <= e < commits[c].entries@.len(),
        !is_absent(commits[c].entries@[e].after@),
    ensures
        base_file_of(
            all_base_files(commits, include_unchanged_files),
            commits[c].id,
            commits[c].entries@[e].path,
        ) == entry_base(commits[c].entries@[e], include_unchanged_files),
    decreases commits.len(),
{
    let rest = commits.drop_first();
    let path = commits[c].entries@[e].path;
    let id = commits[c].id;
    let early = all_base_files(rest, include_unchanged_files);
    let own = entries_base_files(
        commits[0].id,
        commits[0].entries@,
        include_unchanged_files,
    );
    lemma_base_file_concat(early, own, id, path);
    if c == 0 {
        lemma_entries_base_file(id, commits[0].entries@, include_unchanged_files, e);
        assert forall|i: int| 0 <= i < rest.len() implies (#[trigger] rest[i]).id != id by {
            assert(rest[i] == commits[i + 1]);
            assert(commits[0].id != commits[i + 1].id);
        }
        lemma_no_commit(rest, include_unchanged_files, id, path);
    } else {
        assert(commits[0].id != commits[c].id);
        lemma_other_commit(
            id,
            commits[0].id,
            commits[0].entries@,
            include_unchanged_files,
            path,
        );
        assert(rest[c - 1] == commits[c]);
        assert forall|i: int, j: int| 0 <= i < j < rest.len() implies (
        #[trigger] rest[i]).id != (#[trigger] rest[j]).id by {
            assert(rest[i] == commits[i + 1] && rest[j] == commits[j + 1]);
        }
        lemma_base_file(rest, include_unchanged_files, c - 1, e);
    }
}

proof fn lemma_no_commit(
    commits: Seq<CommitToFix>,
    include_unchanged_files: bool,
    id: u64,
    path: u64,
)
    requires
        forall|i: int| 0 <= i < commits.len() ==> (#[trigger] commits[i]).id != id,
    ensures
        base_file_of(all_base_files(commits, include_unchanged_files), id, path) is None,
    decreases commits.len(),
{
    if commits.len() > 0 {
        let rest = commits.drop_first();
        let own = entries_base_files(
            commits[0].id,
            commits[0].entries@,
            include_unchanged_files,
        );
        assert forall|i: int| 0 <= i < rest.len() implies (#[trigger] rest[i]).id != id by {
            assert(rest[i] == commits[i + 1]);
        }
        lemma_no_commit(rest, include_unchanged_files, id, path);
        lemma_other_commit(
            id,
            commits[0].id,
            commits[0].entries@,
            include_unchanged_files,
            path,
        );
        lemma_base_file_concat(
            all_base_files(rest, include_unchanged_files),
            own,
            id,
            path,
        );
    }
}

/// What the fixer gave for a file of a commit is what the commit gets there: for
/// each side that is a file, the side was handed to the fixer, and it gets the
/// new content if the fixer gave any, and stays as it is if not.
pub proof fn lemma_fixed_file(
    fixed: FixedFiles,
    commits: Seq<CommitToFix>,
    include_unchanged_files: bool,
    c: int,
    e: int,
    t: int,
    file: FileToFix,
)
    requires
        forall|i: int, j: int|
            0 <= i < j < commits.len() ==> (#[trigger] commits[i]).id != (
            #[trigger] commits[j]).id,
        fixed.plan.files@ == dedup(all_files(commits, include_unchanged_files)),
        fixed.plan.base_files@ == all_base_files(commits, include_unchanged_files),
        0 <= c < commits.len(),
        has_unique_paths(commits[c].entries@),
        0 <= e < commits[c].entries@.len(),
        0 <= t < commits[c].entries@[e].after@.len(),
        is_side(commits[c].entries@[e], include_unchanged_files, file, t),
    ensures
        fixed.plan.files@.contains(file),
        forall|i: int|
            #![trigger fixed.changed@[i]]
            0 <= i < fixed.changed@.len() && fixed.changed@[i].0 == file && (forall|j: int|
                i < j < fixed.changed@.len() ==> (#[trigger] fixed.changed@[j]).0 != file)
                ==> fixed.fixed_term(
                commits[c].id,
                commits[c].entries@[e].path,
                commits[c].entries@[e].after@[t],
            ) == (match commits[c].entries@[e].after@[t] {
                Some(TreeValue::File { id: _, executable, copy_id }) => Some(
                    TreeValue::File { id: fixed.changed@[i].1, executable, copy_id },
                ),
                other => other,
            }),
        (forall|i: int|
            0 <= i < fixed.changed@.len() ==> (#[trigger] fixed.changed@[i]).0 != file)
            ==> fixed.fixed_term(
            commits[c].id,
            commits[c].entries@[e].path,
            commits[c].entries@[e].after@[t],
        ) == commits[c].entries@[e].after@[t],
{
    let entry = commits[c].entries@[e];
    assert(!is_absent(entry.after@)) by {
        assert(entry.after@[t] is Some);
    }
    lemma_base_file(commits, include_unchanged_files, c, e);
    assert(entry_base(entry, include_unchanged_files) == file.base_file_id);
    assert forall|i: int|
        #![trigger fixed.changed@[i]]
        0 <= i < fixed.changed@.len() && fixed.changed@[i].0 == file && (forall|j: int|
            i < j < fixed.changed@.len() ==> (#[trigger] fixed.changed@[j]).0 != file) implies (
    new_content(fixed.changed@, file) == Some(fixed.changed@[i].1)) by {
        lemma_new_content(fixed.changed@, file, i);
    }
    if forall|i: int| 0 <= i < fixed.changed@.len() ==> (#[trigger] fixed.changed@[i]).0 != file {
        lemma_no_new_content(fixed.changed@, file);
    }
    lemma_entries_files(commits[c].entries@, include_unchanged_files, file);
    assert(is_side(commits[c].entries@[e], include_unchanged_files, file, t));
    assert(entries_files(commits[c].entries@, include_unchanged_files).contains(file));
    lemma_each_file_once(commits, include_unchanged_files);
}

/// A commit is changed at a path if, and only if, the path may be fixed there and
/// some side of the value at it changes.
pub proof fn lemma_changes(
    fixed: FixedFiles,
    commit_id: u64,
    values: Seq<(u64, Seq<Option<TreeValue>>)>,
    path: u64,
    terms: Seq<Option<TreeValue>>,
)
    ensures
        fixed.changes(commit_id, values).contains((path, terms)) <==> exists|i: int|
            {
                &&& 0 <= i < values.len()
                &&& (#[trigger] values[i]).0 == path
                &&& fixed.plan.commit_paths@[commit_id]@.contains(path)
                &&& terms != values[i].1
                &&& terms.len() == values[i].1.len()
                &&& forall|t: int|
                    0 <= t < terms.len() ==> #[trigger] terms[t] == fixed.fixed_term(
                        commit_id,
                        path,
                        values[i].1[t],
                    )
            },
    decreases values.len(),
{
    if values.len() > 0 {
        let front = values.drop_last();
        let last = values.len() - 1;
        let (own_path, own) = values.last();
        let new = fixed.fixed_terms(commit_id, own_path, own);
        lemma_changes(fixed, commit_id, front, path, terms);
        lemma_push_contains(fixed.changes(commit_id, front), (own_path, new), (path, terms));
        assert(values[last] == values.last());
        if fixed.changes(commit_id, front).contains((path, terms)) {
            let i = choose|i: int|
                {
                    &&& 0 <= i < front.len()
                    &&& (#[trigger] front[i]).0 == path
                    &&& fixed.plan.commit_paths@[commit_id]@.contains(path)
                    &&& terms != front[i].1
                    &&& terms.len() == front[i].1.len()
                    &&& forall|t: int|
                        0 <= t < terms.len() ==> #[trigger] terms[t] == fixed.fixed_term(
                            commit_id,
                            path,
                            front[i].1[t],
                        )
                };
            assert(values[i] == front[i]);
        }
        if exists|i: int|
            {
                &&& 0 <= i < values.len()
                &&& (#[trigger] values[i]).0 == path
                &&& fixed.plan.commit_paths@[commit_id]@.contains(path)
                &&& terms != values[i].1
                &&& terms.len() == values[i].1.len()
                &&& forall|t: int|
                    0 <= t < terms.len() ==> #[trigger] terms[t] == fixed.fixed_term(
                        commit_id,
                        path,
                        values[i].1[t],
                    )
            } {
            let i = choose|i: int|
                {
                    &&& 0 <= i < values.len()
                    &&& (#[trigger] values[i]).0 == path
                    &&& fixed.plan.commit_paths@[commit_id]@.contains(path)
                    &&& terms != values[i].1
                    &&& terms.len() == values[i].1.len()
                    &&& forall|t: int|
                        0 <= t < terms.len() ==> #[trigger] terms[t] == fixed.fixed_term(
                            commit_id,
                            path,
                            values[i].1[t],
                        )
                };
            if i < last {
                assert(front[i] == values[i]);
            } else {
                assert(terms =~= new);
            }
        }
    }
}

/// The base commits of a commit come in the order of its parents: without a
/// parent in the list, they are its parents.
pub proof fn lemma_bases_in_order(commits: Seq<Commit>, i: int, a: Seq<u64>, b: Seq<u64>)
    ensures
        bases_of_parents(commits, i, a + b) == bases_of_parents(commits, i, a) + bases_of_parents(
            commits,
            i,
            b,
        ),
        (forall|k: int| 0 <= k < b.len() ==> !commit_ids(commits).contains(#[trigger] b[k]))
            ==> bases_of_parents(commits, i, b) == b,
    decreases b.len(),
{
    if b.len() == 0 {
        assert(a + b =~= a);
        assert(bases_of_parents(commits, i, a) + bases_of_parents(commits, i, b)
            =~= bases_of_parents(commits, i, a));
        assert(bases_of_parents(commits, i, b) =~= b);
    } else {
        let front = b.drop_last();
        assert((a + b).drop_last() =~= a + front);
        assert((a + b).last() == b.last());
        lemma_bases_in_order(commits, i, a, front);
        assert(bases_of_parents(commits, i, a + b) =~= bases_of_parents(commits, i, a)
            + bases_of_parents(commits, i, b));
        if forall|k: int| 0 <= k < b.len() ==> !commit_ids(commits).contains(#[trigger] b[k]) {
            assert forall|k: int| 0 <= k < front.len() implies !commit_ids(commits).contains(
                #[trigger] front[k],
            ) by {
                assert(front[k] == b[k]);
            }
            assert(!commit_ids(commits).contains(b[b.len() - 1]));
            assert(bases_of_parents(commits, i, b) =~= b);
        }
    }
}

/// A commit whose only parent is in the list has the base commits of the parent.
pub proof fn lemma_bases_of_parent(commits: Seq<Commit>, i: int, j: int)
    requires
        children_first(commits),
        0 <= i < j < commits.len(),
        commits[i].parent_ids@ == seq![commits[j].id],
    ensures
        bases_of(commits, i) == dedup(bases_of(commits, j)),
{
    let ids = commit_ids(commits);
    let parents = commits[i].parent_ids@;
    let parent = commits[j].id;
    assert(ids[j] == parent);
    assert(ids.contains(parent));
    assert(ids.index_of(parent) == j);
    let none = Seq::<u64>::empty();
    assert(parents.drop_last() =~= none);
    assert(parents.last() == parent);
    assert(bases_of_parents(commits, i, none) =~= none);
    assert(bases_of_parents(commits, i, parents) =~= bases_of(commits, j));
}

} // verus!
