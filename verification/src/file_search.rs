//! Searching for content in files.
//!
//! Files are read, and lines are matched, elsewhere: here is which lines there
//! are to match, and what is printed of those that do.

use vstd::prelude::*;
use vstd::slice::slice_subrange;
use vstd::slice::slice_to_vec;
use vstd::utf8::encode_utf8;

use crate::decimal::decimal;
use crate::decimal::decimal_text;
use crate::text::chars_of;
use crate::text::string_of;

verus! {

/// The byte that ends a line.
pub const LINE_END: u8 = 10;

/// The pattern for searching, and the kind of it.
#[derive(Debug, PartialEq, Eq)]
pub struct PatternArg {
    /// The kind of the pattern.
    pub kind: String,
    /// The pattern.
    pub pattern: String,
}

/// Where the first colon is, or where the text ends.
pub open spec fn first_colon(text: Seq<char>) -> nat
    decreases text.len(),
{
    if text.len() == 0 || text[0] == ':' {
        0
    } else {
        1 + first_colon(text.skip(1))
    }
}

/// Parses a pattern like `kind:pattern`. The kind defaults to regex when
/// omitted.
pub fn parse_pattern_arg(text: &str) -> (arg: PatternArg)
    ensures
        if first_colon(text@) < text@.len() {
            arg.kind@ == text@.take(first_colon(text@) as int) && arg.pattern@ == text@.skip(
                first_colon(text@) as int + 1,
            )
        } else {
            arg.kind@ == "regex"@ && arg.pattern@ == text@
        },
{
    let chars: Vec<char> = chars_of(text);
    let mut i: usize = 0;
    assert(chars@.skip(0) =~= text@);
    while i < chars.len() && chars[i] != ':'
        invariant
            i <= chars@.len(),
            chars@ == text@,
            first_colon(text@) == i + first_colon(chars@.skip(i as int)),
        decreases chars@.len() - i,
    {
        assert(chars@.skip(i as int).skip(1) =~= chars@.skip(i + 1));
        i += 1;
    }
    assert(first_colon(text@) == i);
    if i < chars.len() {
        let kind: String = string_of(slice_subrange(chars.as_slice(), 0, i));
        let pattern: String = string_of(slice_subrange(chars.as_slice(), i + 1, chars.len()));
        assert(kind@ =~= text@.take(i as int));
        assert(pattern@ =~= text@.skip(i + 1));
        PatternArg { kind, pattern }
    } else {
        PatternArg { kind: "regex".to_owned(), pattern: text.to_owned() }
    }
}

/// The lines of a content, each with its line end. Only the last line may have
/// none.
pub open spec fn lines_of(content: Seq<u8>) -> Seq<Seq<u8>>
    decreases content.len(),
{
    if content.len() == 0 {
        Seq::empty()
    } else {
        let front = lines_of(content.drop_last());
        if content.len() == 1 || content[content.len() - 2] == LINE_END {
            front.push(seq![content.last()])
        } else {
            front.drop_last().push(front.last().push(content.last()))
        }
    }
}

/// The line without its line end.
pub open spec fn stripped(line: Seq<u8>) -> Seq<u8> {
    if line.len() > 0 && line.last() == LINE_END {
        line.drop_last()
    } else {
        line
    }
}

/// What can be seen of lines.
pub open spec fn lines_view(lines: Seq<Vec<u8>>) -> Seq<Seq<u8>> {
    lines.map_values(|line: Vec<u8>| line@)
}

/// Lines one after the other.
pub open spec fn joined(lines: Seq<Seq<u8>>) -> Seq<u8>
    decreases lines.len(),
{
    if lines.len() == 0 {
        Seq::empty()
    } else {
        joined(lines.drop_last()) + lines.last()
    }
}

proof fn lemma_lines_nonempty(content: Seq<u8>)
    ensures
        content.len() > 0 ==> lines_of(content).len() > 0,
    decreases content.len(),
{
}

/// The lines of a content make up the content, and none is empty.
pub proof fn lemma_lines_joined(content: Seq<u8>)
    ensures
        joined(lines_of(content)) == content,
        forall|i: int|
            0 <= i < lines_of(content).len() ==> (#[trigger] lines_of(content)[i]).len() > 0,
    decreases content.len(),
{
    let lines = lines_of(content);
    if content.len() > 0 {
        let rest = content.drop_last();
        let front = lines_of(rest);
        let last = content.last();
        lemma_lines_joined(rest);
        assert(content =~= rest.push(last));
        if content.len() == 1 || content[content.len() - 2] == LINE_END {
            assert(lines.drop_last() =~= front);
            assert(joined(lines) =~= content);
        } else {
            lemma_lines_nonempty(rest);
            assert(lines.drop_last() =~= front.drop_last());
            assert(joined(lines) =~= joined(front).push(last));
            assert forall|i: int| 0 <= i < lines.len() implies (#[trigger] lines[i]).len() > 0 by {
                if i < lines.len() - 1 {
                    assert(lines[i] == front[i]);
                }
            }
        }
    }
}

/// The lines of two contents are those of both one after the other, if the
/// first content is empty or ends with a line end.
pub proof fn lemma_lines_concat(a: Seq<u8>, b: Seq<u8>)
    requires
        a.len() == 0 || a.last() == LINE_END,
    ensures
        lines_of(a + b) == lines_of(a) + lines_of(b),
    decreases b.len(),
{
    if b.len() == 0 {
        assert(a + b =~= a);
        assert(lines_of(a) + lines_of(b) =~= lines_of(a));
    } else {
        let rest = b.drop_last();
        let all = a + b;
        let x = b.last();
        lemma_lines_concat(a, rest);
        assert(all.drop_last() =~= a + rest);
        assert(all.last() == x);
        let before = lines_of(a);
        let front = lines_of(rest);
        if b.len() == 1 {
            assert(front =~= Seq::<Seq<u8>>::empty());
            assert(all.len() == 1 || all[all.len() - 2] == LINE_END);
            assert(lines_of(all) =~= before + lines_of(b));
        } else {
            assert(all[all.len() - 2] == b[b.len() - 2]);
            if b[b.len() - 2] == LINE_END {
                assert(lines_of(all) =~= before + lines_of(b));
            } else {
                lemma_lines_nonempty(rest);
                assert((before + front).last() == front.last());
                assert((before + front).drop_last() =~= before + front.drop_last());
                assert(lines_of(all) =~= before + lines_of(b));
            }
        }
    }
}

/// Splits a content into lines.
pub fn split_lines(content: &[u8]) -> (lines: Vec<Vec<u8>>)
    ensures
        lines_view(lines@) == lines_of(content@),
{
    let mut lines: Vec<Vec<u8>> = Vec::new();
    let mut line: Vec<u8> = Vec::new();
    let mut i: usize = 0;
    assert(lines_view(lines@) =~= lines_of(content@.take(0)));
    while i < content.len()
        invariant
            i <= content@.len(),
            line@.len() == 0 ==> lines_view(lines@) == lines_of(content@.take(i as int)) && (i == 0
                || content@[i - 1] == LINE_END),
            line@.len() > 0 ==> lines_view(lines@).push(line@) == lines_of(
                content@.take(i as int),
            ) && i > 0 && content@[i - 1] != LINE_END,
        decreases content@.len() - i,
    {
        let byte: u8 = content[i];
        let ghost now = content@.take(i + 1);
        let ghost before = lines_view(lines@);
        let ghost begun = line@;
        proof {
            assert(now.drop_last() =~= content@.take(i as int));
            assert(now.last() == byte);
            if i > 0 {
                assert(now[now.len() - 2] == content@[i - 1]);
            }
        }
        line.push(byte);
        proof {
            if begun.len() > 0 {
                assert(before.push(begun).drop_last() =~= before);
            } else {
                assert(line@ =~= seq![byte]);
            }
            assert(before.push(line@) =~= lines_of(now));
        }
        if byte == LINE_END {
            lines.push(line);
            assert(lines_view(lines@) =~= lines_of(now));
            line = Vec::new();
        }
        i += 1;
    }
    assert(content@.take(i as int) =~= content@);
    if line.len() > 0 {
        let ghost before = lines_view(lines@);
        let ghost last = line@;
        lines.push(line);
        assert(lines_view(lines@) =~= before.push(last));
    }
    lines
}

/// Returns what is matched of each line of a content.
pub fn search_lines(content: &[u8]) -> (lines: Vec<Vec<u8>>)
    ensures
        lines_view(lines@) == lines_of(content@).map_values(|line: Seq<u8>| stripped(line)),
{
    let all: Vec<Vec<u8>> = split_lines(content);
    let ghost goal = lines_of(content@).map_values(|line: Seq<u8>| stripped(line));
    let mut lines: Vec<Vec<u8>> = Vec::new();
    let mut i: usize = 0;
    assert(lines_view(lines@) =~= goal.take(0));
    while i < all.len()
        invariant
            i <= all@.len(),
            goal == lines_of(content@).map_values(|line: Seq<u8>| stripped(line)),
            lines_view(all@) == lines_of(content@),
            lines_view(lines@) == goal.take(i as int),
        decreases all@.len() - i,
    {
        let line: &Vec<u8> = &all[i];
        let ghost before = lines_view(lines@);
        assert(lines_view(all@)[i as int] == line@);
        let end: usize = if line.len() > 0 && line[line.len() - 1] == LINE_END {
            line.len() - 1
        } else {
            line.len()
        };
        let copy: Vec<u8> = slice_to_vec(slice_subrange(line.as_slice(), 0, end));
        assert(copy@ =~= stripped(line@));
        lines.push(copy);
        i += 1;
        proof {
            assert(lines_view(lines@) =~= before.push(goal[i - 1]));
            assert(goal.take(i as int) =~= goal.take(i - 1).push(goal[i - 1]));
        }
    }
    assert(goal.take(i as int) =~= goal);
    lines
}

/// What is printed of a line that matches: the path, the number of the line if
/// that is asked for, and the line.
pub open spec fn printed_line(path: Seq<char>, number: Option<nat>, line: Seq<u8>) -> Seq<u8> {
    let head = match number {
        Some(number) => path + ":"@ + decimal(number) + ":"@,
        None => path + ":"@,
    };
    encode_utf8(head) + line + (if line.len() > 0 && line.last() == LINE_END {
        Seq::empty()
    } else {
        seq![LINE_END]
    })
}

/// What is printed of the lines that match. Lines are numbered from one.
pub open spec fn printed_lines(
    path: Seq<char>,
    lines: Seq<Seq<u8>>,
    matched: Seq<bool>,
    line_number: bool,
) -> Seq<u8>
    decreases lines.len(),
{
    if lines.len() == 0 {
        Seq::empty()
    } else {
        let front = printed_lines(path, lines.drop_last(), matched, line_number);
        if matched[lines.len() - 1] {
            front + printed_line(
                path,
                if line_number {
                    Some(lines.len())
                } else {
                    None
                },
                lines.last(),
            )
        } else {
            front
        }
    }
}

fn push_bytes(output: &mut Vec<u8>, bytes: &[u8])
    ensures
        final(output)@ == old(output)@ + bytes@,
{
    let mut i: usize = 0;
    assert(output@ =~= old(output)@ + bytes@.take(0));
    while i < bytes.len()
        invariant
            i <= bytes@.len(),
            output@ == old(output)@ + bytes@.take(i as int),
        decreases bytes@.len() - i,
    {
        output.push(bytes[i]);
        i += 1;
        assert(output@ =~= old(output)@ + bytes@.take(i as int));
    }
    assert(bytes@.take(i as int) =~= bytes@);
}

/// Prints the lines of a content that match, given which ones do.
pub fn write_matches(ui_path: &str, content: &[u8], matched: &[bool], line_number: bool) -> (output:
    Vec<u8>)
    requires
        matched@.len() == lines_of(content@).len(),
    ensures
        output@ == printed_lines(ui_path@, lines_of(content@), matched@, line_number),
{
    let lines: Vec<Vec<u8>> = split_lines(content);
    let ghost all = lines_of(content@);
    let mut output: Vec<u8> = Vec::new();
    let mut i: usize = 0;
    assert(lines@.len() == lines_view(lines@).len());
    assert(output@ =~= printed_lines(ui_path@, all.take(0), matched@, line_number));
    while i < lines.len()
        invariant
            i <= lines@.len(),
            all == lines_view(lines@),
            lines@.len() == matched@.len(),
            output@ == printed_lines(ui_path@, all.take(i as int), matched@, line_number),
        decreases lines@.len() - i,
    {
        let line: &Vec<u8> = &lines[i];
        let ghost before = output@;
        proof {
            assert(all[i as int] == line@);
            assert(all.take(i + 1).drop_last() =~= all.take(i as int));
            assert(all.take(i + 1).last() == line@);
        }
        if matched[i] {
            let mut head: String = ui_path.to_owned();
            head.append(":");
            if line_number {
                let number: String = decimal_text(i + 1);
                head.append(number.as_str());
                head.append(":");
            }
            push_bytes(&mut output, head.as_str().as_bytes());
            push_bytes(&mut output, line.as_slice());
            let ghost shown = output@;
            let ended: bool = line.len() > 0 && line[line.len() - 1] == LINE_END;
            if !ended {
                output.push(LINE_END);
                assert(output@ =~= shown + seq![LINE_END]);
            } else {
                assert(output@ =~= shown + Seq::<u8>::empty());
            }
            assert(output@ =~= before + printed_line(
                ui_path@,
                if line_number {
                    Some((i + 1) as nat)
                } else {
                    None
                },
                line@,
            ));
        }
        i += 1;
    }
    assert(all.take(i as int) =~= all);
    output
}

/// What is at a path.
#[derive(Debug)]
pub enum SearchedValue {
    /// A file that may not be read, and why.
    AccessDenied(String),
    /// A file.
    File(Vec<u8>),
    /// A file with conflicts, by its sides.
    FileConflict(Vec<Vec<u8>>),
    /// A symlink, a submodule or a conflict between other things than files.
    Other,
}

/// What is printed for a path.
#[derive(Debug, PartialEq, Eq)]
pub struct SearchOutput {
    /// What is printed.
    pub output: Vec<u8>,
    /// What the user is warned of.
    pub warning: Option<String>,
}

/// What can be seen of contents.
pub open spec fn contents_of(value: SearchedValue) -> Seq<Seq<u8>> {
    match value {
        SearchedValue::File(content) => seq![content@],
        SearchedValue::FileConflict(sides) => lines_view(sides@),
        _ => Seq::empty(),
    }
}

/// Whether some line matches.
pub open spec fn any_matched(matched: Seq<Vec<bool>>) -> bool {
    exists|i: int, k: int|
        0 <= i < matched.len() && 0 <= k < matched[i]@.len() && #[trigger] matched[i]@[k]
}

/// What is printed of contents one after the other. Lines are numbered within
/// each side independently; there is no meaningful unified line numbering
/// across sides.
pub open spec fn printed_contents(
    path: Seq<char>,
    contents: Seq<Seq<u8>>,
    matched: Seq<Vec<bool>>,
    line_number: bool,
) -> Seq<u8>
    decreases contents.len(),
{
    if contents.len() == 0 {
        Seq::empty()
    } else {
        printed_contents(path, contents.drop_last(), matched, line_number) + printed_lines(
            path,
            lines_of(contents.last()),
            matched[contents.len() - 1]@,
            line_number,
        )
    }
}

/// Whether it is known of each line of each content whether it matches.
pub open spec fn is_matched(contents: Seq<Seq<u8>>, matched: Seq<Vec<bool>>) -> bool {
    &&& contents.len() == matched.len()
    &&& forall|i: int|
        0 <= i < contents.len() ==> (#[trigger] matched[i])@.len() == lines_of(contents[i]).len()
}

fn find_match(matched: &Vec<Vec<bool>>) -> (found: bool)
    ensures
        found == any_matched(matched@),
{
    let mut i: usize = 0;
    while i < matched.len()
        invariant
            i <= matched@.len(),
            forall|j: int, k: int|
                0 <= j < i && 0 <= k < matched@[j]@.len() ==> !#[trigger] matched@[j]@[k],
        decreases matched@.len() - i,
    {
        let mut k: usize = 0;
        while k < matched[i].len()
            invariant
                i < matched@.len(),
                k <= matched@[i as int]@.len(),
                forall|m: int| 0 <= m < k ==> !#[trigger] matched@[i as int]@[m],
            decreases matched@[i as int]@.len() - k,
        {
            if matched[i][k] {
                assert(matched@[i as int]@[k as int]);
                return true;
            }
            k += 1;
        }
        i += 1;
    }
    false
}

/// Prints what was found at a path, given which lines of the contents there
/// match.
pub fn search_entry(
    ui_path: &str,
    value: &SearchedValue,
    matched: &Vec<Vec<bool>>,
    name_only: bool,
    line_number: bool,
) -> (result: SearchOutput)
    requires
        is_matched(contents_of(*value), matched@),
    ensures
        match value {
            SearchedValue::AccessDenied(error) => result.output@.len() == 0 && (
            result.warning matches Some(warning) && warning@ == "Skipping '"@ + ui_path@
                + "' due to permission error: "@ + error@),
            _ => result.warning is None && result.output@ == (if name_only {
                if any_matched(matched@) {
                    encode_utf8(ui_path@ + "\n"@)
                } else {
                    Seq::empty()
                }
            } else {
                printed_contents(ui_path@, contents_of(*value), matched@, line_number)
            }),
        },
{
    let mut output: Vec<u8> = Vec::new();
    assert(output@ =~= Seq::<u8>::empty());
    if let SearchedValue::AccessDenied(error) = value {
        let mut warning: String = "Skipping '".to_owned();
        warning.append(ui_path);
        warning.append("' due to permission error: ");
        warning.append(error.as_str());
        return SearchOutput { output, warning: Some(warning) };
    }
    if name_only {
        // Multiple blobs per file; print the path if any blob matches.
        if find_match(matched) {
            let mut line: String = ui_path.to_owned();
            line.append("\n");
            push_bytes(&mut output, line.as_str().as_bytes());
            assert(output@ =~= encode_utf8(ui_path@ + "\n"@));
        }
        return SearchOutput { output, warning: None };
    }
    match value {
        SearchedValue::File(content) => {
            let ghost contents = contents_of(*value);
            assert(contents[0] == content@);
            let printed: Vec<u8> = write_matches(ui_path, content, &matched[0], line_number);
            proof {
                assert(contents.drop_last() =~= Seq::<Seq<u8>>::empty());
                assert(printed_contents(ui_path@, contents.drop_last(), matched@, line_number)
                    =~= Seq::<u8>::empty());
                assert(printed@ =~= printed_contents(ui_path@, contents, matched@, line_number));
            }
            SearchOutput { output: printed, warning: None }
        },
        SearchedValue::FileConflict(sides) => {
            let ghost contents = lines_view(sides@);
            let mut i: usize = 0;
            assert(output@ =~= printed_contents(ui_path@, contents.take(0), matched@, line_number));
            while i < sides.len()
                invariant
                    i <= sides@.len(),
                    contents == lines_view(sides@),
                    is_matched(contents, matched@),
                    output@ == printed_contents(
                        ui_path@,
                        contents.take(i as int),
                        matched@,
                        line_number,
                    ),
                decreases sides@.len() - i,
            {
                assert(contents[i as int] == sides@[i as int]@);
                assert(contents.take(i + 1).drop_last() =~= contents.take(i as int));
                assert(contents.take(i + 1).last() == sides@[i as int]@);
                assert(matched@[i as int]@.len() == lines_of(contents[i as int]).len());
                let printed: Vec<u8> = write_matches(
                    ui_path,
                    &sides[i],
                    &matched[i],
                    line_number,
                );
                push_bytes(&mut output, &printed);
                i += 1;
            }
            assert(contents.take(i as int) =~= contents);
            SearchOutput { output, warning: None }
        },
        _ => {
            assert(output@ =~= printed_contents(
                ui_path@,
                contents_of(*value),
                matched@,
                line_number,
            ));
            SearchOutput { output, warning: None }
        },
    }
}

/// The kind of a pattern ends at the first colon. A pattern without a colon has
/// no kind.
pub proof fn lemma_first_colon(kind: Seq<char>, pattern: Seq<char>)
    requires
        !kind.contains(':'),
    ensures
        first_colon(kind + seq![':'] + pattern) == kind.len(),
        first_colon(kind) == kind.len(),
    decreases kind.len(),
{
    let text = kind + seq![':'] + pattern;
    if kind.len() > 0 {
        let rest = kind.skip(1);
        assert(kind.contains(kind[0]));
        assert(text[0] == kind[0]);
        assert(text.skip(1) =~= rest + seq![':'] + pattern);
        assert(!rest.contains(':')) by {
            if rest.contains(':') {
                let i = choose|i: int| 0 <= i < rest.len() && rest[i] == ':';
                assert(kind[i + 1] == ':');
            }
        }
        lemma_first_colon(rest, pattern);
    } else {
        assert(text[0] == ':');
    }
}

/// A line holds no line end but its own, and only the last line may lack it.
pub proof fn lemma_lines_end(content: Seq<u8>, i: int)
    requires
        0 <= i < lines_of(content).len(),
    ensures
        !stripped(lines_of(content)[i]).contains(LINE_END),
        i < lines_of(content).len() - 1 ==> lines_of(content)[i].last() == LINE_END,
        i == lines_of(content).len() - 1 ==> lines_of(content)[i].last() == content.last(),
    decreases content.len(),
{
    let lines = lines_of(content);
    let rest = content.drop_last();
    let front = lines_of(rest);
    let last = content.last();
    lemma_lines_nonempty(rest);
    lemma_lines_joined(content);
    lemma_lines_joined(rest);
    if content.len() == 1 || content[content.len() - 2] == LINE_END {
        if i < front.len() {
            lemma_lines_end(rest, i);
            assert(lines[i] == front[i]);
            assert(rest.last() == content[content.len() - 2]);
        } else {
            assert(stripped(lines[i]).len() == 0 || stripped(lines[i]) =~= seq![last]);
            if stripped(lines[i]).contains(LINE_END) {
                assert(stripped(lines[i])[0] == LINE_END);
            }
        }
    } else if i < lines.len() - 1 {
        assert(lines[i] == front[i]);
        lemma_lines_end(rest, i);
    } else {
        let piece = front.last();
        lemma_lines_end(rest, front.len() - 1);
        assert(lines[i] == piece.push(last));
        assert(piece.last() == rest.last());
        assert(rest.last() == content[content.len() - 2]);
        assert(stripped(piece) == piece);
        if last == LINE_END {
            assert(stripped(lines[i]) =~= piece);
        } else {
            assert(stripped(lines[i]) == piece.push(last));
            if piece.push(last).contains(LINE_END) {
                let k = choose|k: int|
                    0 <= k < piece.push(last).len() && piece.push(last)[k] == LINE_END;
                assert(piece[k] == LINE_END);
            }
        }
    }
}

/// A line that matches is printed, between what is printed of the lines before
/// it and of those after it: its path, its number counted from one if asked for,
/// and the line, which ends with a line end in any case.
pub proof fn lemma_matched_line_printed(
    path: Seq<char>,
    lines: Seq<Seq<u8>>,
    matched: Seq<bool>,
    line_number: bool,
    k: int,
) -> (after: Seq<u8>)
    requires
        lines.len() == matched.len(),
        0 <= k < lines.len(),
    ensures
        matched[k] ==> printed_lines(path, lines, matched, line_number) == printed_lines(
            path,
            lines.take(k),
            matched,
            line_number,
        ) + encode_utf8(
            if line_number {
                path + ":"@ + decimal((k + 1) as nat) + ":"@
            } else {
                path + ":"@
            },
        ) + stripped(lines[k]) + seq![LINE_END] + after,
        !matched[k] ==> printed_lines(path, lines, matched, line_number) == printed_lines(
            path,
            lines.take(k),
            matched,
            line_number,
        ) + after,
    decreases lines.len(), 1int,
{
    let front = lines.drop_last();
    let last = lines.len() - 1;
    let all = printed_lines(path, lines, matched, line_number);
    let before = printed_lines(path, lines.take(k), matched, line_number);
    let head = encode_utf8(
        if line_number {
            path + ":"@ + decimal((k + 1) as nat) + ":"@
        } else {
            path + ":"@
        },
    );
    let own = head + stripped(lines[k]) + seq![LINE_END];
    if k == last {
        let none = Seq::<u8>::empty();
        assert(lines.take(k) =~= front);
        if matched[k] {
            let printed = printed_line(
                path,
                if line_number {
                    Some(lines.len())
                } else {
                    None
                },
                lines[k],
            );
            assert(printed =~= own);
            assert(all =~= before + head + stripped(lines[k]) + seq![LINE_END] + none);
        } else {
            assert(all =~= before + none);
        }
        none
    } else {
        assert(front.take(k) =~= lines.take(k));
        assert(front[k] == lines[k]);
        let part = lemma_matched_front(path, lines, matched, line_number, k);
        let printed = if matched[last] {
            printed_line(
                path,
                if line_number {
                    Some(lines.len())
                } else {
                    None
                },
                lines.last(),
            )
        } else {
            Seq::empty()
        };
        let front_all = printed_lines(path, front, matched, line_number);
        assert(all =~= front_all + printed);
        let after = part + printed;
        if matched[k] {
            assert(all =~= before + head + stripped(lines[k]) + seq![LINE_END] + after);
        } else {
            assert(all =~= before + after);
        }
        after
    }
}

/// What is printed of all lines but the last one.
proof fn lemma_matched_front(
    path: Seq<char>,
    lines: Seq<Seq<u8>>,
    matched: Seq<bool>,
    line_number: bool,
    k: int,
) -> (after: Seq<u8>)
    requires
        lines.len() == matched.len(),
        0 <= k < lines.len() - 1,
    ensures
        matched[k] ==> printed_lines(path, lines.drop_last(), matched, line_number)
            == printed_lines(path, lines.take(k), matched, line_number) + encode_utf8(
            if line_number {
                path + ":"@ + decimal((k + 1) as nat) + ":"@
            } else {
                path + ":"@
            },
        ) + stripped(lines[k]) + seq![LINE_END] + after,
        !matched[k] ==> printed_lines(path, lines.drop_last(), matched, line_number)
            == printed_lines(path, lines.take(k), matched, line_number) + after,
    decreases lines.len(), 0int,
{
    let front = lines.drop_last();
    let fewer = matched.drop_last();
    lemma_same_matches(path, front, matched, fewer, line_number);
    assert(front.take(k) =~= lines.take(k));
    lemma_same_matches(path, lines.take(k), matched, fewer, line_number);
    assert(front[k] == lines[k]);
    lemma_matched_line_printed(path, front, fewer, line_number, k)
}

/// What is printed depends only on which of the lines match.
proof fn lemma_same_matches(
    path: Seq<char>,
    lines: Seq<Seq<u8>>,
    a: Seq<bool>,
    b: Seq<bool>,
    line_number: bool,
)
    requires
        lines.len() <= a.len(),
        lines.len() <= b.len(),
        forall|i: int| 0 <= i < lines.len() ==> a[i] == b[i],
    ensures
        printed_lines(path, lines, a, line_number) == printed_lines(path, lines, b, line_number),
    decreases lines.len(),
{
    if lines.len() > 0 {
        lemma_same_matches(path, lines.drop_last(), a, b, line_number);
    }
}

/// A line that does not match is not printed, whatever it holds.
pub proof fn lemma_unmatched_line(
    path: Seq<char>,
    lines: Seq<Seq<u8>>,
    matched: Seq<bool>,
    line_number: bool,
    k: int,
    other: Seq<u8>,
)
    requires
        lines.len() == matched.len(),
        0 <= k < lines.len(),
        !matched[k],
    ensures
        printed_lines(path, lines.update(k, other), matched, line_number) == printed_lines(
            path,
            lines,
            matched,
            line_number,
        ),
{
    lemma_unmatched_among(path, lines, matched, line_number, k, other);
}

proof fn lemma_unmatched_among(
    path: Seq<char>,
    lines: Seq<Seq<u8>>,
    matched: Seq<bool>,
    line_number: bool,
    k: int,
    other: Seq<u8>,
)
    requires
        lines.len() <= matched.len(),
        0 <= k < lines.len(),
        !matched[k],
    ensures
        printed_lines(path, lines.update(k, other), matched, line_number) == printed_lines(
            path,
            lines,
            matched,
            line_number,
        ),
    decreases lines.len(),
{
    let new = lines.update(k, other);
    if k == lines.len() - 1 {
        assert(new.drop_last() =~= lines.drop_last());
    } else {
        assert(new.drop_last() =~= lines.drop_last().update(k, other));
        lemma_unmatched_among(path, lines.drop_last(), matched, line_number, k, other);
    }
}

/// What is printed of a content is printed between what is printed of the
/// contents before it and of those after it, whatever these are: its lines are
/// numbered on their own.
pub proof fn lemma_contents_printed(
    path: Seq<char>,
    contents: Seq<Seq<u8>>,
    matched: Seq<Vec<bool>>,
    line_number: bool,
    k: int,
) -> (after: Seq<u8>)
    requires
        0 <= k < contents.len(),
    ensures
        printed_contents(path, contents, matched, line_number) == printed_contents(
            path,
            contents.take(k),
            matched,
            line_number,
        ) + printed_lines(path, lines_of(contents[k]), matched[k]@, line_number) + after,
    decreases contents.len(),
{
    let front = contents.drop_last();
    let all = printed_contents(path, contents, matched, line_number);
    let before = printed_contents(path, contents.take(k), matched, line_number);
    let own = printed_lines(path, lines_of(contents[k]), matched[k]@, line_number);
    if k == contents.len() - 1 {
        let none = Seq::<u8>::empty();
        assert(contents.take(k) =~= front);
        assert(all =~= before + own + none);
        none
    } else {
        assert(front.take(k) =~= contents.take(k));
        let part = lemma_contents_printed(path, front, matched, line_number, k);
        let last = printed_lines(
            path,
            lines_of(contents.last()),
            matched[contents.len() - 1]@,
            line_number,
        );
        assert(all =~= before + own + (part + last));
        part + last
    }
}

} // verus!
