//! A fake code formatter, useful for testing.
//!
//! It can reverse the characters in each line, change their case, split lines
//! and append a line, everywhere or in some ranges of lines.

use vstd::prelude::*;
use vstd::slice::slice_subrange;
use vstd::utf8::decode_utf8;
use vstd::utf8::valid_utf8;

use crate::decimal::all_digits;
use crate::decimal::decimal;
use crate::decimal::decimal_usize;
use crate::decimal::lemma_decimal_read_back;
use crate::decimal::lemma_usize_read_back;
use crate::decimal::parse_usize;
use crate::fake_filter::ascii_lower;
use crate::fake_filter::ascii_upper;
use crate::fake_filter::to_ascii_lower;
use crate::fake_filter::to_ascii_upper;
use crate::file_search::lines_of;
use crate::file_search::lines_view;
use crate::file_search::split_lines;
use crate::filter::bytes_to_str;
use crate::text::chars_of;
use crate::text::concat3;
use crate::text::string_of;

verus! {

/// Represents an inclusive range of lines.
#[derive(Debug, PartialEq, Eq, Structural, Clone, Copy)]
pub struct LineRange {
    /// The first line.
    pub first: usize,
    /// The last line.
    pub last: usize,
}

/// Where the first hyphen is, or where the text ends.
pub open spec fn first_hyphen(text: Seq<char>) -> nat
    decreases text.len(),
{
    if text.len() == 0 || text[0] == '-' {
        0
    } else {
        1 + first_hyphen(text.skip(1))
    }
}

/// The range that a text stands for: the first and the last line, with a hyphen
/// in between.
pub open spec fn range_of(text: Seq<char>) -> Option<LineRange> {
    let middle = first_hyphen(text) as int;
    if middle < text.len() {
        match (decimal_usize(text.take(middle)), decimal_usize(text.skip(middle + 1))) {
            (Some(first), Some(last)) => Some(LineRange { first, last }),
            _ => None,
        }
    } else {
        None
    }
}

impl LineRange {
    /// Creates a new line range from a string slice that stands for one.
    pub fn from_str(s: &str) -> (range: Self)
        requires
            range_of(s@) is Some,
        ensures
            Some(range) == range_of(s@),
    {
        let chars: Vec<char> = chars_of(s);
        let mut i: usize = 0;
        assert(chars@.skip(0) =~= s@);
        while i < chars.len() && chars[i] != '-'
            invariant
                i <= chars@.len(),
                chars@ == s@,
                first_hyphen(s@) == i + first_hyphen(chars@.skip(i as int)),
            decreases chars@.len() - i,
        {
            assert(chars@.skip(i as int).skip(1) =~= chars@.skip(i + 1));
            i += 1;
        }
        assert(first_hyphen(s@) == i);
        let first: String = string_of(slice_subrange(chars.as_slice(), 0, i));
        let last: String = string_of(slice_subrange(chars.as_slice(), i + 1, chars.len()));
        assert(first@ =~= s@.take(i as int));
        assert(last@ =~= s@.skip(i + 1));
        LineRange {
            first: parse_usize(first.as_str()).unwrap(),
            last: parse_usize(last.as_str()).unwrap(),
        }
    }

    /// Checks if the line range contains the given line number (1-indexed and
    /// inclusive).
    pub fn contains(&self, line_num: usize) -> (found: bool)
        ensures
            found == (self.first <= line_num <= self.last),
    {
        line_num >= self.first && line_num <= self.last
    }
}

/// The number of characters of a line without its line end.
pub open spec fn content_len(line: Seq<char>) -> nat {
    if line.len() > 0 && line.last() == '\n' {
        (line.len() - 1) as nat
    } else {
        line.len()
    }
}

/// A line, or its two halves if it has an even number of characters.
pub open spec fn split_line(line: Seq<char>) -> Seq<char> {
    let middle = content_len(line) as int / 2;
    if content_len(line) % 2 == 0 {
        line.take(middle) + "\n"@ + line.skip(middle)
    } else {
        line
    }
}

/// If a line has an even number of characters (excluding the trailing newline
/// if there is one), split it in half into two lines. This simulates a
/// formatter that writes to a larger piece of the file than the line range it
/// was given.
pub fn split_even_length_line(line: &str) -> (result: String)
    ensures
        result@ == split_line(line@),
{
    let chars: Vec<char> = chars_of(line);
    let line_len: usize = if chars.len() > 0 && chars[chars.len() - 1] == '\n' {
        chars.len() - 1
    } else {
        chars.len()
    };
    if line_len % 2 == 0 {
        let first: String = string_of(slice_subrange(chars.as_slice(), 0, line_len / 2));
        let second: String = string_of(
            slice_subrange(chars.as_slice(), line_len / 2, chars.len()),
        );
        assert(first@ =~= line@.take(line_len as int / 2));
        assert(second@ =~= line@.skip(line_len as int / 2));
        concat3(first.as_str(), "\n", second.as_str())
    } else {
        line.to_owned()
    }
}

/// What std makes of a text in upper case.
pub uninterp spec fn upper_text(text: Seq<char>) -> Seq<char>;

/// What std makes of a text in lower case.
pub uninterp spec fn lower_text(text: Seq<char>) -> Seq<char>;

/// `str::to_uppercase`: the text in upper case, which is only named here.
#[verifier::external_body]
fn to_upper(text: &str) -> (upper: String)
    ensures
        upper@ == upper_text(text@),
{
    text.to_uppercase()
}

/// `str::to_lowercase`: the text in lower case, which is only named here.
#[verifier::external_body]
fn to_lower(text: &str) -> (lower: String)
    ensures
        lower@ == lower_text(text@),
{
    text.to_lowercase()
}

/// What the formatter is to do.
#[derive(Debug)]
pub struct FormatOptions {
    /// Reverse the characters in each line.
    pub reverse: bool,
    /// Convert all characters to uppercase.
    pub uppercase: bool,
    /// Convert all characters to lowercase.
    pub lowercase: bool,
    /// Adds a line to the end of the file
    pub append: Option<String>,
    /// The lines to format. All lines if there are no ranges.
    pub line_ranges: Vec<LineRange>,
    /// Split lines with an even number of characters into two lines.
    pub split_even_length_lines: bool,
}

impl FormatOptions {
    /// Whether a line is formatted.
    pub open spec fn in_range(&self, line_num: int) -> bool {
        self.line_ranges@.len() == 0 || exists|i: int|
            0 <= i < self.line_ranges@.len() && (#[trigger] self.line_ranges@[i]).first <= line_num
                <= self.line_ranges@[i].last
    }

    /// Whether a line can be dealt with: one that is formatted cannot be both in
    /// upper case and in lower case.
    pub open spec fn can_format(&self, line_num: int) -> bool {
        self.in_range(line_num) ==> !(self.uppercase && self.lowercase)
    }

    /// What becomes of a line.
    pub open spec fn formatted_line(&self, line_num: int, line: Seq<char>) -> Seq<char> {
        if self.in_range(line_num) {
            let reversed = if self.reverse {
                line.reverse()
            } else {
                line
            };
            let split = if self.split_even_length_lines {
                split_line(reversed)
            } else {
                reversed
            };
            if self.uppercase {
                upper_text(split)
            } else if self.lowercase {
                lower_text(split)
            } else {
                split
            }
        } else {
            line
        }
    }

    /// What becomes of lines, one after the other.
    pub open spec fn formatted_lines(&self, lines: Seq<Seq<u8>>) -> Seq<char>
        decreases lines.len(),
    {
        if lines.len() == 0 {
            Seq::empty()
        } else {
            self.formatted_lines(lines.drop_last()) + self.formatted_line(
                lines.len() as int,
                decode_utf8(lines.last()),
            )
        }
    }

    /// Tells whether a line is formatted.
    pub fn is_in_range(&self, line_num: usize) -> (found: bool)
        ensures
            found == self.in_range(line_num as int),
    {
        if self.line_ranges.len() == 0 {
            return true;
        }
        let mut i: usize = 0;
        while i < self.line_ranges.len()
            invariant
                i <= self.line_ranges@.len(),
                forall|k: int|
                    0 <= k < i ==> !((#[trigger] self.line_ranges@[k]).first <= line_num
                        <= self.line_ranges@[k].last),
            decreases self.line_ranges@.len() - i,
        {
            if self.line_ranges[i].contains(line_num) {
                assert(self.line_ranges@[i as int].first <= line_num);
                return true;
            }
            i += 1;
        }
        false
    }

    /// Formats a line.
    pub fn format_line(&self, line_num: usize, line: &str) -> (result: String)
        requires
            self.can_format(line_num as int),
        ensures
            result@ == self.formatted_line(line_num as int, line@),
    {
        if !self.is_in_range(line_num) {
            return line.to_owned();
        }
        let reversed: String = if self.reverse {
            reverse_chars(line)
        } else {
            line.to_owned()
        };
        let split: String = if self.split_even_length_lines {
            split_even_length_line(reversed.as_str())
        } else {
            reversed
        };
        if self.uppercase {
            to_upper(split.as_str())
        } else if self.lowercase {
            to_lower(split.as_str())
        } else {
            split
        }
    }

    /// Formats an input, each line of which is valid UTF-8.
    pub fn format_input(&self, input: &[u8]) -> (output: String)
        requires
            forall|i: int|
                0 <= i < lines_of(input@).len() ==> valid_utf8(#[trigger] lines_of(input@)[i]),
            forall|line_num: int|
                1 <= line_num <= lines_of(input@).len() ==> #[trigger] self.can_format(line_num),
        ensures
            output@ == self.formatted_lines(lines_of(input@)) + (match self.append {
                Some(line) => line@,
                None => Seq::empty(),
            }),
    {
        let lines: Vec<Vec<u8>> = split_lines(input);
        let ghost all = lines_of(input@);
        let mut output: String = String::new();
        let mut i: usize = 0;
        assert(output@ =~= self.formatted_lines(all.take(0)));
        while i < lines.len()
            invariant
                i <= lines@.len(),
                all == lines_view(lines@),
                forall|k: int| 0 <= k < all.len() ==> valid_utf8(#[trigger] all[k]),
                forall|line_num: int|
                    1 <= line_num <= all.len() ==> #[trigger] self.can_format(line_num),
                output@ == self.formatted_lines(all.take(i as int)),
            decreases lines@.len() - i,
        {
            proof {
                assert(all[i as int] == lines@[i as int]@);
                assert(all.take(i + 1).drop_last() =~= all.take(i as int));
                assert(all.take(i + 1).last() == all[i as int]);
            }
            let line: String = bytes_to_str(&lines[i]).unwrap();
            proof {
                vstd::utf8::encode_utf8_decode_utf8(line@);
            }
            let formatted: String = self.format_line(i + 1, line.as_str());
            output.append(formatted.as_str());
            i += 1;
        }
        assert(all.take(i as int) =~= all);
        match &self.append {
            Some(line) => {
                output.append(line.as_str());
            },
            None => {
                assert(output@ + Seq::<char>::empty() =~= output@);
            },
        }
        output
    }

    /// Formats one byte, without looking at those around it.
    pub fn format_byte(&self, byte: u8) -> (output: u8)
        ensures
            output == (if self.uppercase {
                ascii_upper(byte)
            } else if self.lowercase {
                ascii_lower(byte)
            } else {
                byte
            }),
    {
        if self.uppercase {
            to_ascii_upper(byte)
        } else if self.lowercase {
            to_ascii_lower(byte)
        } else {
            byte
        }
    }
}

fn reverse_chars(line: &str) -> (reversed: String)
    ensures
        reversed@ == line@.reverse(),
{
    let chars: Vec<char> = chars_of(line);
    let mut reversed: String = String::new();
    let mut i: usize = chars.len();
    assert(reversed@ =~= line@.reverse().take(0));
    while i > 0
        invariant
            i <= chars@.len(),
            chars@ == line@,
            reversed@ == line@.reverse().take(chars@.len() - i),
        decreases i,
    {
        i -= 1;
        reversed.push(chars[i]);
        assert(reversed@ =~= line@.reverse().take(chars@.len() - i));
    }
    assert(line@.reverse().take(chars@.len() as int) =~= line@.reverse());
    reversed
}

/// A range is written as its first and its last line with a hyphen in between.
pub proof fn lemma_range_of(first: usize, last: usize)
    ensures
        range_of(decimal(first as nat) + seq!['-'] + decimal(last as nat)) == Some(
            LineRange { first, last },
        ),
{
    let a = decimal(first as nat);
    let b = decimal(last as nat);
    let text = a + seq!['-'] + b;
    lemma_decimal_read_back(first as nat);
    lemma_usize_read_back(first);
    lemma_usize_read_back(last);
    lemma_first_hyphen(a, b);
    assert(text.take(a.len() as int) =~= a);
    assert(text.skip(a.len() as int + 1) =~= b);
}

proof fn lemma_first_hyphen(digits: Seq<char>, rest: Seq<char>)
    requires
        all_digits(digits),
    ensures
        first_hyphen(digits + seq!['-'] + rest) == digits.len(),
    decreases digits.len(),
{
    let text = digits + seq!['-'] + rest;
    if digits.len() == 0 {
        assert(text[0] == '-');
    } else {
        assert(text[0] == digits[0]);
        assert(text.skip(1) =~= digits.skip(1) + seq!['-'] + rest);
        assert forall|i: int| 0 <= i < digits.skip(1).len() implies '0' <= #[trigger] digits.skip(
            1,
        )[i] <= '9' by {
            assert(digits.skip(1)[i] == digits[i + 1]);
        }
        lemma_first_hyphen(digits.skip(1), rest);
    }
}

/// A line with an even number of characters is split into two halves of the same
/// length, with a line end in between. Another line stays as it is. The line end
/// does not count.
pub proof fn lemma_split_line(a: Seq<char>, b: Seq<char>, ended: bool)
    requires
        b.len() > 0 ==> b.last() != '\n',
        a.len() > 0 && b.len() == 0 ==> a.last() != '\n',
    ensures
        ({
            let end = if ended {
                "\n"@
            } else {
                ""@
            };
            &&& a.len() == b.len() ==> split_line(a + b + end) == a + "\n"@ + b + end
            &&& (a.len() + b.len()) % 2 == 1 ==> split_line(a + b + end) == a + b + end
        }),
{
    reveal_strlit("\n");
    reveal_strlit("");
    let end = if ended {
        "\n"@
    } else {
        ""@
    };
    let line = a + b + end;
    if ended {
        assert(line.last() == '\n');
    } else {
        assert(line =~= a + b);
        if b.len() > 0 {
            assert(line.last() == b.last());
        } else if a.len() > 0 {
            assert(line.last() == a.last());
        }
    }
    assert(content_len(line) == a.len() + b.len());
    if a.len() == b.len() {
        assert(line.take(a.len() as int) =~= a);
        assert(line.skip(a.len() as int) =~= b + end);
        assert(split_line(line) =~= a + "\n"@ + b + end);
    }
}

impl FormatOptions {
    /// Each line becomes what it becomes on its own, by its number, between what
    /// the lines before it and those after it become.
    pub proof fn lemma_formatted_line(&self, lines: Seq<Seq<u8>>, k: int) -> (after: Seq<char>)
        requires
            0 <= k < lines.len(),
        ensures
            self.formatted_lines(lines) == self.formatted_lines(lines.take(k))
                + self.formatted_line(k + 1, decode_utf8(lines[k])) + after,
        decreases lines.len(),
    {
        let front = lines.drop_last();
        let all = self.formatted_lines(lines);
        let before = self.formatted_lines(lines.take(k));
        let own = self.formatted_line(k + 1, decode_utf8(lines[k]));
        if k == lines.len() - 1 {
            let none = Seq::<char>::empty();
            assert(lines.take(k) =~= front);
            assert(all =~= before + own + none);
            none
        } else {
            assert(front.take(k) =~= lines.take(k));
            let part = self.lemma_formatted_line(front, k);
            let last = self.formatted_line(lines.len() as int, decode_utf8(lines.last()));
            assert(all =~= before + own + (part + last));
            part + last
        }
    }

    /// A line outside of all ranges stays as it is, and one in a range does so
    /// if nothing is asked for. Without ranges, every line is in range.
    pub proof fn lemma_line_stays(&self, line_num: int, line: Seq<char>)
        ensures
            self.line_ranges@.len() > 0 && (forall|i: int|
                0 <= i < self.line_ranges@.len() ==> line_num < (
                #[trigger] self.line_ranges@[i]).first || line_num > self.line_ranges@[i].last)
                ==> self.formatted_line(line_num, line) == line,
            !self.reverse && !self.split_even_length_lines && !self.uppercase && !self.lowercase
                ==> self.formatted_line(line_num, line) == line,
            self.line_ranges@.len() == 0 ==> self.in_range(line_num),
            forall|i: int|
                0 <= i < self.line_ranges@.len() && (#[trigger] self.line_ranges@[i]).first
                    <= line_num <= self.line_ranges@[i].last ==> self.in_range(line_num),
    {
    }
}

} // verus!
