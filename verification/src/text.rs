//! Strings as sequences of characters.

use vstd::prelude::*;

verus! {

/// `String::push`: the character is appended to the string.
pub assume_specification[ std::string::String::push ](s: &mut std::string::String, ch: char)
    ensures
        final(s)@ == old(s)@.push(ch),
;

/// The characters of a string.
pub fn chars_of(text: &str) -> (chars: Vec<char>)
    ensures
        chars@ == text@,
{
    let mut chars: Vec<char> = Vec::new();
    for c in it: text.chars()
        invariant
            it.seq() == text@,
            chars@ == text@.take(it.index() as int),
    {
        chars.push(c);
        assert(chars@ =~= text@.take(it.index() + 1));
    }
    assert(chars@ =~= text@);
    chars
}

/// The string of some characters.
pub fn string_of(chars: &[char]) -> (text: String)
    ensures
        text@ == chars@,
{
    let mut text: String = String::new();
    let mut i: usize = 0;
    while i < chars.len()
        invariant
            i <= chars@.len(),
            text@ == chars@.take(i as int),
        decreases chars@.len() - i,
    {
        text.push(chars[i]);
        i += 1;
        assert(text@ =~= chars@.take(i as int));
    }
    assert(chars@.take(chars@.len() as int) =~= chars@);
    text
}

/// Whether two strings are the same.
pub fn str_eq(a: &str, b: &str) -> (same: bool)
    ensures
        same == (a@ == b@),
{
    let left: String = a.to_owned();
    let right: String = b.to_owned();
    left == right
}

/// The characters of each of a list of strings.
pub open spec fn texts(strings: Seq<String>) -> Seq<Seq<char>> {
    strings.map_values(|s: String| s@)
}

/// The characters of a longer list of strings.
pub proof fn lemma_texts_push(strings: Seq<String>, s: String)
    ensures
        texts(strings.push(s)) == texts(strings).push(s@),
{
    assert(texts(strings.push(s)) =~= texts(strings).push(s@));
}

/// A copy of a list of strings.
pub fn copy_texts(strings: &[String]) -> (copy: Vec<String>)
    ensures
        texts(copy@) == texts(strings@),
{
    let mut copy: Vec<String> = Vec::new();
    extend_texts(&mut copy, strings);
    assert(Seq::<Seq<char>>::empty() + texts(strings@) =~= texts(strings@));
    copy
}

/// Appends copies of strings to a list.
pub fn extend_texts(list: &mut Vec<String>, strings: &[String])
    ensures
        texts(final(list)@) == texts(old(list)@) + texts(strings@),
{
    let mut i: usize = 0;
    assert(texts(strings@.take(0)) =~= Seq::<Seq<char>>::empty());
    assert(texts(list@) + texts(strings@.take(0)) =~= texts(list@));
    while i < strings.len()
        invariant
            i <= strings@.len(),
            texts(list@) == texts(old(list)@) + texts(strings@.take(i as int)),
        decreases strings@.len() - i,
    {
        let s: String = strings[i].clone();
        proof {
            lemma_texts_push(list@, s);
            lemma_texts_push(strings@.take(i as int), s);
            assert(strings@.take(i + 1) =~= strings@.take(i as int).push(s));
            assert(texts(list@).push(s@) =~= texts(old(list)@) + texts(
                strings@.take(i as int),
            ).push(s@));
        }
        list.push(s);
        i += 1;
    }
    assert(strings@.take(strings@.len() as int) =~= strings@);
}

/// The concatenation of two strings.
pub fn concat(a: &str, b: &str) -> (text: String)
    ensures
        text@ == a@ + b@,
{
    let mut text: String = a.to_owned();
    text.append(b);
    text
}

/// The concatenation of three strings.
pub fn concat3(a: &str, b: &str, c: &str) -> (text: String)
    ensures
        text@ == a@ + b@ + c@,
{
    let mut text: String = a.to_owned();
    text.append(b);
    text.append(c);
    text
}

/// The text with each occurrence of the pattern replaced, from left to right.
pub open spec fn replaced(text: Seq<char>, pattern: Seq<char>, with: Seq<char>) -> Seq<char>
    decreases text.len(),
{
    if text.len() == 0 || pattern.len() == 0 {
        text
    } else if pattern.is_prefix_of(text) {
        with + replaced(text.skip(pattern.len() as int), pattern, with)
    } else {
        seq![text[0]] + replaced(text.skip(1), pattern, with)
    }
}

/// Whether the pattern occurs in the characters at a position.
pub fn occurs_at(chars: &[char], at: usize, pattern: &[char]) -> (found: bool)
    requires
        at <= chars@.len(),
    ensures
        found == pattern@.is_prefix_of(chars@.skip(at as int)),
{
    let len: usize = chars.len();
    if len - at < pattern.len() {
        return false;
    }
    let mut i: usize = 0;
    while i < pattern.len()
        invariant
            len == chars@.len(),
            i <= pattern@.len() <= len - at,
            forall|k: int| 0 <= k < i ==> pattern@[k] == chars@.skip(at as int)[k],
        decreases pattern@.len() - i,
    {
        if pattern[i] != chars[at + i] {
            assert(chars@.skip(at as int)[i as int] == chars@[at + i]);
            return false;
        }
        i += 1;
    }
    assert(pattern@ =~= chars@.skip(at as int).subrange(0, pattern@.len() as int));
    true
}

/// Replaces each occurrence of a pattern.
pub fn replace_all(text: &str, pattern: &str, with: &str) -> (result: String)
    requires
        pattern@.len() > 0,
    ensures
        result@ == replaced(text@, pattern@, with@),
{
    let chars: Vec<char> = chars_of(text);
    let pattern_chars: Vec<char> = chars_of(pattern);
    let mut result: String = String::new();
    let mut i: usize = 0;
    assert(chars@.skip(0) =~= chars@);
    assert(result@ + replaced(chars@.skip(0), pattern@, with@) =~= replaced(
        text@,
        pattern@,
        with@,
    ));
    while i < chars.len()
        invariant
            i <= chars@.len(),
            pattern_chars@ == pattern@,
            pattern@.len() > 0,
            result@ + replaced(chars@.skip(i as int), pattern@, with@) == replaced(
                text@,
                pattern@,
                with@,
            ),
        decreases chars@.len() - i,
    {
        let ghost rest = chars@.skip(i as int);
        let ghost before = result@;
        if occurs_at(&chars, i, &pattern_chars) {
            assert(rest.skip(pattern@.len() as int) =~= chars@.skip(i + pattern@.len()));
            result.append(with);
            i += pattern_chars.len();
            assert(result@ + replaced(chars@.skip(i as int), pattern@, with@) =~= before + (with@
                + replaced(chars@.skip(i as int), pattern@, with@)));
        } else {
            assert(rest.skip(1) =~= chars@.skip(i + 1));
            result.push(chars[i]);
            i += 1;
            assert(result@ + replaced(chars@.skip(i as int), pattern@, with@) =~= before + (
            seq![rest[0]] + replaced(chars@.skip(i as int), pattern@, with@)));
        }
    }
    assert(chars@.skip(i as int) =~= Seq::<char>::empty());
    assert(result@ + Seq::<char>::empty() =~= result@);
    result
}

/// Removes a prefix.
pub fn strip_prefix(text: &str, prefix: &str) -> (rest: Option<String>)
    ensures
        match rest {
            Some(rest) => prefix@.is_prefix_of(text@) && rest@ == text@.skip(prefix@.len() as int),
            None => !prefix@.is_prefix_of(text@),
        },
{
    let chars: Vec<char> = chars_of(text);
    let prefix_chars: Vec<char> = chars_of(prefix);
    assert(chars@.skip(0) =~= chars@);
    if occurs_at(&chars, 0, &prefix_chars) {
        let rest: String = string_of(
            vstd::slice::slice_subrange(chars.as_slice(), prefix_chars.len(), chars.len()),
        );
        assert(rest@ =~= text@.skip(prefix@.len() as int));
        Some(rest)
    } else {
        None
    }
}

/// The first occurrence of a pattern is replaced, what is before it stays as it
/// is, and what is after it is dealt with on its own.
pub proof fn lemma_replaced_first(
    before: Seq<char>,
    pattern: Seq<char>,
    rest: Seq<char>,
    with: Seq<char>,
)
    requires
        pattern.len() > 0,
        forall|i: int|
            0 <= i < before.len() ==> !pattern.is_prefix_of(
                #[trigger] (before + pattern + rest).skip(i),
            ),
    ensures
        replaced(before + pattern + rest, pattern, with) == before + with + replaced(
            rest,
            pattern,
            with,
        ),
    decreases before.len(),
{
    let text = before + pattern + rest;
    if before.len() == 0 {
        assert(pattern =~= text.take(pattern.len() as int));
        assert(text.skip(pattern.len() as int) =~= rest);
        assert(before + with + replaced(rest, pattern, with) =~= with + replaced(
            rest,
            pattern,
            with,
        ));
    } else {
        let fewer = before.skip(1);
        let shorter = fewer + pattern + rest;
        assert(text.skip(0) =~= text);
        assert(!pattern.is_prefix_of(text.skip(0)));
        assert(text.skip(1) =~= shorter);
        assert forall|i: int| 0 <= i < fewer.len() implies !pattern.is_prefix_of(
            #[trigger] shorter.skip(i),
        ) by {
            assert(shorter.skip(i) =~= text.skip(i + 1));
        }
        lemma_replaced_first(fewer, pattern, rest, with);
        assert(text[0] == before[0]);
        assert(seq![text[0]] + (fewer + with + replaced(rest, pattern, with)) =~= before + with
            + replaced(rest, pattern, with));
    }
}

/// A text in which a pattern does not occur stays as it is.
pub proof fn lemma_not_replaced(text: Seq<char>, pattern: Seq<char>, with: Seq<char>)
    requires
        pattern.len() > 0,
        forall|i: int| 0 <= i < text.len() ==> !pattern.is_prefix_of(#[trigger] text.skip(i)),
    ensures
        replaced(text, pattern, with) == text,
    decreases text.len(),
{
    if text.len() > 0 {
        let rest = text.skip(1);
        assert(text.skip(0) =~= text);
        assert(!pattern.is_prefix_of(text.skip(0)));
        assert forall|i: int| 0 <= i < rest.len() implies !pattern.is_prefix_of(
            #[trigger] rest.skip(i),
        ) by {
            assert(rest.skip(i) =~= text.skip(i + 1));
        }
        lemma_not_replaced(rest, pattern, with);
        assert(seq![text[0]] + rest =~= text);
    }
}

} // verus!
