//! Searching the contents of files.

use std::collections::BTreeMap;

use jj_core::file_search::parse_pattern_arg;
use jj_core::file_search::search_entry;
use jj_core::file_search::search_lines;
use jj_core::file_search::split_lines;
use jj_core::file_search::write_matches;
use jj_core::file_search::PatternArg;
use jj_core::file_search::SearchedValue;
use regex::bytes::Regex;

/// The pattern as a regular expression, if its kind is known.
fn regex_of(arg: &PatternArg) -> Option<Regex> {
    let escaped = regex::escape(&arg.pattern).replace("\\*", ".*");
    let text = match arg.kind.as_str() {
        "glob" => format!("^{escaped}$"),
        "glob-i" => format!("(?i)^{escaped}$"),
        "regex" => arg.pattern.clone(),
        "regex-i" => format!("(?i){}", arg.pattern),
        _ => return None,
    };
    Some(Regex::new(&text).unwrap())
}

fn matches_of(regex: &Regex, content: &[u8]) -> Vec<bool> {
    search_lines(content)
        .iter()
        .map(|line| regex.is_match(line))
        .collect()
}

fn search(
    files: &BTreeMap<&str, SearchedValue>,
    pattern: &str,
    name_only: bool,
    line_number: bool,
) -> String {
    let regex = regex_of(&parse_pattern_arg(pattern)).unwrap();
    let mut output = vec![];
    for (path, value) in files {
        let matched = match value {
            SearchedValue::File(content) => vec![matches_of(&regex, content)],
            SearchedValue::FileConflict(sides) => {
                sides.iter().map(|side| matches_of(&regex, side)).collect()
            }
            _ => vec![],
        };
        let result = search_entry(path, value, &matched, name_only, line_number);
        assert!(result.warning.is_none());
        output.extend(result.output);
    }
    String::from_utf8(output).unwrap()
}

fn file(content: &str) -> SearchedValue {
    SearchedValue::File(content.as_bytes().to_vec())
}

#[test]
fn test_file_search() {
    let parent = BTreeMap::from([("file1", file("-foo-")), ("file2", file("-bar-"))]);
    let mut files = BTreeMap::from([
        ("file1", file("-foo-")),
        ("file2", file("-bar-")),
        ("dir/file3", file("-foobar-")),
    ]);

    // Searches all files in the current revision by default and prints each
    // matched line prefixed by the file path
    assert_eq!(
        search(&files, "glob:*foo*", false, false),
        "dir/file3:-foobar-\nfile1:-foo-\n"
    );

    // --name-only restores path-only output
    assert_eq!(
        search(&files, "glob:*foo*", true, false),
        "dir/file3\nfile1\n"
    );

    // Matches only the whole line for glob pattern
    assert_eq!(search(&files, "glob:foo", false, false), "");

    // Can search files in another revision
    assert_eq!(
        search(&parent, "glob:*foo*", false, false),
        "file1:-foo-\n"
    );

    // Can filter by path
    let dir = BTreeMap::from([("dir/file3", file("-foobar-"))]);
    assert_eq!(
        search(&dir, "glob:*foo*", false, false),
        "dir/file3:-foobar-\n"
    );
    assert_eq!(
        search(&BTreeMap::new(), "glob:*foo*", false, false),
        ""
    );

    // The default is regex
    assert_eq!(
        search(&files, "f.o", false, false),
        "dir/file3:-foobar-\nfile1:-foo-\n"
    );

    // Can specify the kind
    assert_eq!(
        search(&files, "glob-i:*foo*", false, false),
        "dir/file3:-foobar-\nfile1:-foo-\n"
    );

    // The part before the first colon is treated as the kind.
    let arg = parse_pattern_arg("foo:bar");
    assert_eq!(arg.kind, "foo");
    assert!(regex_of(&arg).is_none());

    // Colons can be in the pattern part.
    assert_eq!(search(&files, "regex-i:foo:bar", false, false), "");

    // Prints every matched line, not just the first
    files = BTreeMap::from([("multi", file("hit-one\nmiss\nhit-two\nhit-three\n"))]);
    assert_eq!(
        search(&files, "hit", false, false),
        "multi:hit-one\nmulti:hit-two\nmulti:hit-three\n"
    );
    // --name-only collapses the same file to a single line
    assert_eq!(search(&files, "hit", true, false), "multi\n");

    // -n prefixes each match with its 1-based line number
    assert_eq!(
        search(&files, "hit", false, true),
        "multi:1:hit-one\nmulti:3:hit-two\nmulti:4:hit-three\n"
    );
}

#[test]
fn test_file_search_conflicts() {
    let files = BTreeMap::from([(
        "file1",
        SearchedValue::FileConflict(vec![b"-foo-\n".to_vec(), b"-baz-\n".to_vec()]),
    )]);

    // Matches positive terms (one match per matching add side)
    assert_eq!(
        search(&files, "glob:*foo*", false, false),
        "file1:-foo-\n"
    );
    // --name-only collapses per-file even with a conflict
    assert_eq!(search(&files, "glob:*foo*", true, false), "file1\n");
    assert_eq!(search(&files, "glob:*bar*", false, false), "");
    assert_eq!(
        search(&files, "glob:*baz*", false, false),
        "file1:-baz-\n"
    );

    // A pattern that matches on multiple add sides: each matching side emits
    // one line; with --name-only the path is deduped to a single output.
    assert_eq!(
        search(&files, "regex:-(foo|baz)-", false, false),
        "file1:-foo-\nfile1:-baz-\n"
    );
    assert_eq!(
        search(&files, "regex:-(foo|baz)-", true, false),
        "file1\n"
    );

    // -n numbers lines within each conflict side independently, so matches on
    // different sides can share a line number.
    assert_eq!(
        search(&files, "regex:-(foo|baz)-", false, true),
        "file1:1:-foo-\nfile1:1:-baz-\n"
    );

    // Doesn't match the conflict markers
    assert_eq!(search(&files, "glob:*%%%*", false, false), "");

    // Doesn't list file if the pattern doesn't match
    assert_eq!(search(&files, "glob:*qux*", false, false), "");
}

#[test]
fn patterns() {
    let arg = parse_pattern_arg("exact:a:b");
    assert_eq!((arg.kind.as_str(), arg.pattern.as_str()), ("exact", "a:b"));
    let arg = parse_pattern_arg(":x");
    assert_eq!((arg.kind.as_str(), arg.pattern.as_str()), ("", "x"));
    let arg = parse_pattern_arg("");
    assert_eq!((arg.kind.as_str(), arg.pattern.as_str()), ("regex", ""));
}

#[test]
fn lines_join_to_the_content() {
    for content in [&b""[..], b"a", b"a\n", b"\n\n", b"a\r\nb", b"\xff\n"] {
        assert_eq!(split_lines(content).concat(), content);
    }
    assert_eq!(
        split_lines(b"a\nb"),
        vec![b"a\n".to_vec(), b"b".to_vec()]
    );
    assert_eq!(
        search_lines(b"a\r\n\nb"),
        vec![b"a\r".to_vec(), b"".to_vec(), b"b".to_vec()]
    );
}

#[test]
fn matched_lines_are_printed() {
    assert_eq!(
        write_matches("p", b"a\nb\nc", &[false, true, true], true),
        b"p:2:b\np:3:c\n"
    );
    assert_eq!(
        write_matches("p", b"a\nb\nc", &[false, true, true], false),
        b"p:b\np:c\n"
    );
    assert_eq!(write_matches("p", b"a\n", &[false], true), b"");
}

#[test]
fn other_values_are_not_searched() {
    let denied = SearchedValue::AccessDenied("no permission".to_owned());
    let result = search_entry("p", &denied, &vec![], false, false);
    assert!(result.output.is_empty());
    assert_eq!(
        result.warning.as_deref(),
        Some("Skipping 'p' due to permission error: no permission")
    );
    let result = search_entry("p", &SearchedValue::Other, &vec![], true, false);
    assert!(result.output.is_empty());
    assert!(result.warning.is_none());
}
