//! Small commands and tools.

use std::collections::HashMap;

use jj_core::config_gc::find_missing_repo_configs;
use jj_core::config_gc::gc_failure;
use jj_core::config_gc::gc_prompt;
use jj_core::config_gc::gc_report;
use jj_core::config_gc::gc_summary;
use jj_core::config_gc::ConfigDir;
use jj_core::dag_walk::topo_order_forward;
use jj_core::dag_walk::topo_order_reverse;
use jj_core::decimal::decimal_text;
use jj_core::decimal::parse_i64;
use jj_core::decimal::parse_usize;
use jj_core::fake_filter::to_ascii_lower;
use jj_core::fake_filter::to_ascii_upper;
use jj_core::fake_filter::Args;
use jj_core::fake_formatter::split_even_length_line;
use jj_core::fake_formatter::FormatOptions;
use jj_core::fake_formatter::LineRange;
use jj_core::lock::after_open;
use jj_core::lock::share_mode;
use jj_core::lock::FileLockError;
use jj_core::lock::OpenAction;
use jj_core::lock::OpenOutcome;
use jj_core::lock::ERROR_SHARING_VIOLATION;
use jj_core::redo::check_undone;
use jj_core::redo::operation_to_redo;
use jj_core::redo::operation_to_restore;
use jj_core::redo::redo_description;
use jj_core::redo::RedoError;
use jj_core::redo::Target;
use jj_core::show::backend_name_line;
use jj_core::show::show_template;
use jj_core::simple_op_heads_store::OperationId;

fn dir(name: &str, repo_path: Option<&str>, repo_exists: Option<bool>) -> ConfigDir {
    ConfigDir {
        name: name.to_owned(),
        is_dir: true,
        repo_path: repo_path.map(|path| path.to_owned()),
        repo_exists,
    }
}

#[test]
fn missing_repo_configs() {
    let mut file = dir("0file", Some("/file"), Some(false));
    file.is_dir = false;
    let missing = find_missing_repo_configs(&[
        dir("c", Some("/c"), Some(false)),
        dir("b", Some("/b"), Some(true)),
        dir("a", Some("/a"), Some(false)),
        dir("d", None, None),
        dir("e", Some("/e"), None),
        file,
    ]);
    let found: Vec<(usize, &str, &str)> = missing
        .iter()
        .map(|repo| (repo.dir, repo.name.as_str(), repo.repo_path.as_str()))
        .collect();
    assert_eq!(found, [(2, "a", "/a"), (0, "c", "/c")]);
    assert_eq!(
        gc_report(&missing),
        [
            "Missing repo configs (repo path no longer exists):",
            "  a",
            "    repo path: /a",
            "  c",
            "    repo path: /c",
        ]
    );
    assert_eq!(
        gc_prompt(&missing).as_deref(),
        Some("Delete 2 missing repo config directories?")
    );
    assert_eq!(
        gc_report(&[]),
        [
            "Missing repo configs (repo path no longer exists):",
            "  (none)"
        ]
    );
    assert!(gc_prompt(&[]).is_none());
}

#[test]
fn deleted_repo_configs() {
    assert_eq!(gc_summary(&None), "Aborted; nothing was deleted.");
    assert_eq!(
        gc_summary(&Some(vec![Ok(()), Err("busy".to_owned()), Ok(())])),
        "Deleted 2 config directories."
    );
    assert_eq!(gc_failure("a", "busy"), "Failed to delete a: busy");
}

#[test]
fn topological_order() {
    // 3 depends on 1 and 2, which depend on 0.
    let neighbors = HashMap::from([
        (0, vec![]),
        (1, vec![0]),
        (2, vec![0]),
        (3, vec![1, 2]),
        (9, vec![9]),
    ]);
    assert_eq!(topo_order_forward(&[3], &neighbors), Ok(vec![0, 2, 1, 3]));
    assert_eq!(topo_order_reverse(&[3], &neighbors), Ok(vec![3, 1, 2, 0]));
    assert_eq!(topo_order_forward(&[], &neighbors), Ok(vec![]));
    assert_eq!(topo_order_forward(&[9], &neighbors), Err(9));
    assert_eq!(topo_order_reverse(&[1, 9], &neighbors), Err(9));
}

#[test]
fn decimal_numbers() {
    assert_eq!(parse_i64("-9223372036854775808"), Some(i64::MIN));
    assert_eq!(parse_i64("9223372036854775807"), Some(i64::MAX));
    assert_eq!(parse_i64("9223372036854775808"), None);
    assert_eq!(parse_i64("+7"), Some(7));
    for text in ["", "+", "-", "1_0", " 1", "1.0", "x"] {
        assert_eq!(parse_i64(text), None);
        assert_eq!(parse_usize(text), None);
    }
    assert_eq!(parse_usize("-0"), None);
    assert_eq!(parse_usize("+0012"), Some(12));
    assert_eq!(parse_usize("18446744073709551616"), None);
    for number in [0, 7, 10, 12345, usize::MAX] {
        assert_eq!(decimal_text(number), number.to_string());
        assert_eq!(parse_usize(&decimal_text(number)), Some(number));
    }
}

#[test]
fn filter_tool() {
    let args = Args {
        uppercase: true,
        abort_on_start: false,
        abort_on_end: false,
    };
    assert_eq!(args.convert(b"abC1\xe4\n"), b"ABC1\xe4\n");
    // The input can be converted in parts.
    assert_eq!(
        args.convert(b"abcdef"),
        [args.convert(b"abc"), args.convert(b"def")].concat()
    );
    let args = Args {
        uppercase: false,
        ..args
    };
    assert_eq!(args.convert(b"abC1"), b"abC1");
    assert_eq!((to_ascii_upper(b'z'), to_ascii_upper(b'{')), (b'Z', b'{'));
    assert_eq!((to_ascii_lower(b'Z'), to_ascii_lower(b'[')), (b'z', b'['));
}

fn options() -> FormatOptions {
    FormatOptions {
        reverse: false,
        uppercase: false,
        lowercase: false,
        append: None,
        line_ranges: vec![],
        split_even_length_lines: false,
    }
}

#[test]
fn formatter_tool() {
    assert_eq!(options().format_input("Aä\nb".as_bytes()), "Aä\nb");

    let upper = FormatOptions {
        uppercase: true,
        ..options()
    };
    assert_eq!(upper.format_input("aß\nb".as_bytes()), "ASS\nB");
    assert_eq!(upper.format_byte(b'a'), b'A');

    let lower = FormatOptions {
        lowercase: true,
        append: Some("END".to_owned()),
        ..options()
    };
    assert_eq!(lower.format_input("AÄ\n".as_bytes()), "aä\nEND");
    assert_eq!(lower.format_byte(b'A'), b'a');
    assert_eq!(options().format_byte(b'A'), b'A');

    let reverse = FormatOptions {
        reverse: true,
        ..options()
    };
    assert_eq!(reverse.format_line(1, "abc"), "cba");

    let ranges = FormatOptions {
        uppercase: true,
        line_ranges: vec![LineRange::from_str("2-2"), LineRange::from_str("4-9")],
        ..options()
    };
    assert_eq!(ranges.format_input(b"a\nb\nc\nd\ne"), "a\nB\nc\nD\nE");
    assert_eq!(
        LineRange::from_str("10-12"),
        LineRange {
            first: 10,
            last: 12
        }
    );
    assert!(LineRange::from_str("2-3").contains(3));
    assert!(!LineRange::from_str("2-3").contains(4));
}

#[test]
fn lines_that_are_not_formatted_may_have_both_cases_asked_for() {
    let both = FormatOptions {
        uppercase: true,
        lowercase: true,
        append: Some("end".to_owned()),
        line_ranges: vec![LineRange::from_str("3-4")],
        ..options()
    };
    assert!(!both.is_in_range(2));
    assert!(both.is_in_range(3));
    assert_eq!(both.format_line(2, "aB"), "aB");
    assert_eq!(both.format_input(b"aB\ncD\n"), "aB\ncD\nend");
}

#[test]
fn even_lines_are_split() {
    assert_eq!(split_even_length_line("abcd\n"), "ab\ncd\n");
    assert_eq!(split_even_length_line("abc\n"), "abc\n");
    assert_eq!(split_even_length_line("abcd"), "ab\ncd");
    let split = FormatOptions {
        split_even_length_lines: true,
        ..options()
    };
    assert_eq!(split.format_input(b"ab\nabc\n"), "a\nb\nabc\n");
}

#[test]
fn opening_a_lock_file() {
    let failed = |permission_denied, os_error| OpenOutcome::Failed {
        permission_denied,
        os_error,
    };
    assert_eq!(after_open(OpenOutcome::Opened, true), OpenAction::Use);
    assert_eq!(after_open(failed(true, None), true), OpenAction::Retry);
    assert_eq!(
        after_open(failed(false, Some(ERROR_SHARING_VIOLATION)), true),
        OpenAction::Retry
    );
    assert_eq!(after_open(failed(true, None), false), OpenAction::Fail);
    assert_eq!(after_open(failed(false, Some(5)), true), OpenAction::Fail);
    assert_eq!(share_mode(), 3);
    assert_eq!(FileLockError::Open.message(), "Failed to open lock file");
    assert_eq!(FileLockError::Lock.message(), "Failed to lock lock file");
}

fn id(hex: &str) -> OperationId {
    OperationId::from_hex(hex).unwrap()
}

/// Follows a redo over operations, each with its description and its only
/// parent, and returns the operation that is restored.
fn redo(operations: &[(&str, String, &str)], start: &str) -> Result<String, RedoError> {
    let find = |id: &str| operations.iter().find(|(name, ..)| *name == id).unwrap();
    let mut operation = find(start);
    if let Target::Other(id) = operation_to_redo(&operation.1)? {
        operation = find(&id.hex());
    }
    check_undone(&operation.1, "undo: restore to operation ")?;
    let parent = find(operation.2);
    match operation_to_restore(&[parent.1.clone()])? {
        Target::This => Ok(parent.0.to_owned()),
        Target::Other(id) => Ok(id.hex()),
    }
}

#[test]
fn redo_follows_the_stack() {
    // Operations a, b and c are undone by d (restores b) and e (restores a),
    // and f redoes e: it restores what was there before e, that is b.
    let operations = [
        ("aa", "commit".to_owned(), ""),
        ("bb", "commit".to_owned(), "aa"),
        ("cc", "commit".to_owned(), "bb"),
        ("dd", "undo: restore to operation bb".to_owned(), "cc"),
        ("ee", "undo: restore to operation aa".to_owned(), "dd"),
        ("ff", redo_description(&id("dd")), "ee"),
    ];
    assert_eq!(redo(&operations, "dd"), Ok("cc".to_owned()));
    assert_eq!(redo(&operations, "ee"), Ok("dd".to_owned()));
    assert_eq!(redo(&operations, "ff"), Ok("cc".to_owned()));
    assert_eq!(redo(&operations, "cc"), Err(RedoError::NothingToRedo));
}

#[test]
fn redo_jumps_over_old_stacks() {
    // From the oldest operation to the newest, A to H are aa to 88.
    let operations = [
        ("aa", "commit".to_owned(), ""),
        ("bb", "commit".to_owned(), "aa"),
        ("cc", "commit".to_owned(), "bb"),
        ("dd", "undo: restore to operation bb".to_owned(), "cc"),
        ("ee", "undo: restore to operation aa".to_owned(), "dd"),
        ("ff", redo_description(&id("dd")), "ee"),
        ("77", "undo: restore to operation aa".to_owned(), "ff"),
        ("88", redo_description(&id("dd")), "77"),
    ];
    // Redoing G restores D, which F had restored.
    assert_eq!(redo(&operations, "77"), Ok("dd".to_owned()));
    // Redoing H, which restored D, redoes D by restoring its parent C.
    assert_eq!(redo(&operations, "88"), Ok("cc".to_owned()));
}

#[test]
fn redo_errors() {
    assert_eq!(
        redo_description(&id("12ab")),
        "redo: restore to operation 12ab"
    );
    assert_eq!(
        operation_to_redo(&redo_description(&id("12ab"))),
        Ok(Target::Other(id("12ab")))
    );
    assert_eq!(operation_to_redo("anything"), Ok(Target::This));
    assert_eq!(
        operation_to_redo("redo: restore to operation xyz"),
        Err(RedoError::BadTarget)
    );
    assert_eq!(
        operation_to_restore(&["redo: restore to operation xyz".to_owned()]),
        Err(RedoError::BadParentTarget)
    );
    assert_eq!(operation_to_restore(&[]), Err(RedoError::NotSingleParent));
    assert_eq!(
        RedoError::BadTarget.message(),
        "Failed to parse ID of target operation in redo-stack"
    );
    assert_eq!(
        RedoError::BadParentTarget.message(),
        "Failed to parse ID of target operation's parent in redo-stack"
    );
    assert_eq!(RedoError::NothingToRedo.message(), "Nothing to redo");
    assert_eq!(
        RedoError::NotSingleParent.message(),
        "Undo operation should have a single parent"
    );
    assert!(RedoError::NothingToRedo.is_user_error());
    assert!(!RedoError::BadTarget.is_user_error());
}

#[test]
fn templates_to_show() {
    assert_eq!(backend_name_line("git"), "git\n");
    assert_eq!(
        show_template(Some("t".to_owned()), Err("unset")),
        Ok("t".to_owned())
    );
    assert_eq!(
        show_template(None, Ok::<String, &str>("s".to_owned())),
        Ok("s".to_owned())
    );
    assert_eq!(show_template(None, Err("unset")), Err("unset"));
}
