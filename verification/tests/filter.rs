//! Filters on file contents.

use jj_core::fake_filter::Args;
use jj_core::filter::create_filter_command;
use jj_core::filter::get_filter_name;
use jj_core::filter::process_outcome;
use jj_core::filter::worker_thread_name;
use jj_core::filter::CommandError;
use jj_core::filter::CommandOutput;
use jj_core::filter::ExitStatus;
use jj_core::filter::FilterAction;
use jj_core::filter::FilterCommand;
use jj_core::filter::FilterDriver;
use jj_core::filter::FilterEvent;
use jj_core::filter::FilterSettings;
use jj_core::filter::FilterStrategy;
use jj_core::filter::FilterType;
use jj_core::filter::IgnoreReason;
use jj_core::filter::State;

fn strings(texts: &[&str]) -> Vec<String> {
    texts.iter().map(|text| text.to_string()).collect()
}

fn strategy(
    name: &str,
    clean: &[&str],
    smudge: &[&str],
    required: bool,
) -> FilterStrategy<&'static str> {
    let driver: Result<FilterDriver, String> = Ok(FilterDriver {
        clean: strings(clean),
        smudge: strings(smudge),
        required,
    });
    let settings =
        FilterSettings::try_from_settings(vec![(name.to_owned(), driver)], Ok(true)).unwrap();
    FilterStrategy::new("/work", settings)
}

/// Runs the filter program that these tests configure.
fn run(command: &FilterCommand, input: &[u8]) -> Result<CommandOutput, CommandError> {
    assert_eq!(command.executable, "fake-filter");
    let has = |flag: &str| command.args.iter().any(|arg| arg == flag);
    let args = Args {
        uppercase: has("--uppercase"),
        abort_on_start: has("--abort-on-start"),
        abort_on_end: has("--abort-on-end"),
    };
    let aborted = args.abort_on_start || args.abort_on_end;
    let output = CommandOutput {
        status: ExitStatus {
            success: !aborted,
            description: if aborted {
                "signal: 6 (SIGABRT)".to_owned()
            } else {
                "exit status: 0".to_owned()
            },
        },
        stdout: if args.abort_on_start {
            vec![]
        } else {
            args.convert(input)
        },
        stderr: vec![],
    };
    process_outcome(Ok(()), Some(output), Some(true))
}

/// Converts contents of a file whose `filter` attribute has the value.
fn convert(
    strategy: &FilterStrategy<&'static str>,
    filter_type: FilterType,
    path: &str,
    filter: &str,
    contents: &str,
) -> (Option<String>, Option<IgnoreReason>) {
    let next = |event: FilterEvent| match filter_type {
        FilterType::Clean => strategy.convert_to_store(path, event),
        FilterType::Smudge => strategy.convert_to_working_copy(path, event),
    };
    let mut action = next(FilterEvent::Start);
    loop {
        match action {
            FilterAction::GetFilterName => {
                let attribute = Some(State::Value(filter.as_bytes().to_vec()));
                action = next(FilterEvent::FilterName(get_filter_name(attribute)));
            }
            FilterAction::RunCommand(command) => {
                let output = run(&command, contents.as_bytes());
                action = next(FilterEvent::CommandFinished {
                    command,
                    input: contents.as_bytes().to_vec(),
                    output,
                });
            }
            FilterAction::PassThrough(reason) => {
                return (Some(contents.to_owned()), Some(reason));
            }
            FilterAction::Converted(output) => {
                return (Some(String::from_utf8(output).unwrap()), None);
            }
            FilterAction::Unconverted(input, reason) => {
                return (Some(String::from_utf8(input).unwrap()), Some(reason));
            }
            FilterAction::Fail(reason) => return (None, Some(reason)),
        }
    }
}

fn check_failed(reason: Option<IgnoreReason>, expected_path: &str, expected_filter: &str) {
    let Some(IgnoreReason::FilterCommandFailed {
        path,
        filter_name,
        err,
    }) = reason
    else {
        panic!("the command did not fail");
    };
    assert_eq!(path, expected_path);
    assert_eq!(filter_name, expected_filter);
    assert_eq!(
        err.message(),
        "The filter process exits with signal: 6 (SIGABRT)"
    );
}

#[test]
fn test_gitattr_filter_test_gitattr_filter_update() {
    let strategy = strategy("fakefilter", &[], &["fake-filter", "--uppercase"], false);
    // There is no clean command, so the contents are stored as they are.
    let (stored, _) = convert(
        &strategy,
        FilterType::Clean,
        "test-file.txt",
        "fakefilter",
        "abcdefg\n",
    );
    let (contents, _) = convert(
        &strategy,
        FilterType::Smudge,
        "test-file.txt",
        "fakefilter",
        &stored.unwrap(),
    );
    assert_eq!(contents.as_deref(), Some("ABCDEFG\n"));
}

#[test]
fn test_gitattr_filter_test_gitattr_filter_update_optional_filter_failed() {
    let strategy = strategy(
        "fakefilter",
        &[],
        &["fake-filter", "--uppercase", "--abort-on-end"],
        false,
    );
    let path = "ajo0gW7EYg85fU23cwNxHf0iIkXlL2.txt";
    let (contents, reason) = convert(
        &strategy,
        FilterType::Smudge,
        path,
        "fakefilter",
        "abcdefg\n",
    );
    check_failed(reason, path, "fakefilter");
    assert_eq!(contents.as_deref(), Some("abcdefg\n"));
}

#[test]
fn test_gitattr_filter_test_gitattr_filter_update_required_filter_failed() {
    let filter_name = "FMRhnsol9Z25oa741Ny2";
    let strategy = strategy(filter_name, &[], &["fake-filter", "--abort-on-start"], true);
    let path = "aA6FPp0ELKsHY0RnF9sl.txt";
    let (contents, reason) = convert(
        &strategy,
        FilterType::Smudge,
        path,
        filter_name,
        "abcdefg\n",
    );
    assert!(contents.is_none());
    check_failed(reason, path, filter_name);
}

#[test]
fn test_gitattr_filter_test_gitattr_filter_snapshot() {
    let strategy = strategy("fakefilter", &["fake-filter", "--uppercase"], &[], false);
    let (stored, _) = convert(
        &strategy,
        FilterType::Clean,
        "test-file.txt",
        "fakefilter",
        "abcdefg\n",
    );
    let (contents, _) = convert(
        &strategy,
        FilterType::Smudge,
        "test-file.txt",
        "fakefilter",
        &stored.unwrap(),
    );
    assert_eq!(contents.as_deref(), Some("ABCDEFG\n"));
}

#[test]
fn test_gitattr_filter_test_gitattr_filter_snapshot_optional_filter_failed() {
    let strategy = strategy(
        "fakefilter",
        &["fake-filter", "--uppercase", "--abort-on-end"],
        &[],
        false,
    );
    let path = "X5x40ZX4o5Z9lAFX1i9Q.txt";
    let (stored, reason) = convert(
        &strategy,
        FilterType::Clean,
        path,
        "fakefilter",
        "abcdefg\n",
    );
    check_failed(reason, path, "fakefilter");
    let (contents, _) = convert(
        &strategy,
        FilterType::Smudge,
        path,
        "fakefilter",
        &stored.unwrap(),
    );
    assert_eq!(contents.as_deref(), Some("abcdefg\n"));
}

#[test]
fn test_gitattr_filter_test_gitattr_filter_snapshot_required_filter_failed() {
    let filter_name = "kfkPEnd65BLHEaSXhE09";
    let strategy = strategy(filter_name, &["fake-filter", "--abort-on-start"], &[], true);
    let path = "3WC00zfLMNRxrAwQA6hy.txt";
    let (contents, reason) = convert(
        &strategy,
        FilterType::Clean,
        path,
        filter_name,
        "abcdefg\n",
    );
    assert!(contents.is_none());
    check_failed(reason, path, filter_name);
}

#[test]
fn test_gitattributes_test_gitattr_filter_update() {
    let strategy = strategy("fakefilter", &[], &["fake-filter", "--uppercase"], false);
    let (contents, reason) = convert(
        &strategy,
        FilterType::Smudge,
        "test-gitattr-filter-file",
        "fakefilter",
        "abcdefg\n",
    );
    assert_eq!(contents.as_deref(), Some("ABCDEFG\n"));
    assert!(reason.is_none());
}

#[test]
fn test_gitattributes_test_gitattr_filter_update_optional_filter_failed() {
    let strategy = strategy("fakefilter", &[], &["fake-filter", "--abort-on-end"], false);
    let (contents, _) = convert(
        &strategy,
        FilterType::Smudge,
        "test-gitattr-filter-file",
        "fakefilter",
        "abcdefg\n",
    );
    assert_eq!(contents.as_deref(), Some("abcdefg\n"));
}

#[test]
fn test_gitattributes_test_gitattr_filter_update_required_filter_failed() {
    let strategy = strategy(
        "fakefilter",
        &[],
        &["fake-filter", "--uppercase", "--abort-on-start"],
        true,
    );
    let (contents, reason) = convert(
        &strategy,
        FilterType::Smudge,
        "test-gitattr-filter-file",
        "fakefilter",
        "abcdefg\n",
    );
    assert!(contents.is_none());
    check_failed(reason, "test-gitattr-filter-file", "fakefilter");
}

#[test]
fn test_gitattributes_test_gitattr_filter_snapshot() {
    let strategy = strategy("fakefilter", &["fake-filter", "--uppercase"], &[], false);
    let (contents, reason) = convert(
        &strategy,
        FilterType::Clean,
        "test-gitattr-filter-file",
        "fakefilter",
        "abcdefg\n",
    );
    assert_eq!(contents.as_deref(), Some("ABCDEFG\n"));
    assert!(reason.is_none());
}

#[test]
fn test_gitattributes_test_gitattr_filter_snapshot_optional_filter_failed() {
    let strategy = strategy("fakefilter", &["fake-filter", "--abort-on-end"], &[], false);
    let (contents, _) = convert(
        &strategy,
        FilterType::Clean,
        "test-gitattr-filter-file",
        "fakefilter",
        "abcdefg\n",
    );
    assert_eq!(contents.as_deref(), Some("abcdefg\n"));
}

#[test]
fn test_gitattributes_test_gitattr_filter_snapshot_required_filter_failed() {
    let strategy = strategy(
        "fakefilter",
        &["fake-filter", "--uppercase", "--abort-on-start"],
        &[],
        true,
    );
    let (contents, _) = convert(
        &strategy,
        FilterType::Clean,
        "test-gitattr-filter-file",
        "fakefilter",
        "abcdefg\n",
    );
    assert!(contents.is_none());
}

#[test]
fn filters_that_do_not_apply() {
    let enabled = strategy("fakefilter", &["fake-filter"], &[], true);
    let reason_for = |strategy: &FilterStrategy<&'static str>, event: FilterEvent| {
        match strategy.convert_to_working_copy("f", event) {
            FilterAction::PassThrough(reason) => reason.message(),
            _ => panic!("the filter applies"),
        }
    };
    let disabled = FilterStrategy::new("/work", FilterSettings {
        enabled: false,
        drivers: vec![],
    });
    assert_eq!(
        reason_for(&disabled, FilterEvent::Start),
        "Filters are disabled by settings"
    );
    assert_eq!(
        reason_for(&enabled, FilterEvent::FilterName(None)),
        "No filter is associated with the file"
    );
    assert_eq!(
        reason_for(&enabled, FilterEvent::FilterName(Some(b"other".to_vec()))),
        "The filter driver other is not defined"
    );
    // A name that is not UTF-8 matches no driver.
    assert_eq!(
        reason_for(&enabled, FilterEvent::FilterName(Some(b"x\xffy".to_vec()))),
        "The filter driver x\u{fffd}y is not defined"
    );
    assert_eq!(
        reason_for(
            &enabled,
            FilterEvent::FilterName(Some(b"fakefilter".to_vec()))
        ),
        "The fakefilter filter doesn't define the command for smudge"
    );
    assert!(get_filter_name(Some(State::NoValue)).is_none());
    assert!(get_filter_name(None).is_none());
}

#[test]
fn settings_of_drivers() {
    let driver = || FilterDriver {
        clean: vec![],
        smudge: vec![],
        required: false,
    };
    let error = FilterSettings::try_from_settings(
        vec![
            ("a".to_owned(), Ok(driver())),
            ("b".to_owned(), Err("first")),
            ("c".to_owned(), Err("second")),
        ],
        Err("enabled"),
    );
    assert_eq!(error.unwrap_err(), "first");
    let error =
        FilterSettings::try_from_settings(vec![("a".to_owned(), Ok(driver()))], Err("enabled"));
    assert_eq!(error.unwrap_err(), "enabled");
    let settings = FilterSettings::try_from_settings::<String>(
        vec![("a".to_owned(), Ok(driver())), ("b".to_owned(), Ok(driver()))],
        Ok(false),
    )
    .unwrap();
    assert!(!settings.enabled);
    let names: Vec<&String> = settings.drivers.iter().map(|(name, _)| name).collect();
    assert_eq!(names, ["a", "b"]);
}

#[test]
fn later_driver_replaces_earlier_one() {
    let driver = |program: &str| FilterDriver {
        clean: strings(&[program]),
        smudge: vec![],
        required: false,
    };
    let settings = FilterSettings::try_from_settings::<String>(
        vec![
            ("a".to_owned(), Ok(driver("first"))),
            ("b".to_owned(), Ok(driver("other"))),
            ("a".to_owned(), Ok(driver("second"))),
        ],
        Ok(true),
    )
    .unwrap();
    let strategy = FilterStrategy::new("/work", settings);
    assert_eq!(strategy.working_copy_path, "/work");
    let event = FilterEvent::FilterName(Some(b"a".to_vec()));
    match strategy.convert_to_store("f", event) {
        FilterAction::RunCommand(command) => assert_eq!(command.executable, "second"),
        _ => panic!("the filter does not apply"),
    }
}

#[test]
fn paths_are_substituted_in_arguments() {
    let command = strings(&["prog$path", "--in=$path", "$path:$path", "plain", "$pat"]);
    let (executable, args) = create_filter_command(&command, "dir/file").unwrap();
    assert_eq!(executable, "prog$path");
    assert_eq!(args, ["--in=dir/file", "dir/file:dir/file", "plain", "$pat"]);
    assert!(create_filter_command(&[], "dir/file").is_none());
}

fn some_output() -> CommandOutput {
    CommandOutput {
        status: ExitStatus {
            success: true,
            description: "exit status: 0".to_owned(),
        },
        stdout: b"out".to_vec(),
        stderr: b"err".to_vec(),
    }
}

#[test]
fn outcomes_of_processes() {
    let error = process_outcome(Err("no such file".to_owned()), None, None).unwrap_err();
    assert_eq!(
        error.message(),
        "Failed to spawn the filter process: no such file"
    );
    let error = process_outcome(Ok(()), None, Some(true)).unwrap_err();
    assert!(matches!(error, CommandError::OutputWorkerThreadFailed));
    assert_eq!(
        error.message(),
        "The output worker thread fails to wait for the child process and send the output"
    );
    let error = process_outcome(Ok(()), Some(some_output()), Some(false)).unwrap_err();
    assert!(
        matches!(&error, CommandError::StdinWorkerThreadFailed { stderr } if stderr == b"err")
    );
    assert_eq!(
        error.message(),
        "The stdin worker thread fails to send all the message to the child process"
    );
    let output = process_outcome(Ok(()), Some(some_output()), None).unwrap();
    assert_eq!(output.stdout, b"out");
    let reason = IgnoreReason::FilterCommandFailed {
        path: "p".to_owned(),
        filter_name: "f".to_owned(),
        err: CommandError::OutputWorkerThreadFailed,
    };
    assert_eq!(
        reason.message(),
        "The filter command fails: The output worker thread fails to wait for the child process \
         and send the output"
    );
    assert_eq!(FilterType::Clean.name(), "clean");
}

#[test]
fn names_of_worker_threads() {
    assert_eq!(worker_thread_name(Some("clean f"), "stdin"), "clean f stdin");
    assert_eq!(worker_thread_name(None, "output"), "output");
}
