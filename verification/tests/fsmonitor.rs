//! Filesystem monitors.

use jj_core::config_layers::ConfigGetError;
use jj_core::fsmonitor::build_exclude_expr;
use jj_core::fsmonitor::changed_files;
use jj_core::fsmonitor::is_path_visible;
use jj_core::fsmonitor::is_trigger_registered;
use jj_core::fsmonitor::must_list_triggers;
use jj_core::fsmonitor::root_resolved;
use jj_core::fsmonitor::start_resolving;
use jj_core::fsmonitor::trigger_action;
use jj_core::fsmonitor::trigger_command;
use jj_core::fsmonitor::trigger_output;
use jj_core::fsmonitor::visibility_known;
use jj_core::fsmonitor::watch_created;
use jj_core::fsmonitor::Clock;
use jj_core::fsmonitor::Expr;
use jj_core::fsmonitor::FsmonitorSettings;
use jj_core::fsmonitor::MonitorError;
use jj_core::fsmonitor::SettingsError;
use jj_core::fsmonitor::TriggerAction;
use jj_core::fsmonitor::WatchStep;
use jj_core::fsmonitor::WatchmanClock;
use jj_core::fsmonitor::WatchmanConfig;

fn path(text: &str) -> Vec<String> {
    text.split('/').map(|part| part.to_owned()).collect()
}

fn settings(
    kind: &str,
    register_trigger: Result<bool, &'static str>,
) -> Result<FsmonitorSettings, SettingsError<&'static str>> {
    FsmonitorSettings::from_settings(Ok(kind.to_owned()), register_trigger)
}

fn kind_error(kind: &str) -> String {
    match settings(kind, Ok(true)) {
        Err(SettingsError::Config(ConfigGetError::Type {
            name,
            error,
            source_path: None,
        })) => {
            assert_eq!(name, "fsmonitor.backend");
            error
        }
        _ => panic!("the kind is known"),
    }
}

#[test]
fn settings_of_the_monitor() {
    assert!(matches!(
        settings("watchman", Ok(true)),
        Ok(FsmonitorSettings::Watchman(WatchmanConfig {
            register_trigger: true
        }))
    ));
    assert!(matches!(
        settings("watchman", Err("unset")),
        Err(SettingsError::Get("unset"))
    ));
    assert!(matches!(
        settings("none", Err("unset")),
        Ok(FsmonitorSettings::Disabled)
    ));
    assert!(matches!(
        FsmonitorSettings::from_settings(Err("backend"), Err("unset")),
        Err(SettingsError::Get("backend"))
    ));
    assert_eq!(
        kind_error("test"),
        "Cannot use test fsmonitor in real repository"
    );
    assert_eq!(kind_error("other"), "Unknown fsmonitor kind: other");
}

#[test]
fn clocks_are_read_back() {
    for clock in [
        WatchmanClock::StringClock("c:1".to_owned()),
        WatchmanClock::UnixTimestamp(-3),
    ] {
        let text = format!("{clock:?}");
        let read_back = Clock::from_stored(clock).into_stored();
        assert_eq!(format!("{read_back:?}"), text);
    }
}

#[test]
fn triggers() {
    let on = WatchmanConfig {
        register_trigger: true,
    };
    let off = WatchmanConfig {
        register_trigger: false,
    };
    assert!(must_list_triggers(&on));
    assert!(!must_list_triggers(&off));
    assert_eq!(trigger_action(&on, true), TriggerAction::Keep);
    assert_eq!(trigger_action(&on, false), TriggerAction::Register);
    assert_eq!(trigger_action(&off, true), TriggerAction::Unregister);
    assert!(is_trigger_registered(&[
        "other".to_owned(),
        "jj-background-monitor".to_owned()
    ]));
    assert!(!is_trigger_registered(&["other".to_owned()]));
    assert_eq!(trigger_command(), ["jj", "--quiet", "util", "snapshot"]);
    assert_eq!(trigger_output(false), ">/dev/null");
    assert_eq!(trigger_output(true), ">NUL");
}

#[test]
fn files_that_changed() {
    assert_eq!(changed_files(true, Some(vec![1])), None);
    assert_eq!(changed_files(false, Some(vec![1, 2])), Some(vec![1, 2]));
    assert_eq!(changed_files::<u64>(false, None), Some(vec![]));
}

/// Whether the expression selects a path, as Watchman does.
fn selects(expr: &Expr, path: &[String]) -> bool {
    match expr {
        Expr::Name { paths, wholename } => {
            paths.contains(&path[path.len() - 1].as_str()) && (!*wholename || path.len() == 1)
        }
        Expr::DirName { path: dir } => path.len() > 1 && path[0] == *dir,
        Expr::Any(exprs) => exprs.iter().any(|expr| selects(expr, path)),
        Expr::Not(expr) => !selects(expr, path),
    }
}

#[test]
fn repositories_are_not_watched() {
    let expr = build_exclude_expr();
    for excluded in [".git", ".jj", ".git/HEAD", ".jj/repo/store"] {
        assert!(!selects(&expr, &path(excluded)));
    }
    for watched in ["src", "src/.git", "src/.jj/x", ".gitignore"] {
        assert!(selects(&expr, &path(watched)));
    }
}

#[test]
fn roots_to_watch() {
    // A root that is watched already is used.
    match start_resolving(&[path("a"), path("a/b")], &path("a/b")) {
        WatchStep::Done(watch) => {
            assert_eq!(watch.watch_root, path("a/b"));
            assert!(watch.relative_path.is_none());
        }
        _ => panic!("the root is not used"),
    }
    assert!(matches!(
        start_resolving(&[path("a")], &path("a/b")),
        WatchStep::Resolve
    ));
    // Without a relative path, the path itself is watched.
    assert!(matches!(
        root_resolved(path("a/b"), path("a/b"), None),
        WatchStep::Done(watch) if watch.watch_root == path("a/b")
    ));
    assert!(matches!(
        root_resolved(path("a/b"), path("a"), Some(path("b"))),
        WatchStep::CheckVisible { watch_root, relative_path }
            if watch_root == path("a") && relative_path == path("b")
    ));
    assert!(matches!(
        visibility_known(path("a/b"), path("a"), path("b"), true),
        WatchStep::Done(watch)
            if watch.watch_root == path("a") && watch.relative_path == Some(path("b"))
    ));
    assert!(matches!(
        visibility_known(path("a/b"), path("a"), path("b"), false),
        WatchStep::CreateWatch(watched) if watched == path("a/b")
    ));
    let watch = watch_created(path("a/b"));
    assert_eq!(watch.watch_root, path("a/b"));
    assert!(watch.relative_path.is_none());
}

#[test]
fn visible_paths() {
    let files = Some(vec![path("a"), path("a/b")]);
    assert!(is_path_visible(&files, &path("a/b")));
    assert!(!is_path_visible(&files, &path("b")));
    assert!(!is_path_visible(&None, &path("a")));
}

#[test]
fn errors_of_the_monitor() {
    let messages = [
        (
            MonitorError::WatchmanConnectError,
            "Could not connect to Watchman",
        ),
        (
            MonitorError::CanonicalizeRootError,
            "Could not canonicalize working copy root path",
        ),
        (
            MonitorError::ResolveRootError,
            "Watchman failed to resolve the working copy root path",
        ),
        (
            MonitorError::CreateWatchError,
            "Watchman failed to create a watch of the working copy root path",
        ),
        (MonitorError::WatchmanQueryError, "Failed to query Watchman"),
        (
            MonitorError::WatchmanTriggerError,
            "Failed to register Watchman trigger",
        ),
    ];
    for (error, message) in messages {
        assert_eq!(error.message(), message);
    }
}
