//! Filesystem monitor tool interface.
//!
//! Interfaces with a filesystem monitor tool to efficiently query for
//! filesystem updates, without having to crawl the entire working copy. This is
//! particularly useful for large working copies, or for working copies for
//! which it's expensive to materialize files, such those backed by a network or
//! virtualized filesystem.
//!
//! The monitor runs elsewhere: here is what it is asked, and what its answers
//! mean. A path is the list of its components.

use vstd::prelude::*;

use crate::config_layers::ConfigGetError;
use crate::text::concat;
use crate::text::copy_texts;
use crate::text::str_eq;
use crate::text::texts;

verus! {

/// The name under which the trigger is registered.
pub const TRIGGER_NAME: &'static str = "jj-background-monitor";

/// Config for Watchman filesystem monitor (<https://facebook.github.io/watchman/>).
#[derive(Debug, PartialEq, Eq, Structural, Clone, Copy)]
pub struct WatchmanConfig {
    /// Whether to use triggers to monitor for changes in the background.
    pub register_trigger: bool,
}

/// The recognized kinds of filesystem monitors.
#[derive(Debug, PartialEq, Eq)]
pub enum FsmonitorSettings {
    /// The Watchman filesystem monitor (<https://facebook.github.io/watchman/>).
    Watchman(WatchmanConfig),
    /// Only used in tests.
    Test {
        /// The set of changed files to pretend that the filesystem monitor is
        /// reporting.
        changed_files: Vec<String>,
    },
    /// No filesystem monitor. This is the default if nothing is configured, but
    /// also makes it possible to turn off the monitor on a case-by-case basis
    /// when the user gives an option like `--config=fsmonitor.backend=none`;
    /// useful when e.g. doing analysis of snapshot performance.
    Disabled,
}

/// Why settings could not be read.
#[derive(Debug)]
pub enum SettingsError<E> {
    /// A setting could not be read.
    Get(E),
    /// A setting has a value that does not fit.
    Config(ConfigGetError),
}

/// Whether an error says what is wrong with the kind of monitor.
pub open spec fn is_kind_error(error: ConfigGetError, text: Seq<char>) -> bool {
    error matches ConfigGetError::Type { name, error, source_path } && name@
        == "fsmonitor.backend"@ && error@ == text && source_path is None
}

impl FsmonitorSettings {
    /// Creates an `FsmonitorSettings` from what the settings hold for the kind
    /// of monitor, and for whether a trigger is registered.
    pub fn from_settings<E>(
        backend: Result<String, E>,
        register_trigger: Result<bool, E>,
    ) -> (settings: Result<Self, SettingsError<E>>)
        ensures
            match backend {
                Err(error) => settings == Err::<Self, SettingsError<E>>(SettingsError::Get(error)),
                Ok(kind) => if kind@ == "watchman"@ {
                    settings == (match register_trigger {
                        Ok(register_trigger) => Ok::<Self, SettingsError<E>>(
                            FsmonitorSettings::Watchman(WatchmanConfig { register_trigger }),
                        ),
                        Err(error) => Err(SettingsError::Get(error)),
                    })
                } else if kind@ == "test"@ {
                    settings is Err && (settings->Err_0 matches SettingsError::Config(error)
                        && is_kind_error(error, "Cannot use test fsmonitor in real repository"@))
                } else if kind@ == "none"@ {
                    settings == Ok::<Self, SettingsError<E>>(FsmonitorSettings::Disabled)
                } else {
                    settings is Err && (settings->Err_0 matches SettingsError::Config(error)
                        && is_kind_error(error, "Unknown fsmonitor kind: "@ + kind@))
                },
            },
    {
        let kind: String = match backend {
            Ok(kind) => kind,
            Err(error) => {
                return Err(SettingsError::Get(error));
            },
        };
        if str_eq(kind.as_str(), "watchman") {
            match register_trigger {
                Ok(register_trigger) => Ok(
                    FsmonitorSettings::Watchman(WatchmanConfig { register_trigger }),
                ),
                Err(error) => Err(SettingsError::Get(error)),
            }
        } else if str_eq(kind.as_str(), "test") {
            Err(
                SettingsError::Config(
                    ConfigGetError::Type {
                        name: "fsmonitor.backend".to_owned(),
                        error: "Cannot use test fsmonitor in real repository".to_owned(),
                        source_path: None,
                    },
                ),
            )
        } else if str_eq(kind.as_str(), "none") {
            Ok(FsmonitorSettings::Disabled)
        } else {
            Err(
                SettingsError::Config(
                    ConfigGetError::Type {
                        name: "fsmonitor.backend".to_owned(),
                        error: concat("Unknown fsmonitor kind: ", kind.as_str()),
                        source_path: None,
                    },
                ),
            )
        }
    }
}

/// A clock as it is stored with a working copy.
#[derive(Debug, PartialEq, Eq)]
pub enum WatchmanClock {
    /// A clock that only the monitor can read.
    StringClock(String),
    /// A number of seconds.
    UnixTimestamp(i64),
}

/// Represents an instance in time from the perspective of the filesystem
/// monitor.
///
/// This can be used to perform incremental queries. When making a query, the
/// result has an associated "clock" representing the time that the query was
/// made. By passing the same clock into a future query, we inform the
/// filesystem monitor that we only wish to get changed files since the previous
/// point in time.
#[derive(Debug, PartialEq, Eq)]
pub enum Clock {
    /// A clock that only the monitor can read.
    StringClock(String),
    /// A number of seconds.
    UnixTimestamp(i64),
    /// A clock that depends on source control. Such clocks are not supported.
    ScmAware,
}

impl Clock {
    /// The clock that was stored.
    pub open spec fn stored(clock: WatchmanClock) -> Clock {
        match clock {
            WatchmanClock::StringClock(text) => Clock::StringClock(text),
            WatchmanClock::UnixTimestamp(seconds) => Clock::UnixTimestamp(seconds),
        }
    }

    /// Reads a clock that was stored.
    pub fn from_stored(clock: WatchmanClock) -> (result: Clock)
        ensures
            result == Clock::stored(clock),
    {
        match clock {
            WatchmanClock::StringClock(text) => Clock::StringClock(text),
            WatchmanClock::UnixTimestamp(seconds) => Clock::UnixTimestamp(seconds),
        }
    }

    /// Returns the clock as it is stored. Reading it gives the clock back.
    pub fn into_stored(self) -> (clock: WatchmanClock)
        requires
            !(self is ScmAware),
        ensures
            Clock::stored(clock) == self,
    {
        match self {
            Clock::StringClock(text) => WatchmanClock::StringClock(text),
            Clock::UnixTimestamp(seconds) => WatchmanClock::UnixTimestamp(seconds),
            Clock::ScmAware => {
                assert(false);
                WatchmanClock::UnixTimestamp(0)
            },
        }
    }
}

/// What went wrong with the monitor. The cause is told apart.
#[derive(Debug, PartialEq, Eq, Structural, Clone, Copy)]
pub enum MonitorError {
    /// The monitor could not be reached.
    WatchmanConnectError,
    /// The root of the working copy could not be told.
    CanonicalizeRootError,
    /// The monitor could not find the root.
    ResolveRootError,
    /// The monitor could not watch the root.
    CreateWatchError,
    /// The monitor could not answer.
    WatchmanQueryError,
    /// The trigger could not be registered.
    WatchmanTriggerError,
}

impl MonitorError {
    /// The error in words.
    pub open spec fn message_text(&self) -> Seq<char> {
        match self {
            MonitorError::WatchmanConnectError => "Could not connect to Watchman"@,
            MonitorError::CanonicalizeRootError => "Could not canonicalize working copy root path"@,
            MonitorError::ResolveRootError => "Watchman failed to resolve the working copy root path"@,
            MonitorError::CreateWatchError => "Watchman failed to create a watch of the working copy root path"@,
            MonitorError::WatchmanQueryError => "Failed to query Watchman"@,
            MonitorError::WatchmanTriggerError => "Failed to register Watchman trigger"@,
        }
    }

    /// Returns the error in words.
    pub fn message(&self) -> (message: &'static str)
        ensures
            message@ == self.message_text(),
    {
        match self {
            MonitorError::WatchmanConnectError => "Could not connect to Watchman",
            MonitorError::CanonicalizeRootError => "Could not canonicalize working copy root path",
            MonitorError::ResolveRootError => "Watchman failed to resolve the working copy root path",
            MonitorError::CreateWatchError => "Watchman failed to create a watch of the working copy root path",
            MonitorError::WatchmanQueryError => "Failed to query Watchman",
            MonitorError::WatchmanTriggerError => "Failed to register Watchman trigger",
        }
    }
}

/// What is done about the trigger when the monitor is initialized.
#[derive(Debug, PartialEq, Eq, Structural, Clone, Copy)]
pub enum TriggerAction {
    /// It is unregistered.
    Unregister,
    /// It is registered.
    Register,
    /// Nothing.
    Keep,
}

/// Tells whether it has to be found out if the trigger is registered.
/// Registering the trigger causes an unconditional evaluation of the query, so
/// test if it is already registered first.
pub fn must_list_triggers(config: &WatchmanConfig) -> (list: bool)
    ensures
        list == config.register_trigger,
{
    config.register_trigger
}

/// Tells what is done about the trigger.
pub fn trigger_action(config: &WatchmanConfig, is_registered: bool) -> (action: TriggerAction)
    ensures
        action == (if !config.register_trigger {
            TriggerAction::Unregister
        } else if is_registered {
            TriggerAction::Keep
        } else {
            TriggerAction::Register
        }),
{
    if !config.register_trigger {
        TriggerAction::Unregister
    } else if !is_registered {
        TriggerAction::Register
    } else {
        TriggerAction::Keep
    }
}

/// Tells from the names of the registered triggers whether the trigger is one
/// of them.
pub fn is_trigger_registered(triggers: &[String]) -> (registered: bool)
    ensures
        registered == texts(triggers@).contains(TRIGGER_NAME@),
{
    let mut i: usize = 0;
    while i < triggers.len()
        invariant
            i <= triggers@.len(),
            forall|k: int| 0 <= k < i ==> texts(triggers@)[k] != TRIGGER_NAME@,
        decreases triggers@.len() - i,
    {
        assert(texts(triggers@)[i as int] == triggers@[i as int]@);
        if str_eq(triggers[i].as_str(), TRIGGER_NAME) {
            return true;
        }
        i += 1;
    }
    false
}

/// Returns the command that the trigger runs.
pub fn trigger_command() -> (command: Vec<&'static str>)
    ensures
        command@.map_values(|arg: &'static str| arg@) == seq![
            "jj"@,
            "--quiet"@,
            "util"@,
            "snapshot"@,
        ],
{
    let command: Vec<&'static str> = vec!["jj", "--quiet", "util", "snapshot"];
    assert(command@.map_values(|arg: &'static str| arg@) =~= seq![
        "jj"@,
        "--quiet"@,
        "util"@,
        "snapshot"@,
    ]);
    command
}

/// Returns where the trigger's output goes.
pub fn trigger_output(windows: bool) -> (null: &'static str)
    ensures
        null@ == (if windows {
            ">NUL"@
        } else {
            ">/dev/null"@
        }),
{
    if windows {
        ">NUL"
    } else {
        ">/dev/null"
    }
}

/// Returns the changed files that a query reports. None if the working copy
/// must be crawled: the monitor says that if it was a fresh instance, any tree
/// entries that didn't appear in the returned list of changed files are to be
/// deleted.
pub fn changed_files<F>(is_fresh_instance: bool, files: Option<Vec<F>>) -> (paths: Option<Vec<F>>)
    ensures
        match paths {
            None => is_fresh_instance,
            Some(paths) => !is_fresh_instance && paths@ == (match files {
                Some(files) => files@,
                None => Seq::empty(),
            }),
        },
{
    if is_fresh_instance {
        return None;
    }
    match files {
        Some(files) => Some(files),
        None => Some(Vec::new()),
    }
}

/// An expression that selects files.
#[derive(Debug)]
pub enum Expr {
    /// The file has one of the names.
    Name {
        /// The names.
        paths: Vec<&'static str>,
        /// Whether the whole path is compared, and not only its last component.
        wholename: bool,
    },
    /// The file is in a directory, at any depth.
    DirName {
        /// The directory.
        path: &'static str,
    },
    /// One of the expressions selects the file.
    Any(Vec<Expr>),
    /// The expression does not select the file.
    Not(Box<Expr>),
}

impl Expr {
    /// Whether the expression selects the file at a path.
    pub open spec fn selects(self, path: Seq<Seq<char>>) -> bool
        decreases self,
    {
        match self {
            Expr::Name { paths, wholename } => exists|i: int|
                0 <= i < paths@.len() && (#[trigger] paths@[i])@ == path.last() && (wholename
                    ==> path.len() == 1),
            Expr::DirName { path: dir } => path.len() > 1 && path[0] == dir@,
            Expr::Any(exprs) => exists|i: int|
                0 <= i < exprs@.len() && (#[trigger] exprs@[i]).selects(path),
            Expr::Not(expr) => !expr.selects(path),
        }
    }
}

/// Builds the expression that selects what is not in the directories of version
/// control.
pub fn build_exclude_expr() -> (expr: Expr)
    ensures
        forall|path: Seq<Seq<char>>|
            path.len() > 0 ==> (#[trigger] expr.selects(path) <==> path[0] != ".git"@ && path[0]
                != ".jj"@),
{
    // the directories themselves
    let names: Expr = Expr::Name { paths: vec![".git", ".jj"], wholename: true };
    // and all files under the directories
    let git: Expr = Expr::DirName { path: ".git" };
    let jj: Expr = Expr::DirName { path: ".jj" };
    let excludes: Vec<Expr> = vec![names, git, jj];
    let ghost parts = excludes@;
    let expr: Expr = Expr::Not(Box::new(Expr::Any(excludes)));
    proof {
        reveal_with_fuel(Expr::selects, 4);
        assert forall|path: Seq<Seq<char>>| path.len() > 0 implies (#[trigger] expr.selects(path)
            <==> path[0] != ".git"@ && path[0] != ".jj"@) by {
            assert(parts[1] == git && parts[2] == jj && parts[0] == names);
            assert(parts[1].selects(path) <==> path.len() > 1 && path[0] == ".git"@);
            assert(parts[2].selects(path) <==> path.len() > 1 && path[0] == ".jj"@);
            if path.len() == 1 && path[0] == ".git"@ {
                assert(names->paths@[0]@ == path.last());
                assert(parts[0].selects(path));
            }
            if path.len() == 1 && path[0] == ".jj"@ {
                assert(names->paths@[1]@ == path.last());
                assert(parts[0].selects(path));
            }
            if Expr::Any(excludes).selects(path) {
                let i = choose|i: int| 0 <= i < parts.len() && (#[trigger] parts[i]).selects(path);
                assert(parts[i].selects(path));
                if i == 0 {
                    let k = choose|k: int|
                        0 <= k < names->paths@.len() && (#[trigger] names->paths@[k])@
                            == path.last() && (names->wholename ==> path.len() == 1);
                    assert(names->paths@[k]@ == path[0]);
                }
            }
        }
    }
    expr
}

/// Which watch queries are issued against.
#[derive(Debug, PartialEq, Eq)]
pub struct WatchRoot {
    /// Root directory of the watch.
    pub watch_root: Vec<String>,
    /// Path of the working copy root relative to `watch_root`, or `None` if the
    /// working copy root is the watch root itself.
    pub relative_path: Option<Vec<String>>,
}

/// What is asked of the monitor next to find the watch.
#[derive(Debug, PartialEq, Eq)]
pub enum WatchStep {
    /// The watch is known.
    Done(WatchRoot),
    /// The monitor is asked to resolve the root of the working copy.
    Resolve,
    /// The monitor is asked whether a watch can see a directory.
    CheckVisible {
        /// Root directory of the watch.
        watch_root: Vec<String>,
        /// Path of the directory relative to `watch_root`.
        relative_path: Vec<String>,
    },
    /// The monitor is asked to watch a directory.
    CreateWatch(Vec<String>),
}

/// What can be seen of paths.
pub open spec fn paths_view(paths: Seq<Vec<String>>) -> Seq<Seq<Seq<char>>> {
    paths.map_values(|path: Vec<String>| texts(path@))
}

/// Tells whether two paths are the same.
fn same_path(a: &Vec<String>, b: &Vec<String>) -> (same: bool)
    ensures
        same == (texts(a@) == texts(b@)),
{
    if a.len() != b.len() {
        assert(texts(a@).len() != texts(b@).len());
        return false;
    }
    let mut i: usize = 0;
    while i < a.len()
        invariant
            i <= a@.len(),
            a@.len() == b@.len(),
            forall|k: int| 0 <= k < i ==> texts(a@)[k] == texts(b@)[k],
        decreases a@.len() - i,
    {
        if a[i] != b[i] {
            assert(texts(a@)[i as int] == a@[i as int]@);
            assert(texts(b@)[i as int] == b@[i as int]@);
            return false;
        }
        i += 1;
    }
    assert(texts(a@) =~= texts(b@));
    true
}

/// Tells whether a path is among others.
fn contains_path(paths: &[Vec<String>], path: &Vec<String>) -> (found: bool)
    ensures
        found == paths_view(paths@).contains(texts(path@)),
{
    let mut i: usize = 0;
    while i < paths.len()
        invariant
            i <= paths@.len(),
            forall|k: int| 0 <= k < i ==> paths_view(paths@)[k] != texts(path@),
        decreases paths@.len() - i,
    {
        assert(paths_view(paths@)[i as int] == texts(paths@[i as int]@));
        if same_path(&paths[i], path) {
            return true;
        }
        i += 1;
    }
    false
}

/// Begins to find the watch, given the roots of the watches there are. If a
/// watch rooted exactly at the working copy root already exists, it is used
/// directly. The monitor would prefer a watch of an enclosing directory over an
/// exact match, and probing whether the enclosing watch can actually see the
/// working copy costs a query against the enclosing root.
pub fn start_resolving(roots: &[Vec<String>], working_copy_root: &Vec<String>) -> (step: WatchStep)
    ensures
        if paths_view(roots@).contains(texts(working_copy_root@)) {
            step matches WatchStep::Done(watch) && texts(watch.watch_root@) == texts(
                working_copy_root@,
            ) && watch.relative_path is None
        } else {
            step is Resolve
        },
{
    if contains_path(roots, working_copy_root) {
        WatchStep::Done(
            WatchRoot { watch_root: copy_texts(working_copy_root), relative_path: None },
        )
    } else {
        WatchStep::Resolve
    }
}

/// Goes on once the monitor has resolved the root of the working copy: `path`
/// is that root, `watch_root` is the root of the watch, and `relative_path`
/// leads from the latter to the former if they differ.
///
/// A watch of an enclosing directory may be unable to see the working copy at
/// all (e.g. because the working copy is inside a directory that the enclosing
/// watch ignores). The monitor answers queries about an invisible subtree with
/// an empty file list and a valid clock, so every snapshot would silently
/// report no changes.
pub fn root_resolved(
    path: Vec<String>,
    watch_root: Vec<String>,
    relative_path: Option<Vec<String>>,
) -> (step: WatchStep)
    ensures
        step == (match relative_path {
            None => WatchStep::Done(WatchRoot { watch_root: path, relative_path: None }),
            Some(relative_path) => WatchStep::CheckVisible { watch_root, relative_path },
        }),
{
    match relative_path {
        None => WatchStep::Done(WatchRoot { watch_root: path, relative_path: None }),
        Some(relative_path) => WatchStep::CheckVisible { watch_root, relative_path },
    }
}

/// Goes on once it is known whether the watch of an enclosing directory can see
/// the working copy. If it cannot, a dedicated watch is created.
pub fn visibility_known(
    path: Vec<String>,
    watch_root: Vec<String>,
    relative_path: Vec<String>,
    visible: bool,
) -> (step: WatchStep)
    ensures
        step == (if visible {
            WatchStep::Done(WatchRoot { watch_root, relative_path: Some(relative_path) })
        } else {
            WatchStep::CreateWatch(path)
        }),
{
    if visible {
        WatchStep::Done(WatchRoot { watch_root, relative_path: Some(relative_path) })
    } else {
        WatchStep::CreateWatch(path)
    }
}

/// Ends once a dedicated watch was created.
pub fn watch_created(path: Vec<String>) -> (watch: WatchRoot)
    ensures
        watch == (WatchRoot { watch_root: path, relative_path: None }),
{
    WatchRoot { watch_root: path, relative_path: None }
}

/// Tells from the files that a query for a directory has reported whether the
/// watch can see the directory.
///
/// The glob pattern of the query is the path as a literal string, so a path
/// containing glob metacharacters (or one that isn't valid UTF-8) may match
/// other entries. Only an exact match proves visibility; treating anything else
/// as invisible merely errs towards creating a dedicated watch.
pub fn is_path_visible(files: &Option<Vec<Vec<String>>>, relative_path: &Vec<String>) -> (visible:
    bool)
    ensures
        visible == (match files {
            Some(files) => paths_view(files@).contains(texts(relative_path@)),
            None => false,
        }),
{
    match files {
        Some(files) => contains_path(files, relative_path),
        None => false,
    }
}

} // verus!
