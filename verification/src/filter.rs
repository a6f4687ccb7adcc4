//! Hooks on file contents when snapshotting and updating a working copy,
//! similar to the filter gitattributes feature.
//!
//! A conversion is driven from outside: [`FilterStrategy`] is told what has
//! happened and says what has to be done next. It never reads a file or runs a
//! command itself.

use bstr::ByteSlice;
use vstd::prelude::*;
use vstd::utf8::decode_utf8;
use vstd::utf8::encode_utf8;
use vstd::utf8::valid_utf8;

use crate::text::concat;
use crate::text::concat3;
use crate::text::replace_all;
use crate::text::replaced;
use crate::text::texts;

verus! {

/// What `bstr` makes of bytes that need not be valid UTF-8.
pub uninterp spec fn lossy_text(bytes: Seq<u8>) -> Seq<char>;

/// `bstr::ByteSlice::to_str`: the bytes as a string, if they are valid UTF-8.
#[verifier::external_body]
pub(crate) fn bytes_to_str(bytes: &[u8]) -> (text: Option<String>)
    ensures
        text is Some <==> valid_utf8(bytes@),
        text matches Some(s) ==> encode_utf8(s@) == bytes@,
{
    bytes.to_str().ok().map(|text| text.to_owned())
}

/// `bstr::ByteSlice::to_str_lossy`: the bytes as a string, where what is not
/// valid UTF-8 is replaced. What it is replaced with, is only named here.
#[verifier::external_body]
pub(crate) fn bytes_to_str_lossy(bytes: &[u8]) -> (text: String)
    ensures
        text@ == lossy_text(bytes@),
        valid_utf8(bytes@) ==> text@ == decode_utf8(bytes@),
{
    bytes.to_str_lossy().into_owned()
}

/// The definition of a filter driver.
#[derive(Debug)]
pub struct FilterDriver {
    /// The command executes on snapshot, i.e., write the file from the disk to
    /// the store.
    ///
    /// The `$path` substring will be replaced with the path of the file the
    /// filter is working on. If it is empty, this command is left unspecified.
    pub clean: Vec<String>,
    /// The command executes on update, i.e., write the file from the store to
    /// the disk. It is given like `clean`.
    pub smudge: Vec<String>,
    /// Whether a failure of the filter command is an error. If this is false,
    /// the failure makes the filter a no-op passthru.
    pub required: bool,
}

/// Filter user settings.
#[derive(Debug)]
pub struct FilterSettings {
    /// Whether filters are applied at all.
    pub enabled: bool,
    /// The filter drivers with their names.
    pub drivers: Vec<(String, FilterDriver)>,
}

/// The driver of the given name. A driver replaces those of the same name
/// before it.
pub open spec fn find_driver(drivers: Seq<(String, FilterDriver)>, name: Seq<char>) -> Option<
    FilterDriver,
>
    decreases drivers.len(),
{
    if drivers.len() == 0 {
        None
    } else if drivers.last().0@ == name {
        Some(drivers.last().1)
    } else {
        find_driver(drivers.drop_last(), name)
    }
}

/// The first driver that could not be read, as the place of it.
pub open spec fn first_failure<E>(drivers: Seq<(String, Result<FilterDriver, E>)>) -> Option<int>
    decreases drivers.len(),
{
    if drivers.len() == 0 {
        None
    } else {
        match first_failure(drivers.drop_last()) {
            Some(i) => Some(i),
            None => if drivers.last().1 is Err {
                Some(drivers.len() - 1)
            } else {
                None
            },
        }
    }
}

/// The failure that counts is the first one.
pub proof fn lemma_first_failure<E>(drivers: Seq<(String, Result<FilterDriver, E>)>)
    ensures
        match first_failure(drivers) {
            Some(i) => {
                &&& 0 <= i < drivers.len()
                &&& drivers[i].1 is Err
                &&& forall|k: int| 0 <= k < i ==> (#[trigger] drivers[k]).1 is Ok
            },
            None => forall|k: int| 0 <= k < drivers.len() ==> (#[trigger] drivers[k]).1 is Ok,
        },
    decreases drivers.len(),
{
    if drivers.len() > 0 {
        let front = drivers.drop_last();
        lemma_first_failure(front);
        assert forall|k: int| 0 <= k < front.len() implies #[trigger] drivers[k] == front[k] by {}
    }
}

impl FilterSettings {
    /// Puts together the settings that were read: what was found of each
    /// driver, and whether filters are enabled. The first driver that could
    /// not be read is the error, or else the missing switch.
    pub fn try_from_settings<E>(
        drivers: Vec<(String, Result<FilterDriver, E>)>,
        enabled: Result<bool, E>,
    ) -> (settings: Result<FilterSettings, E>)
        ensures
            settings is Ok <==> first_failure(drivers@) is None && enabled is Ok,
            first_failure(drivers@) matches Some(i) ==> settings == Err::<FilterSettings, E>(
                drivers@[i].1->Err_0,
            ),
            first_failure(drivers@) is None && enabled is Err ==> settings == Err::<
                FilterSettings,
                E,
            >(enabled->Err_0),
            settings matches Ok(s) ==> s.enabled == enabled->Ok_0 && s.drivers@
                == drivers@.map_values(
                |entry: (String, Result<FilterDriver, E>)| (entry.0, entry.1->Ok_0),
            ),
    {
        let ghost all = drivers@;
        let ghost pairs = all.map_values(
            |entry: (String, Result<FilterDriver, E>)| (entry.0, entry.1->Ok_0),
        );
        let mut remaining: Vec<(String, Result<FilterDriver, E>)> = drivers;
        let mut found: Vec<(String, FilterDriver)> = Vec::new();
        proof {
            lemma_first_failure(all);
        }
        let len: usize = remaining.len();
        let mut i: usize = 0;
        while i < len
            invariant
                i <= len,
                len == all.len(),
                all == drivers@,
                pairs == all.map_values(
                    |entry: (String, Result<FilterDriver, E>)| (entry.0, entry.1->Ok_0),
                ),
                remaining@ == all.skip(i as int),
                found@ == pairs.take(i as int),
                forall|k: int| 0 <= k < i ==> (#[trigger] all[k]).1 is Ok,
            decreases len - i,
        {
            proof {
                lemma_first_failure(all);
            }
            let (name, driver) = remaining.remove(0);
            assert(all.skip(i as int)[0] == all[i as int]);
            match driver {
                Ok(driver) => {
                    found.push((name, driver));
                },
                Err(error) => {
                    assert(all[i as int].1 is Err);
                    return Err(error);
                },
            }
            i += 1;
            assert(remaining@ =~= all.skip(i as int));
            assert(found@ =~= pairs.take(i as int));
        }
        proof {
            lemma_first_failure(all);
            assert(pairs.take(len as int) =~= pairs);
        }
        match enabled {
            Ok(enabled) => Ok(FilterSettings { enabled, drivers: found }),
            Err(error) => Err(error),
        }
    }

    fn driver(&self, name: &String) -> (found: Option<&FilterDriver>)
        ensures
            match found {
                Some(driver) => find_driver(self.drivers@, name@) == Some(*driver),
                None => find_driver(self.drivers@, name@) is None,
            },
    {
        let ghost all = self.drivers@;
        let mut i: usize = self.drivers.len();
        assert(all.take(i as int) =~= all);
        while i > 0
            invariant
                all == self.drivers@,
                i <= all.len(),
                find_driver(all, name@) == find_driver(all.take(i as int), name@),
            decreases i,
        {
            i -= 1;
            assert(all.take(i + 1).drop_last() =~= all.take(i as int));
            assert(all.take(i + 1).last() == all[i as int]);
            if self.drivers[i].0 == *name {
                return Some(&self.drivers[i].1);
            }
        }
        None
    }
}

/// The state of a git attribute of a path.
#[derive(Debug)]
pub enum State {
    /// The attribute is set, unset or left unspecified.
    NoValue,
    /// The attribute has a value.
    Value(Vec<u8>),
}

/// Returns the name of the filter driver of a path, given what was found of its
/// `filter` attribute. There is none if the attribute is not set to a value.
pub fn get_filter_name(attribute: Option<State>) -> (name: Option<Vec<u8>>)
    ensures
        name == (match attribute {
            Some(State::Value(driver_name)) => Some(driver_name),
            _ => None,
        }),
{
    match attribute {
        Some(State::Value(driver_name)) => Some(driver_name),
        _ => None,
    }
}

/// Indicate whether the filter is a clean filter or a smudge filter.
#[derive(Clone, Copy, PartialEq, Eq, Structural, Debug)]
pub enum FilterType {
    /// A clean filter.
    Clean,
    /// A smudge filter.
    Smudge,
}

impl FilterType {
    /// The name of the filter type.
    pub open spec fn name_text(self) -> Seq<char> {
        match self {
            FilterType::Clean => "clean"@,
            FilterType::Smudge => "smudge"@,
        }
    }

    /// Returns the name of the filter type.
    pub fn name(&self) -> (name: &'static str)
        ensures
            name@ == self.name_text(),
    {
        match self {
            FilterType::Clean => "clean",
            FilterType::Smudge => "smudge",
        }
    }
}

/// How a process ended.
#[derive(Debug)]
pub struct ExitStatus {
    /// Whether the process was successful.
    pub success: bool,
    /// The status in words.
    pub description: String,
}

/// What a process that has ended left behind.
#[derive(Debug)]
pub struct CommandOutput {
    /// How the process ended.
    pub status: ExitStatus,
    /// What it wrote to its standard output.
    pub stdout: Vec<u8>,
    /// What it wrote to its standard error.
    pub stderr: Vec<u8>,
}

/// The error type for the filter child process operation.
#[derive(Debug)]
pub enum CommandError {
    /// Failed to spawn the filter process.
    ProcessCreationError(String),
    /// The output worker thread returned before it could send the output of
    /// the child process.
    OutputWorkerThreadFailed,
    /// The stdin worker thread returned before it could send all the contents
    /// to the child process.
    StdinWorkerThreadFailed {
        /// What the process wrote to its standard error.
        stderr: Vec<u8>,
    },
    /// The filter process exits with unsuccessful status.
    BadExitStatus {
        /// How the process ended.
        status: ExitStatus,
        /// What the process wrote to its standard error.
        stderr: Vec<u8>,
    },
}

impl CommandError {
    /// The error in words.
    pub open spec fn message_text(&self) -> Seq<char> {
        match *self {
            CommandError::ProcessCreationError(error) => "Failed to spawn the filter process: "@
                + error@,
            CommandError::OutputWorkerThreadFailed => "The output worker thread fails to wait for the child process and send the output"@,
            CommandError::StdinWorkerThreadFailed { .. } => "The stdin worker thread fails to send all the message to the child process"@,
            CommandError::BadExitStatus { status, .. } => "The filter process exits with "@
                + status.description@,
        }
    }

    /// Returns the error in words.
    pub fn message(&self) -> (message: String)
        ensures
            message@ == self.message_text(),
    {
        match self {
            CommandError::ProcessCreationError(error) => concat(
                "Failed to spawn the filter process: ",
                error.as_str(),
            ),
            CommandError::OutputWorkerThreadFailed => "The output worker thread fails to wait for the child process and send the output".to_owned(),
            CommandError::StdinWorkerThreadFailed { .. } => "The stdin worker thread fails to send all the message to the child process".to_owned(),
            CommandError::BadExitStatus { status, .. } => concat(
                "The filter process exits with ",
                status.description.as_str(),
            ),
        }
    }
}

/// Reason why we don't apply the filter to the file.
#[derive(Debug)]
pub enum IgnoreReason {
    /// The user setting disables the filter feature.
    DisabledBySettings,
    /// No filter is associated with the file.
    FilterNotDefined,
    /// The filter driver associated with the path can't be found.
    DriverNotFound {
        /// The name of the expected filter driver.
        filter_name: String,
    },
    /// No command is defined for clean and/or smudge.
    CommandNotDefined {
        /// The name of the filter driver.
        filter_name: String,
        /// The type of the command. Clean or smudge.
        filter_type: FilterType,
    },
    /// Failed to execute the filter command.
    FilterCommandFailed {
        /// The path to the file when the filter command fails.
        path: String,
        /// The name of the filter driver that fails.
        filter_name: String,
        /// The source of the filter command failure.
        err: CommandError,
    },
}

impl IgnoreReason {
    /// The reason in words.
    pub open spec fn message_text(&self) -> Seq<char> {
        match *self {
            IgnoreReason::DisabledBySettings => "Filters are disabled by settings"@,
            IgnoreReason::FilterNotDefined => "No filter is associated with the file"@,
            IgnoreReason::DriverNotFound { filter_name } => "The filter driver "@ + filter_name@
                + " is not defined"@,
            IgnoreReason::CommandNotDefined { filter_name, filter_type } => "The "@ + filter_name@
                + " filter doesn't define the command for "@ + filter_type.name_text(),
            IgnoreReason::FilterCommandFailed { err, .. } => "The filter command fails: "@
                + err.message_text(),
        }
    }

    /// Returns the reason in words.
    pub fn message(&self) -> (message: String)
        ensures
            message@ == self.message_text(),
    {
        match self {
            IgnoreReason::DisabledBySettings => "Filters are disabled by settings".to_owned(),
            IgnoreReason::FilterNotDefined => "No filter is associated with the file".to_owned(),
            IgnoreReason::DriverNotFound { filter_name } => concat3(
                "The filter driver ",
                filter_name.as_str(),
                " is not defined",
            ),
            IgnoreReason::CommandNotDefined { filter_name, filter_type } => {
                let mut message: String = concat3(
                    "The ",
                    filter_name.as_str(),
                    " filter doesn't define the command for ",
                );
                message.append(filter_type.name());
                message
            },
            IgnoreReason::FilterCommandFailed { err, .. } => concat(
                "The filter command fails: ",
                err.message().as_str(),
            ),
        }
    }
}

/// A command of a filter driver for one file.
#[derive(Debug)]
pub struct FilterCommand {
    /// The program to run, in the root of the working copy.
    pub executable: String,
    /// The arguments of the program.
    pub args: Vec<String>,
    /// The name of the filter driver.
    pub filter_name: String,
    /// Whether a failure of the command is an error.
    pub required: bool,
}

/// What has happened in a conversion.
#[derive(Debug)]
pub enum FilterEvent {
    /// The conversion begins.
    Start,
    /// The name of the filter of the file has been looked up.
    FilterName(Option<Vec<u8>>),
    /// The filter command was run on the contents of the file.
    CommandFinished {
        /// The command.
        command: FilterCommand,
        /// The contents of the file.
        input: Vec<u8>,
        /// What came out.
        output: Result<CommandOutput, CommandError>,
    },
}

/// What has to be done next in a conversion.
#[derive(Debug)]
pub enum FilterAction {
    /// Look up the name of the filter of the file.
    GetFilterName,
    /// Read the contents of the file and run the command on them.
    RunCommand(FilterCommand),
    /// The contents stay as they are, and have not been read.
    PassThrough(IgnoreReason),
    /// The contents have been converted.
    Converted(Vec<u8>),
    /// The contents stay as they were read.
    Unconverted(Vec<u8>, IgnoreReason),
    /// The conversion fails.
    Fail(IgnoreReason),
}

/// The type to apply the filter conversion.
#[derive(Debug)]
pub struct FilterStrategy<P> {
    /// The path to the working copy root, in which filter commands run.
    pub working_copy_path: P,
    /// The user settings that control the behavior of the filter feature.
    pub settings: FilterSettings,
}

/// The command that a driver has for a type of conversion.
pub open spec fn command_template(driver: FilterDriver, filter_type: FilterType) -> Seq<
    Seq<char>,
> {
    texts(
        match filter_type {
            FilterType::Clean => driver.clean@,
            FilterType::Smudge => driver.smudge@,
        },
    )
}

/// The arguments of a command template for a file.
pub open spec fn filter_args(template: Seq<Seq<char>>, path: Seq<char>) -> Seq<Seq<char>> {
    template.skip(1).map_values(|arg: Seq<char>| replaced(arg, "$path"@, path))
}

/// What is to be done once the name of the filter is known.
pub open spec fn is_action_for_name(
    settings: FilterSettings,
    path: Seq<char>,
    filter_type: FilterType,
    name: Option<Vec<u8>>,
    action: FilterAction,
) -> bool {
    match name {
        None => action is PassThrough && action->PassThrough_0 is FilterNotDefined,
        Some(bytes) => if !valid_utf8(bytes@) {
            &&& action matches FilterAction::PassThrough(reason)
            &&& reason matches IgnoreReason::DriverNotFound { filter_name }
            &&& filter_name@ == lossy_text(bytes@)
        } else {
            match find_driver(settings.drivers@, decode_utf8(bytes@)) {
                None => {
                    &&& action matches FilterAction::PassThrough(reason)
                    &&& reason matches IgnoreReason::DriverNotFound { filter_name }
                    &&& filter_name@ == decode_utf8(bytes@)
                },
                Some(driver) => {
                    let template = command_template(driver, filter_type);
                    if template.len() == 0 {
                        &&& action matches FilterAction::PassThrough(reason)
                        &&& reason matches IgnoreReason::CommandNotDefined {
                            filter_name,
                            filter_type: undefined,
                        }
                        &&& filter_name@ == decode_utf8(bytes@)
                        &&& undefined == filter_type
                    } else {
                        &&& action matches FilterAction::RunCommand(command)
                        &&& command.executable@ == template[0]
                        &&& texts(command.args@) == filter_args(template, path)
                        &&& command.filter_name@ == decode_utf8(bytes@)
                        &&& command.required == driver.required
                    }
                },
            }
        },
    }
}

/// Whether the command left converted contents behind.
pub open spec fn command_succeeded(output: Result<CommandOutput, CommandError>) -> bool {
    output is Ok && output->Ok_0.status.success
}

/// Why the command left no converted contents behind.
pub open spec fn is_command_failure(
    output: Result<CommandOutput, CommandError>,
    error: CommandError,
) -> bool {
    match output {
        Err(e) => error == e,
        Ok(o) => error matches CommandError::BadExitStatus { status, stderr } && status == o.status
            && stderr == o.stderr,
    }
}

/// What is to be done once the command has been run.
pub open spec fn is_action_for_output(
    path: Seq<char>,
    command: FilterCommand,
    input: Vec<u8>,
    output: Result<CommandOutput, CommandError>,
    action: FilterAction,
) -> bool {
    if command_succeeded(output) {
        action == FilterAction::Converted(output->Ok_0.stdout)
    } else {
        let reason = match action {
            FilterAction::Fail(reason) => reason,
            FilterAction::Unconverted(_, reason) => reason,
            _ => IgnoreReason::DisabledBySettings,
        };
        &&& if command.required {
            action is Fail
        } else {
            action is Unconverted && action->Unconverted_0 == input
        }
        &&& reason matches IgnoreReason::FilterCommandFailed { path: p, filter_name, err }
        &&& p@ == path
        &&& filter_name == command.filter_name
        &&& is_command_failure(output, err)
    }
}

impl<P> FilterStrategy<P> {
    /// Create a [`FilterStrategy`].
    ///
    /// * `working_copy_path`: The path to the working copy root. Used to set
    ///   the current working directory of the filter command.
    /// * `settings`: The user settings that control the behavior of the filter
    ///   feature.
    pub fn new(working_copy_path: P, settings: FilterSettings) -> (strategy: Self)
        ensures
            strategy.working_copy_path == working_copy_path,
            strategy.settings == settings,
    {
        FilterStrategy { working_copy_path, settings }
    }

    /// Whether `action` is what has to be done after `event`.
    pub open spec fn is_next_action(
        &self,
        path: Seq<char>,
        filter_type: FilterType,
        event: FilterEvent,
        action: FilterAction,
    ) -> bool {
        match event {
            FilterEvent::Start => if self.settings.enabled {
                action is GetFilterName
            } else {
                action is PassThrough && action->PassThrough_0 is DisabledBySettings
            },
            FilterEvent::FilterName(name) => is_action_for_name(
                self.settings,
                path,
                filter_type,
                name,
                action,
            ),
            FilterEvent::CommandFinished { command, input, output } => is_action_for_output(
                path,
                command,
                input,
                output,
                action,
            ),
        }
    }

    fn convert(&self, path: &str, filter_type: FilterType, event: FilterEvent) -> (action:
        FilterAction)
        ensures
            self.is_next_action(path@, filter_type, event, action),
    {
        match event {
            FilterEvent::Start => if self.settings.enabled {
                FilterAction::GetFilterName
            } else {
                FilterAction::PassThrough(IgnoreReason::DisabledBySettings)
            },
            FilterEvent::FilterName(None) => FilterAction::PassThrough(
                IgnoreReason::FilterNotDefined,
            ),
            FilterEvent::FilterName(Some(bytes)) => {
                // The filter drivers are defined in a toml file, which only
                // accepts UTF-8 strings. Another name matches no driver.
                let driver_name: String = match bytes_to_str(bytes.as_slice()) {
                    Some(name) => name,
                    None => {
                        return FilterAction::PassThrough(
                            IgnoreReason::DriverNotFound {
                                filter_name: bytes_to_str_lossy(bytes.as_slice()),
                            },
                        );
                    },
                };
                proof {
                    vstd::utf8::encode_utf8_decode_utf8(driver_name@);
                }
                let driver: &FilterDriver = match self.settings.driver(&driver_name) {
                    Some(driver) => driver,
                    None => {
                        return FilterAction::PassThrough(
                            IgnoreReason::DriverNotFound { filter_name: driver_name },
                        );
                    },
                };
                let template: &Vec<String> = match filter_type {
                    FilterType::Clean => &driver.clean,
                    FilterType::Smudge => &driver.smudge,
                };
                match create_filter_command(template.as_slice(), path) {
                    Some((executable, args)) => FilterAction::RunCommand(
                        FilterCommand {
                            executable,
                            args,
                            filter_name: driver_name,
                            required: driver.required,
                        },
                    ),
                    None => FilterAction::PassThrough(
                        IgnoreReason::CommandNotDefined { filter_name: driver_name, filter_type },
                    ),
                }
            },
            FilterEvent::CommandFinished { command, input, output } => {
                let err: CommandError = match output {
                    Ok(output) => {
                        if output.status.success {
                            return FilterAction::Converted(output.stdout);
                        }
                        CommandError::BadExitStatus {
                            status: output.status,
                            stderr: output.stderr,
                        }
                    },
                    Err(err) => err,
                };
                let required: bool = command.required;
                let reason: IgnoreReason = IgnoreReason::FilterCommandFailed {
                    path: path.to_owned(),
                    filter_name: command.filter_name,
                    err,
                };
                if required {
                    FilterAction::Fail(reason)
                } else {
                    FilterAction::Unconverted(input, reason)
                }
            },
        }
    }

    /// Says what is to be done next to convert the contents of a file to what
    /// is stored.
    pub fn convert_to_store(&self, path: &str, event: FilterEvent) -> (action: FilterAction)
        ensures
            self.is_next_action(path@, FilterType::Clean, event, action),
            is_store_action(*self, path@, event, action),
    {
        self.convert(path, FilterType::Clean, event)
    }

    /// Says what is to be done next to convert what is stored to the contents
    /// of a file.
    pub fn convert_to_working_copy(&self, path: &str, event: FilterEvent) -> (action: FilterAction)
        ensures
            self.is_next_action(path@, FilterType::Smudge, event, action),
            is_working_copy_action(*self, path@, event, action),
    {
        self.convert(path, FilterType::Smudge, event)
    }
}

/// Whether `action` is what has to be done after `event` to convert the contents
/// of a file to what is stored.
pub open spec fn is_store_action<P>(
    strategy: FilterStrategy<P>,
    path: Seq<char>,
    event: FilterEvent,
    action: FilterAction,
) -> bool {
    strategy.is_next_action(path, FilterType::Clean, event, action)
}

/// Whether `action` is what has to be done after `event` to convert what is
/// stored to the contents of a file.
pub open spec fn is_working_copy_action<P>(
    strategy: FilterStrategy<P>,
    path: Seq<char>,
    event: FilterEvent,
    action: FilterAction,
) -> bool {
    strategy.is_next_action(path, FilterType::Smudge, event, action)
}

/// Makes the program and the arguments of a filter command for a file. There
/// is none if the command is empty.
pub fn create_filter_command(command: &[String], path: &str) -> (result: Option<
    (String, Vec<String>),
>)
    ensures
        result is Some <==> command@.len() > 0,
        result matches Some((executable, args)) ==> executable@ == command@[0]@ && texts(args@)
            == filter_args(texts(command@), path@),
{
    if command.len() == 0 {
        return None;
    }
    let executable: String = command[0].clone();
    let ghost goal = filter_args(texts(command@), path@);
    let mut args: Vec<String> = Vec::new();
    let mut i: usize = 1;
    proof {
        reveal_strlit("$path");
        assert(texts(args@) =~= goal.take(0));
    }
    while i < command.len()
        invariant
            1 <= i <= command@.len(),
            "$path"@.len() == 5,
            goal == filter_args(texts(command@), path@),
            texts(args@) == goal.take(i - 1),
        decreases command@.len() - i,
    {
        let ghost before = texts(args@);
        let arg: String = replace_all(command[i].as_str(), "$path", path);
        proof {
            assert(texts(command@).skip(1)[i - 1] == command@[i as int]@);
            assert(goal[i - 1] == arg@);
        }
        args.push(arg);
        i += 1;
        assert(texts(args@) =~= before.push(goal[i - 2]));
        assert(texts(args@) =~= goal.take(i - 1));
    }
    assert(goal.take(goal.len() as int) =~= goal);
    Some((executable, args))
}

/// Puts together how a process ended from what its worker threads reported:
/// whether the process was spawned, the output, and whether all of its input
/// could be written, if there was any.
pub fn process_outcome(
    spawned: Result<(), String>,
    output: Option<CommandOutput>,
    stdin_written: Option<bool>,
) -> (outcome: Result<CommandOutput, CommandError>)
    ensures
        match spawned {
            Err(error) => outcome == Err::<CommandOutput, CommandError>(
                CommandError::ProcessCreationError(error),
            ),
            Ok(()) => match output {
                None => outcome == Err::<CommandOutput, CommandError>(
                    CommandError::OutputWorkerThreadFailed,
                ),
                Some(output) => outcome == (if stdin_written == Some(false) {
                    Err::<CommandOutput, CommandError>(
                        CommandError::StdinWorkerThreadFailed { stderr: output.stderr },
                    )
                } else {
                    Ok(output)
                }),
            },
        },
{
    if let Err(error) = spawned {
        return Err(CommandError::ProcessCreationError(error));
    }
    match output {
        None => Err(CommandError::OutputWorkerThreadFailed),
        Some(output) => {
            if let Some(written) = stdin_written {
                if !written {
                    return Err(CommandError::StdinWorkerThreadFailed { stderr: output.stderr });
                }
            }
            Ok(output)
        },
    }
}

/// The name of a worker thread.
pub fn worker_thread_name(prefix: Option<&str>, role: &str) -> (name: String)
    ensures
        name@ == (match prefix {
            Some(prefix) => prefix@ + " "@ + role@,
            None => role@,
        }),
{
    match prefix {
        Some(prefix) => concat3(prefix, " ", role),
        None => role.to_owned(),
    }
}

/// The driver of a name is the last one with that name.
pub proof fn lemma_find_driver(drivers: Seq<(String, FilterDriver)>, name: Seq<char>, k: int)
    requires
        0 <= k < drivers.len(),
        drivers[k].0@ == name,
        forall|j: int| k < j < drivers.len() ==> (#[trigger] drivers[j]).0@ != name,
    ensures
        find_driver(drivers, name) == Some(drivers[k].1),
    decreases drivers.len(),
{
    if k < drivers.len() - 1 {
        let front = drivers.drop_last();
        assert(drivers[drivers.len() - 1].0@ != name);
        assert(front[k] == drivers[k]);
        assert forall|j: int| k < j < front.len() implies (#[trigger] front[j]).0@ != name by {
            assert(front[j] == drivers[j]);
        }
        lemma_find_driver(front, name, k);
    }
}

/// There is no driver of a name that none has.
pub proof fn lemma_no_driver(drivers: Seq<(String, FilterDriver)>, name: Seq<char>)
    requires
        forall|j: int| 0 <= j < drivers.len() ==> (#[trigger] drivers[j]).0@ != name,
    ensures
        find_driver(drivers, name) is None,
    decreases drivers.len(),
{
    if drivers.len() > 0 {
        let front = drivers.drop_last();
        assert(drivers[drivers.len() - 1].0@ != name);
        assert forall|j: int| 0 <= j < front.len() implies (#[trigger] front[j]).0@ != name by {
            assert(front[j] == drivers[j]);
        }
        lemma_no_driver(front, name);
    }
}

/// Whether a command is made from a template for a file: its program is the
/// first word, and its arguments are the others, with the path of the file in
/// the place of `$path`.
pub open spec fn is_made_from(
    command: FilterCommand,
    template: Seq<String>,
    path: Seq<char>,
) -> bool {
    &&& template.len() == command.args@.len() + 1
    &&& command.executable@ == template[0]@
    &&& forall|i: int|
        0 <= i < command.args@.len() ==> (#[trigger] command.args@[i])@ == replaced(
            template[i + 1]@,
            "$path"@,
            path,
        )
}

proof fn lemma_made_from(command: FilterCommand, template: Seq<String>, path: Seq<char>)
    requires
        template.len() > 0,
        command.executable@ == texts(template)[0],
        texts(command.args@) == filter_args(texts(template), path),
    ensures
        is_made_from(command, template, path),
{
    let args = filter_args(texts(template), path);
    assert(texts(command.args@).len() == command.args@.len());
    assert forall|i: int| 0 <= i < command.args@.len() implies (#[trigger] command.args@[i])@
        == replaced(template[i + 1]@, "$path"@, path) by {
        assert(texts(command.args@)[i] == command.args@[i]@);
        assert(args[i] == replaced(texts(template).skip(1)[i], "$path"@, path));
        assert(texts(template).skip(1)[i] == template[i + 1]@);
    }
}

/// What is stored is made by the clean command of the last driver that has the
/// name of the filter, and what is in the working copy by the smudge command. If
/// the driver does not have the command, the contents stay as they are. Whether
/// the command has to succeed is up to the driver.
pub proof fn lemma_filter_command<P>(
    strategy: FilterStrategy<P>,
    path: Seq<char>,
    name: Vec<u8>,
    k: int,
    to_store: bool,
    action: FilterAction,
)
    requires
        valid_utf8(name@),
        0 <= k < strategy.settings.drivers@.len(),
        strategy.settings.drivers@[k].0@ == decode_utf8(name@),
        forall|j: int|
            k < j < strategy.settings.drivers@.len() ==> (
            #[trigger] strategy.settings.drivers@[j]).0@ != decode_utf8(name@),
        to_store ==> is_store_action(
            strategy,
            path,
            FilterEvent::FilterName(Some(name)),
            action,
        ),
        !to_store ==> is_working_copy_action(
            strategy,
            path,
            FilterEvent::FilterName(Some(name)),
            action,
        ),
    ensures
        ({
            let driver = strategy.settings.drivers@[k].1;
            let template = if to_store {
                driver.clean@
            } else {
                driver.smudge@
            };
            &&& template.len() > 0 <==> action is RunCommand
            &&& template.len() == 0 <==> action is PassThrough
            &&& action matches FilterAction::RunCommand(command) ==> is_made_from(
                command,
                template,
                path,
            ) && command.required == driver.required
        }),
{
    let driver = strategy.settings.drivers@[k].1;
    let template = if to_store {
        driver.clean@
    } else {
        driver.smudge@
    };
    lemma_find_driver(strategy.settings.drivers@, decode_utf8(name@), k);
    assert(texts(template).len() == template.len());
    if let FilterAction::RunCommand(command) = action {
        lemma_made_from(command, template, path);
    }
}

/// A file without a filter that is known stays as it is, and so does every file
/// if filters are disabled. No command is run for it.
pub proof fn lemma_no_filter<P>(
    strategy: FilterStrategy<P>,
    path: Seq<char>,
    filter_type: FilterType,
    name: Option<Vec<u8>>,
    action: FilterAction,
)
    ensures
        strategy.is_next_action(path, filter_type, FilterEvent::Start, action) ==> (
        if strategy.settings.enabled {
            action is GetFilterName
        } else {
            action is PassThrough
        }),
        (match name {
            None => true,
            Some(name) => !valid_utf8(name@) || forall|j: int|
                0 <= j < strategy.settings.drivers@.len() ==> (
                #[trigger] strategy.settings.drivers@[j]).0@ != decode_utf8(name@),
        }) && strategy.is_next_action(
            path,
            filter_type,
            FilterEvent::FilterName(name),
            action,
        ) ==> action is PassThrough,
{
    if let Some(name) = name {
        if forall|j: int|
            0 <= j < strategy.settings.drivers@.len() ==> (
            #[trigger] strategy.settings.drivers@[j]).0@ != decode_utf8(name@) {
            lemma_no_driver(strategy.settings.drivers@, decode_utf8(name@));
        }
    }
}

/// What a command that succeeds has written is what the contents become. If it
/// fails, the conversion fails where the command is required, and the contents
/// stay as they were where it is not. That is so in either direction.
pub proof fn lemma_command_finished<P>(
    strategy: FilterStrategy<P>,
    path: Seq<char>,
    filter_type: FilterType,
    command: FilterCommand,
    input: Vec<u8>,
    output: Result<CommandOutput, CommandError>,
    action: FilterAction,
)
    requires
        strategy.is_next_action(
            path,
            filter_type,
            FilterEvent::CommandFinished { command, input, output },
            action,
        ),
    ensures
        output matches Ok(ended) && ended.status.success ==> (action matches
            FilterAction::Converted(contents) && contents@ == output->Ok_0.stdout@),
        !(output matches Ok(ended) && ended.status.success) && command.required
            ==> action is Fail,
        !(output matches Ok(ended) && ended.status.success) && !command.required ==> (action matches
            FilterAction::Unconverted(contents, _) && contents@ == input@),
{
}

} // verus!
