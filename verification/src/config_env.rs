//! Where configuration comes from: environment variables and files.
//!
//! Nothing here reads the environment or the disk. What was found there is
//! handed in, and what is to be loaded comes out.

use std::collections::HashMap;

use vstd::prelude::*;

use crate::config::ConfigValue;
use crate::config::ValueView;
use crate::config_layers::ConfigLayer;
use crate::config_layers::ConfigSource;
use crate::decimal::decimal_i64;
use crate::decimal::parse_i64;
use crate::raw_config::all_of;
use crate::raw_config::layers_for;
use crate::raw_config::layers_without;
use crate::raw_config::RawConfig;
use crate::seq_util::lemma_concat_contains;
use crate::seq_util::lemma_push_contains;

verus! {

/// The variable for the host name of operations.
pub const OP_HOSTNAME: &'static str = "operation.hostname";

/// The variable for the user name of operations.
pub const OP_USERNAME: &'static str = "operation.username";

/// The directory under which repo-specific configuration is stored.
pub const REPO_CONFIG_DIR: &'static str = "repos";

/// The directory under which workspace-specific configuration is stored.
pub const WORKSPACE_CONFIG_DIR: &'static str = "workspaces";

/// A variable that is set to a value.
#[derive(Debug)]
pub struct Setting {
    /// The dotted name of the variable.
    pub name: &'static str,
    /// The value.
    pub value: ConfigValue,
}

/// What can be seen of settings.
pub open spec fn settings_view(settings: Seq<Setting>) -> Seq<(Seq<char>, ValueView)> {
    settings.map_values(|setting: Setting| (setting.name@, setting.value@))
}

/// A variable that is set to a string, if there is one.
pub open spec fn text_setting(name: Seq<char>, text: Option<String>) -> Seq<
    (Seq<char>, ValueView),
> {
    match text {
        Some(text) => seq![(name, ValueView::Text(text@))],
        None => Seq::empty(),
    }
}

/// The first of two values that is there.
pub open spec fn or_else(first: Option<String>, second: Option<String>) -> Option<String> {
    match first {
        Some(text) => Some(text),
        None => second,
    }
}

fn push_text(settings: &mut Vec<Setting>, name: &'static str, text: &Option<String>)
    ensures
        settings_view(final(settings)@) == settings_view(old(settings)@) + text_setting(
            name@,
            *text,
        ),
{
    match text {
        Some(text) => {
            let setting: Setting = Setting { name, value: ConfigValue::Text(text.clone()) };
            let ghost before = settings@;
            let ghost view = (setting.name@, setting.value@);
            settings.push(setting);
            assert(settings_view(settings@) =~= settings_view(before) + seq![view]);
        },
        None => {
            assert(settings_view(settings@) =~= settings_view(settings@) + Seq::<
                (Seq<char>, ValueView),
            >::empty());
        },
    }
}

/// What was found in the environment for values that other configuration can
/// override.
#[derive(Debug)]
pub struct BaseEnvironment {
    /// The name of the host.
    pub hostname: Option<String>,
    /// The name of the user.
    pub username: Option<String>,
    /// The variable `USER`, for hosts that do not know the name of the user.
    pub user: Option<String>,
    /// The variable `NO_COLOR`.
    pub no_color: Option<String>,
    /// The variable `VISUAL`.
    pub visual: Option<String>,
    /// The variable `EDITOR`.
    pub editor: Option<String>,
}

/// The values that other configuration can override.
pub open spec fn base_settings(env: BaseEnvironment) -> Seq<(Seq<char>, ValueView)> {
    text_setting(OP_HOSTNAME@, env.hostname) + text_setting(
        OP_USERNAME@,
        or_else(env.username, env.user),
    ) + (if env.no_color is Some && env.no_color->Some_0@.len() > 0 {
        seq![("ui.color"@, ValueView::Text("never"@))]
    } else {
        Seq::empty()
    }) + text_setting("ui.editor"@, or_else(env.visual, env.editor))
}

/// Environment variables that should be overridden by config values
pub fn env_base_layer(env: &BaseEnvironment) -> (settings: Vec<Setting>)
    ensures
        settings_view(settings@) == base_settings(*env),
{
    let mut settings: Vec<Setting> = Vec::new();
    let ghost none = settings_view(settings@);
    push_text(&mut settings, OP_HOSTNAME, &env.hostname);
    assert(settings_view(settings@) =~= text_setting(OP_HOSTNAME@, env.hostname));
    if env.username.is_some() {
        push_text(&mut settings, OP_USERNAME, &env.username);
    } else {
        push_text(&mut settings, OP_USERNAME, &env.user);
    }
    let mut plain: bool = false;
    if let Some(value) = &env.no_color {
        plain = !value.as_str().is_empty();
    }
    let ghost before = settings_view(settings@);
    if plain {
        let never: Option<String> = Some("never".to_owned());
        push_text(&mut settings, "ui.color", &never);
    } else {
        assert(before + Seq::<(Seq<char>, ValueView)>::empty() =~= before);
    }
    if env.visual.is_some() {
        push_text(&mut settings, "ui.editor", &env.visual);
    } else {
        push_text(&mut settings, "ui.editor", &env.editor);
    }
    settings
}

/// What was found in the environment for values that override other
/// configuration.
#[derive(Debug)]
pub struct OverrideEnvironment {
    /// The variable `JJ_USER`.
    pub user: Option<String>,
    /// The variable `JJ_EMAIL`.
    pub email: Option<String>,
    /// The variable `JJ_TIMESTAMP`.
    pub timestamp: Option<String>,
    /// The variable `JJ_RANDOMNESS_SEED`.
    pub randomness_seed: Option<String>,
    /// The variable `JJ_OP_TIMESTAMP`.
    pub op_timestamp: Option<String>,
    /// The variable `JJ_OP_HOSTNAME`.
    pub op_hostname: Option<String>,
    /// The variable `JJ_OP_USERNAME`.
    pub op_username: Option<String>,
    /// The variable `JJ_EDITOR`.
    pub editor: Option<String>,
    /// The variable `JJ_PAGER`.
    pub pager: Option<String>,
}

/// The seed for random numbers, if the variable is a number.
pub open spec fn seed_setting(seed: Option<String>) -> Seq<(Seq<char>, ValueView)> {
    match seed {
        Some(text) => match decimal_i64(text@) {
            Some(number) => seq![("debug.randomness-seed"@, ValueView::Integer(number))],
            None => Seq::empty(),
        },
        None => Seq::empty(),
    }
}

/// The values that override other configuration.
pub open spec fn override_settings(env: OverrideEnvironment) -> Seq<(Seq<char>, ValueView)> {
    text_setting("user.name"@, env.user) + text_setting("user.email"@, env.email) + text_setting(
        "debug.commit-timestamp"@,
        env.timestamp,
    ) + seed_setting(env.randomness_seed) + text_setting(
        "debug.operation-timestamp"@,
        env.op_timestamp,
    ) + text_setting(OP_HOSTNAME@, env.op_hostname) + text_setting(OP_USERNAME@, env.op_username)
        + text_setting("ui.editor"@, env.editor) + text_setting("ui.pager"@, env.pager)
}

/// Environment variables that override config values
pub fn env_overrides_layer(env: &OverrideEnvironment) -> (settings: Vec<Setting>)
    ensures
        settings_view(settings@) == override_settings(*env),
{
    let mut settings: Vec<Setting> = Vec::new();
    push_text(&mut settings, "user.name", &env.user);
    assert(settings_view(settings@) =~= text_setting("user.name"@, env.user));
    push_text(&mut settings, "user.email", &env.email);
    push_text(&mut settings, "debug.commit-timestamp", &env.timestamp);
    let ghost before = settings@;
    let mut seed: Option<i64> = None;
    if let Some(text) = &env.randomness_seed {
        seed = parse_i64(text.as_str());
    }
    if let Some(number) = seed {
        let setting: Setting = Setting {
            name: "debug.randomness-seed",
            value: ConfigValue::Integer(number),
        };
        let ghost view = (setting.name@, setting.value@);
        settings.push(setting);
        assert(settings_view(settings@) =~= settings_view(before) + seq![view]);
    } else {
        assert(settings_view(before) + Seq::<(Seq<char>, ValueView)>::empty() =~= settings_view(
            before,
        ));
    }
    assert(settings_view(settings@) == settings_view(before) + seed_setting(env.randomness_seed));
    push_text(&mut settings, "debug.operation-timestamp", &env.op_timestamp);
    push_text(&mut settings, OP_HOSTNAME, &env.op_hostname);
    push_text(&mut settings, OP_USERNAME, &env.op_username);
    push_text(&mut settings, "ui.editor", &env.editor);
    push_text(&mut settings, "ui.pager", &env.pager);
    settings
}

/// A path, as a base to which components are joined in order.
#[derive(Debug)]
pub struct ConfigLocation {
    /// The base.
    pub base: String,
    /// The components.
    pub components: Vec<&'static str>,
}

/// What can be seen of a path.
pub struct LocationView {
    /// The base.
    pub base: Seq<char>,
    /// The components.
    pub components: Seq<Seq<char>>,
}

impl View for ConfigLocation {
    type V = LocationView;

    open spec fn view(&self) -> LocationView {
        LocationView {
            base: self.base@,
            components: self.components@.map_values(|part: &'static str| part@),
        }
    }
}

/// The path of a base alone.
pub open spec fn at(base: Seq<char>) -> LocationView {
    LocationView { base, components: Seq::empty() }
}

/// The path with a component joined to it.
pub open spec fn joined(location: LocationView, part: Seq<char>) -> LocationView {
    LocationView { base: location.base, components: location.components.push(part) }
}

fn location(base: &String) -> (location: ConfigLocation)
    ensures
        location@ == at(base@),
{
    let location: ConfigLocation = ConfigLocation { base: base.clone(), components: Vec::new() };
    assert(location@.components =~= Seq::<Seq<char>>::empty());
    location
}

fn join(location: ConfigLocation, part: &'static str) -> (result: ConfigLocation)
    ensures
        result@ == joined(location@, part@),
{
    let ConfigLocation { base, components } = location;
    let ghost before = components@;
    let mut components: Vec<&'static str> = components;
    components.push(part);
    let result: ConfigLocation = ConfigLocation { base, components };
    assert(result@.components =~= before.map_values(|part: &'static str| part@).push(part@));
    result
}

fn copy_location(source: &ConfigLocation) -> (copy: ConfigLocation)
    ensures
        copy@ == source@,
{
    let mut components: Vec<&'static str> = Vec::new();
    let mut i: usize = 0;
    while i < source.components.len()
        invariant
            i <= source.components@.len(),
            components@ == source.components@.take(i as int),
        decreases source.components@.len() - i,
    {
        components.push(source.components[i]);
        i += 1;
        assert(components@ =~= source.components@.take(i as int));
    }
    assert(source.components@.take(source.components@.len() as int) =~= source.components@);
    ConfigLocation { base: source.base.clone(), components }
}

/// A ConfigPath can be in one of two states:
///
/// - path_exists(): a config file exists at the path
/// - !path_exists(): a config file doesn't exist here, but a new file _can_ be
///   created at this path
#[derive(Debug)]
pub struct ConfigPath {
    /// The path.
    pub path: ConfigLocation,
    /// Whether there is something at the path.
    pub is_there: bool,
}

impl ConfigPath {
    /// Notes whether there is something at a path.
    pub fn new(path: ConfigLocation, is_there: bool) -> (config_path: Self)
        ensures
            config_path.path == path,
            config_path.is_there == is_there,
    {
        ConfigPath { path, is_there }
    }

    /// Returns the path.
    pub fn as_path(&self) -> (path: &ConfigLocation)
        ensures
            *path == self.path,
    {
        &self.path
    }

    /// Returns whether there is something at the path.
    pub fn path_exists(&self) -> (found: bool)
        ensures
            found == self.is_there,
    {
        self.is_there
    }
}

/// What can be seen of a path and whether there is something at it.
pub open spec fn paths_view(paths: Seq<ConfigPath>) -> Seq<(LocationView, bool)> {
    paths.map_values(|path: ConfigPath| (path.path@, path.is_there))
}

proof fn lemma_paths_push(paths: Seq<ConfigPath>, path: ConfigPath)
    ensures
        paths_view(paths.push(path)) == paths_view(paths).push((path.path@, path.is_there)),
{
    assert(paths_view(paths.push(path)) =~= paths_view(paths).push((path.path@, path.is_there)));
}

/// What is known of the environment before the disk has been looked at.
#[derive(Debug)]
pub struct UnresolvedConfigEnv {
    /// The configuration directory of the user.
    pub user_config_dir: Option<String>,
    /// The home directory of the user.
    pub home_dir: Option<String>,
    /// The paths in the variable `JJ_CONFIG`.
    pub jj_config: Option<Vec<String>>,
    /// The configuration directory of the system.
    pub system_config_dir: Option<String>,
}

/// At which candidates for user configuration there is something.
#[derive(Debug)]
pub struct UserProbe {
    /// For each path in the variable `JJ_CONFIG`.
    pub jj_config: Vec<bool>,
    /// For [`UnresolvedConfigEnv::home_config_path`].
    pub home: bool,
    /// For [`UnresolvedConfigEnv::platform_config_path`].
    pub platform: bool,
    /// For [`UnresolvedConfigEnv::platform_config_dir`].
    pub platform_dir: bool,
}

/// The given paths that are not empty.
pub open spec fn given_paths(paths: Seq<String>, found: Seq<bool>) -> Seq<(LocationView, bool)>
    decreases paths.len(),
{
    if paths.len() == 0 {
        Seq::empty()
    } else {
        let front = given_paths(paths.drop_last(), found);
        if paths.last()@.len() > 0 {
            front.push((at(paths.last()@), found[paths.len() - 1]))
        } else {
            front
        }
    }
}

/// A candidate, if there is one.
pub open spec fn candidate(location: Option<LocationView>, found: bool) -> Seq<
    (LocationView, bool),
> {
    match location {
        Some(location) => seq![(location, found)],
        None => Seq::empty(),
    }
}

impl UnresolvedConfigEnv {
    /// The configuration file in the home directory.
    pub open spec fn home_path(&self) -> Option<LocationView> {
        match self.home_dir {
            Some(dir) => Some(joined(at(dir@), ".jjconfig.toml"@)),
            None => None,
        }
    }

    /// The directory for configuration in the configuration directory of the
    /// user.
    pub open spec fn root_dir(&self) -> Option<LocationView> {
        match self.user_config_dir {
            Some(dir) => Some(joined(at(dir@), "jj"@)),
            None => None,
        }
    }

    /// A part of the directory for configuration.
    pub open spec fn root_part(&self, part: Seq<char>) -> Option<LocationView> {
        match self.root_dir() {
            Some(dir) => Some(joined(dir, part)),
            None => None,
        }
    }

    /// The paths of user configuration, from the lowest precedence. The
    /// variable `JJ_CONFIG` replaces all others. The file in the home directory
    /// counts only if it exists, or if there is no other place. The directory
    /// of files counts only if it exists.
    pub open spec fn user_paths(&self, probe: UserProbe) -> Seq<(LocationView, bool)> {
        match self.jj_config {
            Some(paths) => given_paths(paths@, probe.jj_config@),
            None => (if probe.home || self.root_dir() is None {
                candidate(self.home_path(), probe.home)
            } else {
                Seq::empty()
            }) + candidate(self.root_part("config.toml"@), probe.platform) + (
            if probe.platform_dir {
                candidate(self.root_part("conf.d"@), true)
            } else {
                Seq::empty()
            }),
        }
    }

    /// The paths of system configuration. There are none if the variable
    /// `JJ_CONFIG` is set.
    pub open spec fn system_paths(&self, file_exists: bool, dir_exists: bool) -> Seq<
        (LocationView, bool),
    > {
        if self.system_config_dir is Some && self.jj_config is None {
            let dir = at(self.system_config_dir->Some_0@);
            seq![
                (joined(dir, "jj/config.toml"@), file_exists),
                (joined(dir, "jj/conf.d"@), dir_exists),
            ]
        } else {
            Seq::empty()
        }
    }

    /// Returns the directory for configuration.
    pub fn root_config_dir(&self) -> (dir: Option<ConfigLocation>)
        ensures
            location_view(dir) == self.root_dir(),
    {
        match &self.user_config_dir {
            Some(dir) => Some(join(location(dir), "jj")),
            None => None,
        }
    }

    /// Returns the configuration file in the home directory.
    pub fn home_config_path(&self) -> (path: Option<ConfigLocation>)
        ensures
            location_view(path) == self.home_path(),
    {
        match &self.home_dir {
            Some(dir) => Some(join(location(dir), ".jjconfig.toml")),
            None => None,
        }
    }

    /// Returns the configuration file in the directory for configuration.
    pub fn platform_config_path(&self) -> (path: Option<ConfigLocation>)
        ensures
            location_view(path) == self.root_part("config.toml"@),
    {
        match self.root_config_dir() {
            Some(dir) => Some(join(dir, "config.toml")),
            None => None,
        }
    }

    /// Returns the directory of configuration files in the directory for
    /// configuration.
    pub fn platform_config_dir(&self) -> (path: Option<ConfigLocation>)
        ensures
            location_view(path) == self.root_part("conf.d"@),
    {
        match self.root_config_dir() {
            Some(dir) => Some(join(dir, "conf.d")),
            None => None,
        }
    }

    /// Decides which paths hold user configuration, given at which of them
    /// there is something.
    pub fn resolve_user(&self, probe: &UserProbe) -> (paths: Vec<ConfigPath>)
        requires
            self.jj_config matches Some(given) ==> given@.len() == probe.jj_config@.len(),
        ensures
            paths_view(paths@) == self.user_paths(*probe),
    {
        let mut paths: Vec<ConfigPath> = Vec::new();
        assert(paths_view(paths@) =~= Seq::<(LocationView, bool)>::empty());
        if let Some(given) = &self.jj_config {
            let mut i: usize = 0;
            while i < given.len()
                invariant
                    i <= given@.len(),
                    given@.len() == probe.jj_config@.len(),
                    paths_view(paths@) == given_paths(given@.take(i as int), probe.jj_config@),
                decreases given@.len() - i,
            {
                assert(given@.take(i + 1).drop_last() =~= given@.take(i as int));
                assert(given@.take(i + 1).last() == given@[i as int]);
                if !given[i].as_str().is_empty() {
                    let path: ConfigPath = ConfigPath::new(
                        location(&given[i]),
                        probe.jj_config[i],
                    );
                    proof {
                        lemma_paths_push(paths@, path);
                    }
                    paths.push(path);
                }
                i += 1;
            }
            assert(given@.take(given@.len() as int) =~= given@);
            return paths;
        }
        let platform_config_path: Option<ConfigLocation> = self.platform_config_path();
        let ghost none = Seq::<(LocationView, bool)>::empty();
        if let Some(path) = self.home_config_path() {
            if probe.home || platform_config_path.is_none() {
                push_path(&mut paths, path, probe.home);
            }
        }
        let ghost first = paths_view(paths@);
        assert(first =~= (if probe.home || self.root_dir() is None {
            candidate(self.home_path(), probe.home)
        } else {
            none
        }));
        // This should be the default config created if there's no user config
        // and a file is to be edited.
        if let Some(path) = platform_config_path {
            push_path(&mut paths, path, probe.platform);
        } else {
            assert(first + none =~= first);
        }
        let ghost second = paths_view(paths@);
        assert(second == first + candidate(self.root_part("config.toml"@), probe.platform));
        if let Some(path) = self.platform_config_dir() {
            if probe.platform_dir {
                push_path(&mut paths, path, true);
            } else {
                assert(second + none =~= second);
            }
        } else {
            assert(second + none =~= second);
        }
        paths
    }

    /// Decides which paths hold system configuration, given at which of them
    /// there is something.
    pub fn resolve_system(&self, file_exists: bool, dir_exists: bool) -> (paths: Vec<ConfigPath>)
        ensures
            paths_view(paths@) == self.system_paths(file_exists, dir_exists),
    {
        let mut paths: Vec<ConfigPath> = Vec::new();
        assert(paths_view(paths@) =~= Seq::<(LocationView, bool)>::empty());
        if let Some(dir) = &self.system_config_dir {
            if self.jj_config.is_none() {
                push_path(&mut paths, join(location(dir), "jj/config.toml"), file_exists);
                push_path(&mut paths, join(location(dir), "jj/conf.d"), dir_exists);
                assert(paths_view(paths@) =~= self.system_paths(file_exists, dir_exists));
            }
        }
        paths
    }
}

fn push_path(paths: &mut Vec<ConfigPath>, path: ConfigLocation, found: bool)
    ensures
        paths_view(final(paths)@) == paths_view(old(paths)@) + seq![(path@, found)],
{
    let path: ConfigPath = ConfigPath::new(path, found);
    proof {
        lemma_paths_push(paths@, path);
        assert(paths_view(paths@).push((path.path@, path.is_there)) =~= paths_view(paths@) + seq![
            (path.path@, path.is_there),
        ]);
    }
    paths.push(path);
}

/// What can be seen of an optional path.
pub open spec fn location_view(location: Option<ConfigLocation>) -> Option<LocationView> {
    match location {
        Some(location) => Some(location@),
        None => None,
    }
}

/// The paths at which there is something.
pub open spec fn existing_paths(paths: Seq<(LocationView, bool)>) -> Seq<LocationView>
    decreases paths.len(),
{
    if paths.len() == 0 {
        Seq::empty()
    } else {
        let front = existing_paths(paths.drop_last());
        if paths.last().1 {
            front.push(paths.last().0)
        } else {
            front
        }
    }
}

/// What can be seen of paths.
pub open spec fn locations_view(locations: Seq<&ConfigLocation>) -> Seq<LocationView> {
    locations.map_values(|location: &ConfigLocation| location@)
}

fn existing<'a>(paths: &'a Vec<ConfigPath>) -> (existing: Vec<&'a ConfigLocation>)
    ensures
        locations_view(existing@) == existing_paths(paths_view(paths@)),
{
    let ghost views = paths_view(paths@);
    let mut existing: Vec<&'a ConfigLocation> = Vec::new();
    let mut i: usize = 0;
    assert(locations_view(existing@) =~= existing_paths(views.take(0)));
    while i < paths.len()
        invariant
            i <= paths@.len(),
            views == paths_view(paths@),
            locations_view(existing@) == existing_paths(views.take(i as int)),
        decreases paths@.len() - i,
    {
        assert(views.take(i + 1).drop_last() =~= views.take(i as int));
        assert(views.take(i + 1).last() == (paths@[i as int].path@, paths@[i as int].is_there));
        if paths[i].path_exists() {
            let ghost before = existing@;
            existing.push(paths[i].as_path());
            assert(locations_view(existing@) =~= locations_view(before).push(
                paths@[i as int].path@,
            ));
        }
        i += 1;
    }
    assert(views.take(views.len() as int) =~= views);
    existing
}

/// Where the configuration of a process is found.
#[derive(Debug)]
pub struct ConfigEnv {
    /// The home directory of the user.
    pub home_dir: Option<String>,
    /// The directory for configuration.
    pub root_config_dir: Option<ConfigLocation>,
    /// The directory of the repository.
    pub repo_path: Option<String>,
    /// The directory of the workspace.
    pub workspace_path: Option<String>,
    /// The paths of system configuration.
    pub system_config_paths: Vec<ConfigPath>,
    /// The paths of user configuration.
    pub user_config_paths: Vec<ConfigPath>,
    /// The name of the command that is run.
    pub command: Option<String>,
    /// The name of the host.
    pub hostname: Option<String>,
    /// The environment variables.
    pub environment: HashMap<String, String>,
}

impl ConfigEnv {
    /// Puts together what was found in the environment.
    pub fn from_environment(
        env: UnresolvedConfigEnv,
        user: &UserProbe,
        system_file_exists: bool,
        system_dir_exists: bool,
        hostname: Option<String>,
        environment: HashMap<String, String>,
    ) -> (config_env: Self)
        requires
            env.jj_config matches Some(given) ==> given@.len() == user.jj_config@.len(),
        ensures
            config_env.home_dir == env.home_dir,
            location_view(config_env.root_config_dir) == env.root_dir(),
            config_env.repo_path is None,
            config_env.workspace_path is None,
            paths_view(config_env.system_config_paths@) == env.system_paths(
                system_file_exists,
                system_dir_exists,
            ),
            paths_view(config_env.user_config_paths@) == env.user_paths(*user),
            config_env.command is None,
            config_env.hostname == hostname,
            config_env.environment == environment,
    {
        let root_config_dir: Option<ConfigLocation> = env.root_config_dir();
        let system_config_paths: Vec<ConfigPath> = env.resolve_system(
            system_file_exists,
            system_dir_exists,
        );
        let user_config_paths: Vec<ConfigPath> = env.resolve_user(user);
        ConfigEnv {
            home_dir: env.home_dir,
            root_config_dir,
            repo_path: None,
            workspace_path: None,
            system_config_paths,
            user_config_paths,
            command: None,
            hostname,
            environment,
        }
    }

    /// Sets the name of the command that is run.
    pub fn set_command_name(&mut self, command: String)
        ensures
            *final(self) == (ConfigEnv { command: Some(command), ..*old(self) }),
    {
        self.command = Some(command);
    }

    /// Returns the paths to the existing system-wide config files or
    /// directories.
    pub fn existing_system_config_paths(&self) -> (paths: Vec<&ConfigLocation>)
        ensures
            locations_view(paths@) == existing_paths(paths_view(self.system_config_paths@)),
    {
        existing(&self.system_config_paths)
    }

    /// Returns the paths to the user-specific config files or directories.
    pub fn user_config_paths(&self) -> (paths: Vec<&ConfigLocation>)
        ensures
            locations_view(paths@) == paths_view(self.user_config_paths@).map_values(
                |path: (LocationView, bool)| path.0,
            ),
    {
        let ghost goal = paths_view(self.user_config_paths@).map_values(
            |path: (LocationView, bool)| path.0,
        );
        let mut paths: Vec<&ConfigLocation> = Vec::new();
        let mut i: usize = 0;
        assert(locations_view(paths@) =~= goal.take(0));
        while i < self.user_config_paths.len()
            invariant
                i <= self.user_config_paths@.len(),
                goal == paths_view(self.user_config_paths@).map_values(
                    |path: (LocationView, bool)| path.0,
                ),
                locations_view(paths@) == goal.take(i as int),
            decreases self.user_config_paths@.len() - i,
        {
            let ghost before = paths@;
            paths.push(self.user_config_paths[i].as_path());
            proof {
                let view = self.user_config_paths@[i as int].path@;
                assert(locations_view(paths@) =~= locations_view(before).push(view));
                assert(goal[i as int] == view);
                assert(goal.take(i + 1) =~= goal.take(i as int).push(view));
            }
            i += 1;
        }
        assert(goal.take(goal.len() as int) =~= goal);
        paths
    }

    /// Returns the paths to the existing user-specific config files or
    /// directories.
    pub fn existing_user_config_paths(&self) -> (paths: Vec<&ConfigLocation>)
        ensures
            locations_view(paths@) == existing_paths(paths_view(self.user_config_paths@)),
    {
        existing(&self.user_config_paths)
    }

    /// Returns the path of the file that is created when user configuration is
    /// edited and there is none.
    pub fn new_user_config_path(&self) -> (path: Option<&ConfigLocation>)
        ensures
            path is Some <==> self.user_config_paths@.len() > 0,
            path matches Some(path) ==> path@ == self.user_config_paths@[0].path@,
    {
        if self.user_config_paths.len() > 0 {
            Some(self.user_config_paths[0].as_path())
        } else {
            None
        }
    }

    /// Sets the directory where the repo-specific config file is stored. The
    /// path is usually `$REPO/.jj/repo`.
    pub fn reset_repo_path(&mut self, path: String)
        ensures
            *final(self) == (ConfigEnv { repo_path: Some(path), ..*old(self) }),
    {
        self.repo_path = Some(path);
    }

    /// Sets the directory of the workspace. The workspace-specific config file
    /// is stored below it.
    pub fn reset_workspace_path(&mut self, path: String)
        ensures
            *final(self) == (ConfigEnv { workspace_path: Some(path), ..*old(self) }),
    {
        self.workspace_path = Some(path);
    }

    /// Returns the directory below which the configuration of one kind is
    /// stored.
    fn config_dir(&self, kind: &'static str) -> (dir: Option<ConfigLocation>)
        ensures
            location_view(dir) == (match location_view(self.root_config_dir) {
                Some(root) => Some(joined(root, kind@)),
                None => None,
            }),
    {
        match &self.root_config_dir {
            Some(root) => Some(join(copy_location(root), kind)),
            None => None,
        }
    }

    /// Returns the directory under which all repo-specific config
    /// subdirectories (one per config ID) are stored.
    pub fn repo_configs_root_dir(&self) -> (dir: Option<ConfigLocation>)
        ensures
            location_view(dir) == (match location_view(self.root_config_dir) {
                Some(root) => Some(joined(root, REPO_CONFIG_DIR@)),
                None => None,
            }),
    {
        self.config_dir(REPO_CONFIG_DIR)
    }

    /// Returns the directory that repo-specific configuration is loaded from,
    /// if a repository and the directory for configuration are known.
    pub fn repo_config_dir(&self) -> (dir: Option<ConfigLocation>)
        ensures
            location_view(dir) == (match location_view(self.root_config_dir) {
                Some(root) if self.repo_path is Some => Some(joined(root, REPO_CONFIG_DIR@)),
                _ => None,
            }),
    {
        if self.repo_path.is_some() {
            self.config_dir(REPO_CONFIG_DIR)
        } else {
            None
        }
    }

    /// Returns the directory that workspace-specific configuration is loaded
    /// from, if a workspace and the directory for configuration are known.
    pub fn workspace_config_dir(&self) -> (dir: Option<ConfigLocation>)
        ensures
            location_view(dir) == (match location_view(self.root_config_dir) {
                Some(root) if self.workspace_path is Some => Some(
                    joined(root, WORKSPACE_CONFIG_DIR@),
                ),
                _ => None,
            }),
    {
        if self.workspace_path.is_some() {
            self.config_dir(WORKSPACE_CONFIG_DIR)
        } else {
            None
        }
    }
}

/// What conditions in the configuration can refer to.
#[derive(Debug)]
pub struct ConfigResolutionContext<'a> {
    /// The home directory of the user.
    pub home_dir: Option<&'a str>,
    /// The directory of the repository.
    pub repo_path: Option<&'a str>,
    /// The directory of the workspace.
    pub workspace_path: Option<&'a str>,
    /// The name of the command that is run.
    pub command: Option<&'a str>,
    /// The name of the host, which is empty if it is not known.
    pub hostname: &'a str,
    /// The environment variables.
    pub environment: &'a HashMap<String, String>,
}

/// What can be seen of an optional string.
pub open spec fn string_view(text: Option<String>) -> Option<Seq<char>> {
    match text {
        Some(text) => Some(text@),
        None => None,
    }
}

/// What can be seen of an optional string slice.
pub open spec fn str_view(text: Option<&str>) -> Option<Seq<char>> {
    match text {
        Some(text) => Some(text@),
        None => None,
    }
}

fn as_deref(text: &Option<String>) -> (slice: Option<&str>)
    ensures
        str_view(slice) == string_view(*text),
{
    match text {
        Some(text) => Some(text.as_str()),
        None => None,
    }
}

/// The layers that were loaded before the first error, in order.
pub open spec fn loaded_layers<E>(loaded: Seq<Result<Vec<ConfigLayer>, E>>) -> Seq<ConfigLayer>
    decreases loaded.len(),
{
    if loaded.len() == 0 {
        Seq::empty()
    } else {
        match loaded[0] {
            Ok(layers) => layers@ + loaded_layers(loaded.skip(1)),
            Err(_) => Seq::empty(),
        }
    }
}

/// Whether all layers were loaded, or the first error.
pub open spec fn load_result<E>(loaded: Seq<Result<Vec<ConfigLayer>, E>>) -> Result<(), E>
    decreases loaded.len(),
{
    if loaded.len() == 0 {
        Ok(())
    } else {
        match loaded[0] {
            Ok(_) => load_result(loaded.skip(1)),
            Err(error) => Err(error),
        }
    }
}

fn collect_loaded<E>(loaded: Vec<Result<Vec<ConfigLayer>, E>>) -> (collected: (
    Vec<ConfigLayer>,
    Result<(), E>,
))
    ensures
        collected.0@ == loaded_layers(loaded@),
        collected.1 == load_result(loaded@),
{
    let ghost all = loaded@;
    let mut remaining: Vec<Result<Vec<ConfigLayer>, E>> = loaded;
    let mut layers: Vec<ConfigLayer> = Vec::new();
    while remaining.len() > 0
        invariant
            all == loaded@,
            layers@ + loaded_layers(remaining@) == loaded_layers(all),
            load_result(remaining@) == load_result(all),
        decreases remaining@.len(),
    {
        let ghost rest = remaining@;
        match remaining.remove(0) {
            Ok(mut list) => {
                assert(remaining@ =~= rest.skip(1));
                let ghost before = layers@;
                let ghost found = list@;
                layers.append(&mut list);
                assert(layers@ + loaded_layers(remaining@) =~= before + (found + loaded_layers(
                    remaining@,
                )));
            },
            Err(error) => {
                assert(layers@ + loaded_layers(rest) =~= layers@);
                return (layers, Err(error));
            },
        }
    }
    assert(layers@ + loaded_layers(remaining@) =~= layers@);
    (layers, Ok(()))
}

impl ConfigEnv {
    /// Loads system-wide config files into the given `config`. The old
    /// system-config layers will be replaced if any. For each existing path,
    /// `loaded` holds the layers that were found there. The first error ends
    /// the loading.
    pub fn reload_system_config<E>(
        &self,
        config: &mut RawConfig,
        loaded: Vec<Result<Vec<ConfigLayer>, E>>,
    ) -> (result: Result<(), E>)
        requires
            old(config).well_formed(),
            loaded@.len() == existing_paths(paths_view(self.system_config_paths@)).len(),
            all_of(loaded_layers(loaded@), ConfigSource::System),
        ensures
            result == load_result(loaded@),
            final(config).well_formed(),
            layers_for(final(config)@, ConfigSource::System) == loaded_layers(loaded@),
            layers_without(final(config)@, ConfigSource::System) == layers_without(
                old(config)@,
                ConfigSource::System,
            ),
    {
        let (layers, result): (Vec<ConfigLayer>, Result<(), E>) = collect_loaded(loaded);
        config.reload(ConfigSource::System, layers);
        result
    }

    /// Loads user-specific config files into the given `config`. The old
    /// user-config layers will be replaced if any. For each existing path,
    /// `loaded` holds the layers that were found there. The first error ends
    /// the loading.
    pub fn reload_user_config<E>(
        &self,
        config: &mut RawConfig,
        loaded: Vec<Result<Vec<ConfigLayer>, E>>,
    ) -> (result: Result<(), E>)
        requires
            old(config).well_formed(),
            loaded@.len() == existing_paths(paths_view(self.user_config_paths@)).len(),
            all_of(loaded_layers(loaded@), ConfigSource::User),
        ensures
            result == load_result(loaded@),
            final(config).well_formed(),
            layers_for(final(config)@, ConfigSource::User) == loaded_layers(loaded@),
            layers_without(final(config)@, ConfigSource::User) == layers_without(
                old(config)@,
                ConfigSource::User,
            ),
    {
        let (layers, result): (Vec<ConfigLayer>, Result<(), E>) = collect_loaded(loaded);
        config.reload(ConfigSource::User, layers);
        result
    }

    /// Loads repo-specific config file into the given `config`. The old
    /// repo-config layer will be replaced if any. `loaded` is the layer in the
    /// file, if it is there.
    pub fn reload_repo_config<E>(
        &self,
        config: &mut RawConfig,
        loaded: Result<Option<ConfigLayer>, E>,
    ) -> (result: Result<(), E>)
        requires
            old(config).well_formed(),
            is_single_layer(loaded, ConfigSource::Repo),
            has_layer(loaded) ==> self.repo_path is Some && self.root_config_dir is Some,
        ensures
            result == single_result(loaded),
            final(config).well_formed(),
            layers_for(final(config)@, ConfigSource::Repo) == single_layer(loaded),
            layers_without(final(config)@, ConfigSource::Repo) == layers_without(
                old(config)@,
                ConfigSource::Repo,
            ),
    {
        reload_single(config, ConfigSource::Repo, loaded)
    }

    /// Loads workspace-specific config file into the given `config`. The old
    /// workspace-config layer will be replaced if any. `loaded` is the layer in
    /// the file, if it is there.
    pub fn reload_workspace_config<E>(
        &self,
        config: &mut RawConfig,
        loaded: Result<Option<ConfigLayer>, E>,
    ) -> (result: Result<(), E>)
        requires
            old(config).well_formed(),
            is_single_layer(loaded, ConfigSource::Workspace),
            has_layer(loaded) ==> self.workspace_path is Some && self.root_config_dir is Some,
        ensures
            result == single_result(loaded),
            final(config).well_formed(),
            layers_for(final(config)@, ConfigSource::Workspace) == single_layer(loaded),
            layers_without(final(config)@, ConfigSource::Workspace) == layers_without(
                old(config)@,
                ConfigSource::Workspace,
            ),
    {
        reload_single(config, ConfigSource::Workspace, loaded)
    }

    /// Returns the directory of the workspace that holds the id of its
    /// configuration.
    pub fn workspace_id_dir(&self) -> (dir: Option<ConfigLocation>)
        ensures
            location_view(dir) == (match self.workspace_path {
                Some(path) => Some(joined(at(path@), ".jj"@)),
                None => None,
            }),
    {
        match &self.workspace_path {
            Some(path) => Some(join(location(path), ".jj")),
            None => None,
        }
    }

    /// Returns what conditional scopes in the configuration are resolved
    /// within.
    pub fn resolution_context(&self) -> (context: ConfigResolutionContext<'_>)
        ensures
            str_view(context.home_dir) == string_view(self.home_dir),
            str_view(context.repo_path) == string_view(self.repo_path),
            str_view(context.workspace_path) == string_view(self.workspace_path),
            str_view(context.command) == string_view(self.command),
            context.hostname@ == (match self.hostname {
                Some(hostname) => hostname@,
                None => ""@,
            }),
            *context.environment == self.environment,
    {
        let hostname: &str = match &self.hostname {
            Some(hostname) => hostname.as_str(),
            None => "",
        };
        ConfigResolutionContext {
            home_dir: as_deref(&self.home_dir),
            repo_path: as_deref(&self.repo_path),
            workspace_path: as_deref(&self.workspace_path),
            command: as_deref(&self.command),
            hostname,
            environment: &self.environment,
        }
    }
}

/// Whether a layer was loaded.
pub open spec fn has_layer<E>(loaded: Result<Option<ConfigLayer>, E>) -> bool {
    loaded is Ok && loaded->Ok_0 is Some
}

/// Whether a layer, if one was loaded, is of the source.
pub open spec fn is_single_layer<E>(
    loaded: Result<Option<ConfigLayer>, E>,
    source: ConfigSource,
) -> bool {
    has_layer(loaded) ==> loaded->Ok_0->Some_0.source == source
}

/// The layer that was loaded, if there is one.
pub open spec fn single_layer<E>(loaded: Result<Option<ConfigLayer>, E>) -> Seq<ConfigLayer> {
    if has_layer(loaded) {
        seq![loaded->Ok_0->Some_0]
    } else {
        Seq::empty()
    }
}

/// Whether loading went well, or the error.
pub open spec fn single_result<E>(loaded: Result<Option<ConfigLayer>, E>) -> Result<(), E> {
    match loaded {
        Ok(_) => Ok(()),
        Err(error) => Err(error),
    }
}

fn reload_single<E>(
    config: &mut RawConfig,
    source: ConfigSource,
    loaded: Result<Option<ConfigLayer>, E>,
) -> (result: Result<(), E>)
    requires
        old(config).well_formed(),
        is_single_layer(loaded, source),
    ensures
        result == single_result(loaded),
        final(config).well_formed(),
        layers_for(final(config)@, source) == single_layer(loaded),
        layers_without(final(config)@, source) == layers_without(old(config)@, source),
{
    let mut layers: Vec<ConfigLayer> = Vec::new();
    let mut result: Result<(), E> = Ok(());
    match loaded {
        Ok(Some(layer)) => layers.push(layer),
        Ok(None) => {},
        Err(error) => result = Err(error),
    }
    assert(layers@ =~= single_layer(loaded));
    config.reload(source, layers);
    result
}

/// List of rules to migrate deprecated config variables. There are none.
pub fn default_config_migrations<R>() -> (rules: Vec<R>)
    ensures
        rules@ == Seq::<R>::empty(),
{
    Vec::new()
}

/// Returns the names of the files that hold default values, in the order in
/// which they are layered.
pub fn default_config_layers(unix: bool, windows: bool) -> (names: Vec<&'static str>)
    ensures
        names@.map_values(|name: &'static str| name@) == seq![
            "config/colors.toml"@,
            "config/hints.toml"@,
            "config/merge_tools.toml"@,
            "config/misc.toml"@,
            "config/revsets.toml"@,
            "config/templates.toml"@,
        ] + (if unix {
            seq!["config/unix.toml"@]
        } else {
            Seq::empty()
        }) + (if windows {
            seq!["config/windows.toml"@]
        } else {
            Seq::empty()
        }),
{
    let mut names: Vec<&'static str> = Vec::new();
    names.push("config/colors.toml");
    names.push("config/hints.toml");
    names.push("config/merge_tools.toml");
    names.push("config/misc.toml");
    names.push("config/revsets.toml");
    names.push("config/templates.toml");
    if unix {
        names.push("config/unix.toml");
    }
    if windows {
        names.push("config/windows.toml");
    }
    names
}

/// The positions of the layers of a source that were loaded from a file.
pub open spec fn file_layers(layers: Seq<ConfigLayer>, source: ConfigSource) -> Seq<int>
    decreases layers.len(),
{
    if layers.len() == 0 {
        Seq::empty()
    } else {
        let front = file_layers(layers.drop_last(), source);
        if layers.last().source == source && layers.last().path is Some {
            front.push(layers.len() - 1)
        } else {
            front
        }
    }
}

/// The files that are edited when the configuration of a source is edited.
#[derive(Debug, PartialEq, Eq)]
pub enum FilesToEdit {
    /// The files that the layers at the positions were loaded from.
    Existing(Vec<usize>),
    /// A new file, if it is known where to put it.
    New,
}

/// Whether `files` are the files of all layers of the source that were loaded
/// from a file, or a new file if there are none.
pub open spec fn are_files_to_edit(
    layers: Seq<ConfigLayer>,
    source: ConfigSource,
    files: FilesToEdit,
) -> bool {
    match files {
        FilesToEdit::Existing(positions) => positions@.len() > 0 && positions@.map_values(
            |position: usize| position as int,
        ) == file_layers(layers, source),
        FilesToEdit::New => file_layers(layers, source).len() == 0,
    }
}

/// Returns the positions of the layers of a source that were loaded from a
/// file. The configuration of the source is edited in those files, or in a new
/// file if there are none.
pub fn config_files_for(layers: &[ConfigLayer], source: ConfigSource) -> (files: FilesToEdit)
    ensures
        are_files_to_edit(layers@, source, files),
{
    let mut positions: Vec<usize> = Vec::new();
    let mut i: usize = 0;
    while i < layers.len()
        invariant
            i <= layers@.len(),
            positions@.map_values(|position: usize| position as int) == file_layers(
                layers@.take(i as int),
                source,
            ),
        decreases layers@.len() - i,
    {
        assert(layers@.take(i + 1).drop_last() =~= layers@.take(i as int));
        assert(layers@.take(i + 1).last() == layers@[i as int]);
        if layers[i].source == source && layers[i].path.is_some() {
            let ghost before = positions@;
            positions.push(i);
            assert(positions@.map_values(|position: usize| position as int)
                =~= before.map_values(|position: usize| position as int).push(i as int));
        }
        i += 1;
    }
    assert(layers@.take(layers@.len() as int) =~= layers@);
    if positions.len() == 0 {
        FilesToEdit::New
    } else {
        FilesToEdit::Existing(positions)
    }
}

impl ConfigEnv {
    /// Returns user configuration files for modification. If `config` has no
    /// user configuration layers that were loaded from a file, a new file is
    /// created at [`Self::new_user_config_path()`], if that is known.
    pub fn user_config_files(&self, config: &RawConfig) -> (files: FilesToEdit)
        ensures
            are_files_to_edit(config@, ConfigSource::User, files),
    {
        config_files_for(config.layers().as_slice(), ConfigSource::User)
    }

    /// Returns repo configuration files for modification. If `config` has no
    /// repo configuration layer that was loaded from a file, a new file is
    /// created in [`Self::repo_config_dir()`], if that is known.
    pub fn repo_config_files(&self, config: &RawConfig) -> (files: FilesToEdit)
        ensures
            are_files_to_edit(config@, ConfigSource::Repo, files),
    {
        config_files_for(config.layers().as_slice(), ConfigSource::Repo)
    }

    /// Returns workspace configuration files for modification. If `config` has
    /// no workspace configuration layer that was loaded from a file, a new file
    /// is created in [`Self::workspace_config_dir()`], if that is known.
    pub fn workspace_config_files(&self, config: &RawConfig) -> (files: FilesToEdit)
        ensures
            are_files_to_edit(config@, ConfigSource::Workspace, files),
    {
        config_files_for(config.layers().as_slice(), ConfigSource::Workspace)
    }
}

/// Returns the position of the layer that was loaded from the repo-specific
/// config file. Unlike [`ConfigEnv::repo_config_dir()`], this doesn't lead to a
/// new config ID and its storage directory.
pub fn existing_repo_config_file(layers: &[ConfigLayer]) -> (position: Option<usize>)
    ensures
        match position {
            Some(position) => file_layers(layers@, ConfigSource::Repo).len() > 0 && position
                == file_layers(layers@, ConfigSource::Repo)[0],
            None => file_layers(layers@, ConfigSource::Repo).len() == 0,
        },
{
    // There should be at most one repo-level config file.
    match config_files_for(layers, ConfigSource::Repo) {
        FilesToEdit::Existing(positions) => {
            assert(positions@.map_values(|position: usize| position as int)[0] == positions@[0]);
            Some(positions[0])
        },
        FilesToEdit::New => None,
    }
}

/// Whether a variable of the configuration is set to a text.
pub open spec fn is_set(
    settings: Seq<(Seq<char>, ValueView)>,
    name: Seq<char>,
    text: Seq<char>,
) -> bool {
    settings.contains((name, ValueView::Text(text)))
}

proof fn lemma_text_setting(
    name: Seq<char>,
    text: Option<String>,
    other: Seq<char>,
    value: ValueView,
)
    ensures
        text_setting(name, text).contains((other, value)) <==> name == other && (text matches Some(
            text,
        ) && value == ValueView::Text(text@)),
{
    let settings = text_setting(name, text);
    if let Some(text) = text {
        assert(settings[0] == (name, ValueView::Text(text@)));
    }
}

proof fn lemma_names_differ()
    ensures
        OP_HOSTNAME@ != OP_USERNAME@,
        OP_HOSTNAME@ != "ui.color"@,
        OP_HOSTNAME@ != "ui.editor"@,
        OP_USERNAME@ != "ui.color"@,
        OP_USERNAME@ != "ui.editor"@,
        "ui.color"@ != "ui.editor"@,
{
    reveal_strlit("operation.hostname");
    reveal_strlit("operation.username");
    reveal_strlit("ui.color");
    reveal_strlit("ui.editor");
    assert(OP_HOSTNAME@[10] == 'h');
    assert(OP_USERNAME@[10] == 'u');
    assert("ui.color"@.len() == 8 && "ui.editor"@.len() == 9 && OP_HOSTNAME@.len() == 18
        && OP_USERNAME@.len() == 18);
}

/// What the environment says below all other configuration: the host, the user,
/// the editor, and that there are no colors. The better known variable counts,
/// and the other one only without it.
pub proof fn lemma_base_settings(env: BaseEnvironment, text: Seq<char>)
    ensures
        is_set(base_settings(env), OP_HOSTNAME@, text) <==> (env.hostname matches Some(value)
            && value@ == text),
        is_set(base_settings(env), OP_USERNAME@, text) <==> (match env.username {
            Some(value) => value@ == text,
            None => env.user matches Some(value) && value@ == text,
        }),
        is_set(base_settings(env), "ui.color"@, text) <==> text == "never"@ && (
        env.no_color matches Some(value) && value@.len() > 0),
        is_set(base_settings(env), "ui.editor"@, text) <==> (match env.visual {
            Some(value) => value@ == text,
            None => env.editor matches Some(value) && value@ == text,
        }),
        base_settings(env).len() <= 4,
{
    lemma_names_differ();
    let a = text_setting(OP_HOSTNAME@, env.hostname);
    let b = text_setting(OP_USERNAME@, or_else(env.username, env.user));
    let c = if env.no_color is Some && env.no_color->Some_0@.len() > 0 {
        seq![("ui.color"@, ValueView::Text("never"@))]
    } else {
        Seq::empty()
    };
    let d = text_setting("ui.editor"@, or_else(env.visual, env.editor));
    assert forall|name: Seq<char>| #[trigger]
        is_set(base_settings(env), name, text) <==> a.contains((name, ValueView::Text(text)))
            || b.contains((name, ValueView::Text(text))) || c.contains(
            (name, ValueView::Text(text)),
        ) || d.contains((name, ValueView::Text(text))) by {
        let item = (name, ValueView::Text(text));
        lemma_concat_contains(a, b, item);
        lemma_concat_contains(a + b, c, item);
        lemma_concat_contains(a + b + c, d, item);
    }
    assert forall|name: Seq<char>|
        #![trigger a.contains((name, ValueView::Text(text)))]
        #![trigger b.contains((name, ValueView::Text(text)))]
        #![trigger c.contains((name, ValueView::Text(text)))]
        #![trigger d.contains((name, ValueView::Text(text)))]
        {
            &&& a.contains((name, ValueView::Text(text))) <==> name == OP_HOSTNAME@ && (
            env.hostname matches Some(value) && value@ == text)
            &&& b.contains((name, ValueView::Text(text))) <==> name == OP_USERNAME@ && (or_else(
                env.username,
                env.user,
            ) matches Some(value) && value@ == text)
            &&& c.contains((name, ValueView::Text(text))) <==> name == "ui.color"@ && text
                == "never"@ && (env.no_color matches Some(value) && value@.len() > 0)
            &&& d.contains((name, ValueView::Text(text))) <==> name == "ui.editor"@ && (or_else(
                env.visual,
                env.editor,
            ) matches Some(value) && value@ == text)
        } by {
        let value = ValueView::Text(text);
        lemma_text_setting(OP_HOSTNAME@, env.hostname, name, value);
        lemma_text_setting(OP_USERNAME@, or_else(env.username, env.user), name, value);
        lemma_text_setting("ui.editor"@, or_else(env.visual, env.editor), name, value);
        if c.len() > 0 {
            assert(c[0] == ("ui.color"@, ValueView::Text("never"@)));
        }
    }
}

/// What the environment says above all other configuration: each variable that
/// is set sets the one that it stands for, and nothing else is set. The seed
/// counts only if it is a number.
pub proof fn lemma_override_settings(
    env: OverrideEnvironment,
    name: Seq<char>,
    value: ValueView,
)
    ensures
        override_settings(env).contains((name, value)) <==> {
            ||| name == "user.name"@ && is_text_of(env.user, value)
            ||| name == "user.email"@ && is_text_of(env.email, value)
            ||| name == "debug.commit-timestamp"@ && is_text_of(env.timestamp, value)
            ||| name == "debug.randomness-seed"@ && (env.randomness_seed matches Some(seed) && (
            decimal_i64(seed@) matches Some(number) && value == ValueView::Integer(number)))
            ||| name == "debug.operation-timestamp"@ && is_text_of(env.op_timestamp, value)
            ||| name == OP_HOSTNAME@ && is_text_of(env.op_hostname, value)
            ||| name == OP_USERNAME@ && is_text_of(env.op_username, value)
            ||| name == "ui.editor"@ && is_text_of(env.editor, value)
            ||| name == "ui.pager"@ && is_text_of(env.pager, value)
        },
{
    let item = (name, value);
    let a = text_setting("user.name"@, env.user);
    let b = text_setting("user.email"@, env.email);
    let c = text_setting("debug.commit-timestamp"@, env.timestamp);
    let d = seed_setting(env.randomness_seed);
    let e = text_setting("debug.operation-timestamp"@, env.op_timestamp);
    let f = text_setting(OP_HOSTNAME@, env.op_hostname);
    let g = text_setting(OP_USERNAME@, env.op_username);
    let h = text_setting("ui.editor"@, env.editor);
    let i = text_setting("ui.pager"@, env.pager);
    lemma_concat_contains(a, b, item);
    lemma_concat_contains(a + b, c, item);
    lemma_concat_contains(a + b + c, d, item);
    lemma_concat_contains(a + b + c + d, e, item);
    lemma_concat_contains(a + b + c + d + e, f, item);
    lemma_concat_contains(a + b + c + d + e + f, g, item);
    lemma_concat_contains(a + b + c + d + e + f + g, h, item);
    lemma_concat_contains(a + b + c + d + e + f + g + h, i, item);
    lemma_text_setting("user.name"@, env.user, name, value);
    lemma_text_setting("user.email"@, env.email, name, value);
    lemma_text_setting("debug.commit-timestamp"@, env.timestamp, name, value);
    lemma_text_setting("debug.operation-timestamp"@, env.op_timestamp, name, value);
    lemma_text_setting(OP_HOSTNAME@, env.op_hostname, name, value);
    lemma_text_setting(OP_USERNAME@, env.op_username, name, value);
    lemma_text_setting("ui.editor"@, env.editor, name, value);
    lemma_text_setting("ui.pager"@, env.pager, name, value);
    if let Some(seed) = env.randomness_seed {
        if let Some(number) = decimal_i64(seed@) {
            assert(d[0] == ("debug.randomness-seed"@, ValueView::Integer(number)));
        }
    }
}

/// Whether a value is the text of a variable that is set.
pub open spec fn is_text_of(variable: Option<String>, value: ValueView) -> bool {
    variable matches Some(text) && value == ValueView::Text(text@)
}

/// Whether places come in ascending order, each once.
pub open spec fn is_increasing(places: Seq<int>) -> bool {
    forall|i: int, j: int| 0 <= i < j < places.len() ==> #[trigger] places[i] < #[trigger] places[j]
}

/// The given paths are kept in order, but for the empty ones.
pub proof fn lemma_given_paths(paths: Seq<String>, found: Seq<bool>) -> (places: Seq<int>)
    requires
        paths.len() <= found.len(),
    ensures
        is_increasing(places),
        forall|i: int|
            #![trigger paths[i]]
            0 <= i < paths.len() && paths[i]@.len() > 0 <==> places.contains(i),
        forall|k: int| 0 <= k < places.len() ==> 0 <= #[trigger] places[k] < paths.len(),
        given_paths(paths, found).len() == places.len(),
        forall|k: int|
            0 <= k < places.len() ==> #[trigger] given_paths(paths, found)[k] == (
                (LocationView { base: paths[places[k]]@, components: Seq::empty() }),
                found[places[k]],
            ),
    decreases paths.len(),
{
    if paths.len() == 0 {
        Seq::empty()
    } else {
        let front = paths.drop_last();
        let last = paths.len() - 1;
        let before = lemma_given_paths(front, found);
        assert(paths[last] == paths.last());
        let places = if paths.last()@.len() > 0 {
            before.push(last)
        } else {
            before
        };
        assert forall|i: int|
            #![trigger paths[i]]
            0 <= i < paths.len() && paths[i]@.len() > 0 <==> places.contains(i) by {
            lemma_push_contains(before, last, i);
            if 0 <= i < last {
                assert(front[i] == paths[i]);
            }
            if before.contains(i) {
                assert(front[i] == paths[i]);
            }
        }
        assert forall|k: int| 0 <= k < places.len() implies #[trigger] given_paths(paths, found)[k]
            == (
            (LocationView { base: paths[places[k]]@, components: Seq::empty() }),
            found[places[k]],
        ) by {
            if k < before.len() {
                assert(given_paths(paths, found)[k] == given_paths(front, found)[k]);
                assert(front[before[k]] == paths[before[k]]);
            }
        }
        places
    }
}

/// The paths at which there is something are kept in order, and no others.
pub proof fn lemma_existing_paths(paths: Seq<(LocationView, bool)>) -> (places: Seq<int>)
    ensures
        is_increasing(places),
        forall|i: int|
            #![trigger paths[i]]
            0 <= i < paths.len() && paths[i].1 <==> places.contains(i),
        forall|k: int| 0 <= k < places.len() ==> 0 <= #[trigger] places[k] < paths.len(),
        existing_paths(paths).len() == places.len(),
        forall|k: int|
            0 <= k < places.len() ==> #[trigger] existing_paths(paths)[k] == paths[places[k]].0,
    decreases paths.len(),
{
    if paths.len() == 0 {
        Seq::empty()
    } else {
        let front = paths.drop_last();
        let last = paths.len() - 1;
        let before = lemma_existing_paths(front);
        assert(paths[last] == paths.last());
        let places = if paths.last().1 {
            before.push(last)
        } else {
            before
        };
        assert forall|i: int|
            #![trigger paths[i]]
            0 <= i < paths.len() && paths[i].1 <==> places.contains(i) by {
            lemma_push_contains(before, last, i);
            if 0 <= i < last {
                assert(front[i] == paths[i]);
            }
            if before.contains(i) {
                assert(front[i] == paths[i]);
            }
        }
        assert forall|k: int| 0 <= k < places.len() implies #[trigger] existing_paths(paths)[k]
            == paths[places[k]].0 by {
            if k < before.len() {
                assert(existing_paths(paths)[k] == existing_paths(front)[k]);
                assert(front[before[k]] == paths[before[k]]);
            }
        }
        places
    }
}

/// The layers of a source that were loaded from a file are known by their
/// places, in ascending order.
pub proof fn lemma_file_layers(layers: Seq<ConfigLayer>, source: ConfigSource)
    ensures
        is_increasing(file_layers(layers, source)),
        forall|k: int|
            0 <= k < file_layers(layers, source).len() ==> 0 <= #[trigger] file_layers(
                layers,
                source,
            )[k] < layers.len(),
        forall|i: int|
            #![trigger layers[i]]
            0 <= i < layers.len() && layers[i].source == source && layers[i].path is Some
                <==> file_layers(layers, source).contains(i),
    decreases layers.len(),
{
    if layers.len() > 0 {
        let front = layers.drop_last();
        let last = layers.len() - 1;
        let before = file_layers(front, source);
        lemma_file_layers(front, source);
        assert(layers[last] == layers.last());
        assert forall|i: int|
            #![trigger layers[i]]
            0 <= i < layers.len() && layers[i].source == source && layers[i].path is Some
                <==> file_layers(layers, source).contains(i) by {
            lemma_push_contains(before, last, i);
            if 0 <= i < last {
                assert(front[i] == layers[i]);
            }
            if before.contains(i) {
                assert(front[i] == layers[i]);
            }
        }
    }
}

/// Where user configuration is looked for without the variable `JJ_CONFIG`: the
/// file in the home directory first, but only if it is there or there is no
/// other place, then the file in the directory for configuration, then the
/// directory in it if it is there.
pub proof fn lemma_user_paths(env: UnresolvedConfigEnv, probe: UserProbe)
    requires
        env.jj_config is None,
    ensures
        env.home_dir is Some && (probe.home || env.user_config_dir is None)
            ==> env.user_paths(probe).len() > 0 && env.user_paths(probe)[0] == (
            (LocationView { base: env.home_dir->Some_0@, components: seq![".jjconfig.toml"@] }),
            probe.home,
        ),
        env.user_config_dir is None && env.home_dir is None ==> env.user_paths(probe).len() == 0,
        env.user_config_dir is None && env.home_dir is Some ==> env.user_paths(probe).len() == 1,
        env.user_config_dir matches Some(dir) ==> ({
            let paths = env.user_paths(probe);
            let first = if env.home_dir is Some && probe.home {
                1int
            } else {
                0int
            };
            &&& paths.len() == first + 1 + (if probe.platform_dir {
                1int
            } else {
                0int
            })
            &&& paths[first] == (
                (LocationView { base: dir@, components: seq!["jj"@, "config.toml"@] }),
                probe.platform,
            )
            &&& probe.platform_dir ==> paths[first + 1] == (
                (LocationView { base: dir@, components: seq!["jj"@, "conf.d"@] }),
                true,
            )
        }),
{
    let none = Seq::<Seq<char>>::empty();
    assert(none.push(".jjconfig.toml"@) =~= seq![".jjconfig.toml"@]);
    assert(none.push("jj"@).push("config.toml"@) =~= seq!["jj"@, "config.toml"@]);
    assert(none.push("jj"@).push("conf.d"@) =~= seq!["jj"@, "conf.d"@]);
}

/// The variable `JJ_CONFIG` takes the place of all other user configuration, and
/// of that of the system.
pub proof fn lemma_jj_config(
    env: UnresolvedConfigEnv,
    other: UnresolvedConfigEnv,
    probe: UserProbe,
    other_probe: UserProbe,
    file_exists: bool,
    dir_exists: bool,
)
    requires
        env.jj_config is Some,
        env.jj_config == other.jj_config,
        probe.jj_config == other_probe.jj_config,
    ensures
        env.user_paths(probe) == other.user_paths(other_probe),
        env.system_paths(file_exists, dir_exists).len() == 0,
{
}

/// Without the variable, the configuration of the system is a file and a
/// directory, if the place for it is known.
pub proof fn lemma_system_paths(env: UnresolvedConfigEnv, file_exists: bool, dir_exists: bool)
    requires
        env.jj_config is None,
    ensures
        env.system_config_dir is None ==> env.system_paths(file_exists, dir_exists).len() == 0,
        env.system_config_dir matches Some(dir) ==> env.system_paths(file_exists, dir_exists)
            == seq![
            (
                (LocationView { base: dir@, components: seq!["jj/config.toml"@] }),
                file_exists,
            ),
            ((LocationView { base: dir@, components: seq!["jj/conf.d"@] }), dir_exists),
        ],
{
    let none = Seq::<Seq<char>>::empty();
    assert(none.push("jj/config.toml"@) =~= seq!["jj/config.toml"@]);
    assert(none.push("jj/conf.d"@) =~= seq!["jj/conf.d"@]);
}

/// What is loaded from each path is kept in order, as long as there is no error.
pub proof fn lemma_loaded_layers<E>(
    a: Seq<Result<Vec<ConfigLayer>, E>>,
    layers: Vec<ConfigLayer>,
    b: Seq<Result<Vec<ConfigLayer>, E>>,
)
    requires
        forall|i: int| 0 <= i < a.len() ==> #[trigger] a[i] is Ok,
    ensures
        loaded_layers(a.push(Ok(layers)) + b) == loaded_layers(a) + layers@ + loaded_layers(b),
        load_result(a.push(Ok(layers)) + b) == load_result(b),
        load_result(a) == Ok::<(), E>(()),
    decreases a.len(),
{
    let all = a.push(Ok(layers)) + b;
    if a.len() == 0 {
        assert(all[0] == Ok::<Vec<ConfigLayer>, E>(layers));
        assert(all.skip(1) =~= b);
        assert(loaded_layers(a) + layers@ + loaded_layers(b) =~= layers@ + loaded_layers(b));
    } else {
        let rest = a.skip(1);
        assert(all[0] == a[0]);
        assert(all.skip(1) =~= rest.push(Ok(layers)) + b);
        assert forall|i: int| 0 <= i < rest.len() implies #[trigger] rest[i] is Ok by {
            assert(rest[i] == a[i + 1]);
        }
        lemma_loaded_layers(rest, layers, b);
        let first = a[0]->Ok_0@;
        assert(first + (loaded_layers(rest) + layers@ + loaded_layers(b)) =~= first
            + loaded_layers(rest) + layers@ + loaded_layers(b));
    }
}

/// The first error ends the loading. What was loaded before it is kept.
pub proof fn lemma_load_error<E>(
    a: Seq<Result<Vec<ConfigLayer>, E>>,
    error: E,
    b: Seq<Result<Vec<ConfigLayer>, E>>,
)
    requires
        forall|i: int| 0 <= i < a.len() ==> #[trigger] a[i] is Ok,
    ensures
        loaded_layers(a.push(Err(error)) + b) == loaded_layers(a),
        load_result(a.push(Err(error)) + b) == Err::<(), E>(error),
    decreases a.len(),
{
    let all = a.push(Err(error)) + b;
    if a.len() == 0 {
        assert(all[0] == Err::<Vec<ConfigLayer>, E>(error));
    } else {
        let rest = a.skip(1);
        assert(all[0] == a[0]);
        assert(all.skip(1) =~= rest.push(Err(error)) + b);
        assert forall|i: int| 0 <= i < rest.len() implies #[trigger] rest[i] is Ok by {
            assert(rest[i] == a[i + 1]);
        }
        lemma_load_error(rest, error, b);
    }
}

} // verus!
