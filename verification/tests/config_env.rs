//! Where configuration comes from.

use std::collections::HashMap;

use jj_core::config::ConfigValue;
use jj_core::config_env::config_files_for;
use jj_core::config_env::default_config_layers;
use jj_core::config_env::default_config_migrations;
use jj_core::config_env::env_base_layer;
use jj_core::config_env::env_overrides_layer;
use jj_core::config_env::existing_repo_config_file;
use jj_core::config_env::BaseEnvironment;
use jj_core::config_env::ConfigEnv;
use jj_core::config_env::ConfigLocation;
use jj_core::config_env::FilesToEdit;
use jj_core::config_env::OverrideEnvironment;
use jj_core::config_env::Setting;
use jj_core::config_env::UnresolvedConfigEnv;
use jj_core::config_env::UserProbe;
use jj_core::config_layers::ConfigLayer;
use jj_core::config_layers::ConfigSource;
use jj_core::raw_config::config_from_environment;
use jj_core::raw_config::RawConfig;

fn path(location: &ConfigLocation) -> String {
    let mut path = location.base.clone();
    for component in &location.components {
        path.push('/');
        path.push_str(component);
    }
    path
}

fn is_file(files: &[&str], file: &str) -> bool {
    files.contains(&file)
}

fn is_there(files: &[&str], path: &str) -> bool {
    let dir = format!("{path}/");
    files
        .iter()
        .any(|file| *file == path || file.starts_with(&dir))
}

fn env(
    home_dir: Option<&str>,
    user_config_dir: Option<&str>,
    jj_config: Option<&[&str]>,
    system_config_dir: Option<&str>,
) -> UnresolvedConfigEnv {
    UnresolvedConfigEnv {
        user_config_dir: user_config_dir.map(|dir| dir.to_owned()),
        home_dir: home_dir.map(|dir| dir.to_owned()),
        jj_config: jj_config.map(|paths| paths.iter().map(|path| path.to_string()).collect()),
        system_config_dir: system_config_dir.map(|dir| dir.to_owned()),
    }
}

fn resolve(files: &[&str], env: UnresolvedConfigEnv) -> ConfigEnv {
    let found =
        |location: Option<ConfigLocation>| location.is_some_and(|at| is_there(files, &path(&at)));
    let probe = UserProbe {
        jj_config: match &env.jj_config {
            Some(paths) => paths.iter().map(|path| is_file(files, path)).collect(),
            None => vec![],
        },
        home: found(env.home_config_path()),
        platform: found(env.platform_config_path()),
        platform_dir: found(env.platform_config_dir()),
    };
    let system_dir = env.system_config_dir.clone().unwrap_or_default();
    let system_file_exists = is_there(files, &format!("{system_dir}/jj/config.toml"));
    let system_dir_exists = is_there(files, &format!("{system_dir}/jj/conf.d"));
    ConfigEnv::from_environment(
        env,
        &probe,
        system_file_exists,
        system_dir_exists,
        None,
        HashMap::from([("KEY".to_owned(), "value".to_owned())]),
    )
}

fn check_user(files: &[&str], env: UnresolvedConfigEnv, wants: &[(&str, bool)]) {
    let env = resolve(files, env);
    let all: Vec<String> = env.user_config_paths().into_iter().map(path).collect();
    let existing: Vec<String> = env
        .existing_user_config_paths()
        .into_iter()
        .map(path)
        .collect();
    let all_expected: Vec<String> = wants.iter().map(|(path, _)| path.to_string()).collect();
    let existing_expected: Vec<String> = wants
        .iter()
        .filter(|(_, there)| *there)
        .map(|(path, _)| path.to_string())
        .collect();
    assert_eq!(all, all_expected);
    assert_eq!(existing, existing_expected);
}

fn check_system(files: &[&str], env: UnresolvedConfigEnv, wants: &[(&str, bool)]) {
    let env = resolve(files, env);
    let all: Vec<String> = env
        .system_config_paths
        .iter()
        .map(|config_path| path(config_path.as_path()))
        .collect();
    let existing: Vec<String> = env
        .existing_system_config_paths()
        .into_iter()
        .map(path)
        .collect();
    let all_expected: Vec<String> = wants.iter().map(|(path, _)| path.to_string()).collect();
    let existing_expected: Vec<String> = wants
        .iter()
        .filter(|(_, there)| *there)
        .map(|(path, _)| path.to_string())
        .collect();
    assert_eq!(all, all_expected);
    assert_eq!(existing, existing_expected);
}

#[test]
fn config_path_home_existing() {
    check_user(
        &["home/.jjconfig.toml"],
        env(Some("home"), None, None, None),
        &[("home/.jjconfig.toml", true)],
    );
}

#[test]
fn config_path_home_new() {
    check_user(
        &[],
        env(Some("home"), None, None, None),
        &[("home/.jjconfig.toml", false)],
    );
}

#[test]
fn config_path_home_existing_platform_new() {
    check_user(
        &["home/.jjconfig.toml"],
        env(Some("home"), Some("config"), None, None),
        &[
            ("home/.jjconfig.toml", true),
            ("config/jj/config.toml", false),
        ],
    );
}

#[test]
fn config_path_platform_existing() {
    check_user(
        &["config/jj/config.toml"],
        env(Some("home"), Some("config"), None, None),
        &[("config/jj/config.toml", true)],
    );
}

#[test]
fn config_path_platform_new() {
    check_user(
        &[],
        env(None, Some("config"), None, None),
        &[("config/jj/config.toml", false)],
    );
}

#[test]
fn config_path_new_prefer_platform() {
    check_user(
        &[],
        env(Some("home"), Some("config"), None, None),
        &[("config/jj/config.toml", false)],
    );
}

#[test]
fn config_path_jj_config_existing() {
    check_user(
        &["custom.toml"],
        env(None, None, Some(&["custom.toml"]), None),
        &[("custom.toml", true)],
    );
}

#[test]
fn config_path_jj_config_new() {
    check_user(
        &[],
        env(None, None, Some(&["custom.toml"]), None),
        &[("custom.toml", false)],
    );
}

#[test]
fn config_path_jj_config_existing_multiple() {
    check_user(
        &["custom1.toml", "custom2.toml"],
        env(None, None, Some(&["custom1.toml", "custom2.toml"]), None),
        &[("custom1.toml", true), ("custom2.toml", true)],
    );
}

#[test]
fn config_path_jj_config_new_multiple() {
    check_user(
        &["custom1.toml"],
        env(None, None, Some(&["custom1.toml", "custom2.toml"]), None),
        &[("custom1.toml", true), ("custom2.toml", false)],
    );
}

#[test]
fn config_path_jj_config_empty_paths_filtered() {
    check_user(
        &["custom1.toml"],
        env(
            None,
            None,
            Some(&["custom1.toml", "", "custom2.toml"]),
            None,
        ),
        &[("custom1.toml", true), ("custom2.toml", false)],
    );
}

#[test]
fn config_path_jj_config_empty() {
    check_user(&[], env(None, None, Some(&[""]), None), &[]);
}

#[test]
fn config_path_config_pick_platform() {
    check_user(
        &["config/jj/config.toml"],
        env(Some("home"), Some("config"), None, None),
        &[("config/jj/config.toml", true)],
    );
}

#[test]
fn config_path_config_pick_home() {
    check_user(
        &["home/.jjconfig.toml"],
        env(Some("home"), Some("config"), None, None),
        &[
            ("home/.jjconfig.toml", true),
            ("config/jj/config.toml", false),
        ],
    );
}

#[test]
fn config_path_platform_new_conf_dir_existing() {
    check_user(
        &["config/jj/conf.d/_"],
        env(Some("home"), Some("config"), None, None),
        &[
            ("config/jj/config.toml", false),
            ("config/jj/conf.d", true),
        ],
    );
}

#[test]
fn config_path_platform_existing_conf_dir_existing() {
    check_user(
        &["config/jj/config.toml", "config/jj/conf.d/_"],
        env(Some("home"), Some("config"), None, None),
        &[("config/jj/config.toml", true), ("config/jj/conf.d", true)],
    );
}

#[test]
fn config_path_all_existing() {
    check_user(
        &[
            "config/jj/conf.d/_",
            "config/jj/config.toml",
            "home/.jjconfig.toml",
        ],
        env(Some("home"), Some("config"), None, None),
        // Precedence order is important
        &[
            ("home/.jjconfig.toml", true),
            ("config/jj/config.toml", true),
            ("config/jj/conf.d", true),
        ],
    );
}

#[test]
fn config_path_none() {
    check_user(&[], env(None, None, None, None), &[]);
}

#[test]
fn system_config_path_none() {
    check_system(
        &["etc/jj/config.toml", "system/jj/conf.d/_"],
        env(None, None, None, None),
        &[],
    );
}

#[test]
fn system_config_path_existing() {
    check_system(
        &["system/jj/config.toml", "system/jj/conf.d/_"],
        env(None, None, None, Some("system")),
        &[("system/jj/config.toml", true), ("system/jj/conf.d", true)],
    );
}

#[test]
fn system_config_path_jj_config() {
    check_system(
        &["system/jj/config.toml"],
        env(None, None, Some(&["custom.toml"]), Some("system")),
        &[],
    );
}

#[test]
fn new_files_go_to_the_first_path() {
    let config_env = resolve(&[], env(Some("home"), Some("config"), None, None));
    assert_eq!(
        config_env.new_user_config_path().map(path),
        Some("config/jj/config.toml".to_owned())
    );
    let config_env = resolve(&[], env(None, None, None, None));
    assert!(config_env.new_user_config_path().is_none());
    assert!(config_env.repo_configs_root_dir().is_none());
}

#[test]
fn repositories_have_their_own_directories() {
    let mut config_env = resolve(&[], env(None, Some("config"), None, None));
    assert_eq!(
        config_env.root_config_dir.as_ref().map(path),
        Some("config/jj".to_owned())
    );
    assert_eq!(
        config_env.repo_configs_root_dir().as_ref().map(path),
        Some("config/jj/repos".to_owned())
    );
    assert!(config_env.repo_config_dir().is_none());
    assert!(config_env.workspace_config_dir().is_none());

    config_env.reset_repo_path("repo".to_owned());
    config_env.reset_workspace_path("workspace".to_owned());
    config_env.set_command_name("log".to_owned());
    assert_eq!(
        config_env.repo_config_dir().as_ref().map(path),
        Some("config/jj/repos".to_owned())
    );
    assert_eq!(
        config_env.workspace_config_dir().as_ref().map(path),
        Some("config/jj/workspaces".to_owned())
    );
    assert_eq!(config_env.command.as_deref(), Some("log"));
}

fn named(settings: &[Setting]) -> Vec<(&'static str, ConfigValue)> {
    settings
        .iter()
        .map(|setting| (setting.name, setting.value.copy()))
        .collect()
}

fn some(value: &str) -> Option<String> {
    Some(value.to_owned())
}

fn text(value: &str) -> ConfigValue {
    ConfigValue::Text(value.to_owned())
}

#[test]
fn base_environment() {
    let settings = env_base_layer(&BaseEnvironment {
        hostname: some("host"),
        username: None,
        user: some("me"),
        no_color: some("1"),
        visual: some("vi"),
        editor: some("ed"),
    });
    assert_eq!(
        named(&settings),
        vec![
            ("operation.hostname", text("host")),
            ("operation.username", text("me")),
            ("ui.color", text("never")),
            ("ui.editor", text("vi")),
        ]
    );
    let settings = env_base_layer(&BaseEnvironment {
        hostname: None,
        username: some("found"),
        user: some("me"),
        no_color: some(""),
        visual: None,
        editor: some("ed"),
    });
    assert_eq!(
        named(&settings),
        vec![
            ("operation.username", text("found")),
            ("ui.editor", text("ed")),
        ]
    );
}

#[test]
fn override_environment() {
    let mut env = OverrideEnvironment {
        user: some("name"),
        email: some("a@b"),
        timestamp: some("t1"),
        randomness_seed: some("42"),
        op_timestamp: some("t2"),
        op_hostname: some("host"),
        op_username: some("user"),
        editor: some("vi"),
        pager: some("less"),
    };
    assert_eq!(
        named(&env_overrides_layer(&env)),
        vec![
            ("user.name", text("name")),
            ("user.email", text("a@b")),
            ("debug.commit-timestamp", text("t1")),
            ("debug.randomness-seed", ConfigValue::Integer(42)),
            ("debug.operation-timestamp", text("t2")),
            ("operation.hostname", text("host")),
            ("operation.username", text("user")),
            ("ui.editor", text("vi")),
            ("ui.pager", text("less")),
        ]
    );
    // A seed that is not a number is ignored.
    env.randomness_seed = some("many");
    assert!(named(&env_overrides_layer(&env))
        .iter()
        .all(|(name, _)| *name != "debug.randomness-seed"));
}

fn layer(source: ConfigSource, path: Option<&str>) -> ConfigLayer {
    ConfigLayer {
        source,
        path: path.map(|path| path.to_owned()),
        entries: vec![],
    }
}

#[test]
fn files_to_edit() {
    let layers = [
        layer(ConfigSource::Default, None),
        layer(ConfigSource::User, Some("one.toml")),
        layer(ConfigSource::User, None),
        layer(ConfigSource::User, Some("two.toml")),
        layer(ConfigSource::Repo, Some("repo.toml")),
    ];
    assert_eq!(
        config_files_for(&layers, ConfigSource::User),
        FilesToEdit::Existing(vec![1, 3])
    );
    assert_eq!(
        config_files_for(&layers, ConfigSource::Default),
        FilesToEdit::New
    );
    assert_eq!(existing_repo_config_file(&layers), Some(4));
    assert_eq!(existing_repo_config_file(&layers[..4]), None);
}

#[test]
fn files_to_edit_in_a_stack() {
    let config_env = resolve(&[], env(None, Some("config"), None, None));
    let config = config_from_environment(
        vec![],
        vec![layer(ConfigSource::Default, Some("default.toml"))],
        layer(ConfigSource::EnvBase, None),
        layer(ConfigSource::EnvOverrides, None),
    );
    assert_eq!(config_env.user_config_files(&config), FilesToEdit::New);
    assert_eq!(config_env.repo_config_files(&config), FilesToEdit::New);
    assert_eq!(config_env.workspace_config_files(&config), FilesToEdit::New);
}

fn sources_and_paths(config: &RawConfig) -> Vec<(ConfigSource, Option<String>)> {
    config
        .layers()
        .iter()
        .map(|layer| (layer.source, layer.path.clone()))
        .collect()
}

#[test]
fn layers_are_reloaded() {
    let mut config_env = resolve(
        &[
            "system/jj/config.toml",
            "home/.jjconfig.toml",
            "config/jj/config.toml",
        ],
        env(Some("home"), Some("config"), None, Some("system")),
    );
    config_env.reset_repo_path("repo".to_owned());
    config_env.reset_workspace_path("workspace".to_owned());
    let mut config = config_from_environment(
        vec![layer(ConfigSource::Default, Some("lib"))],
        vec![layer(ConfigSource::Default, Some("cli"))],
        layer(ConfigSource::EnvBase, None),
        layer(ConfigSource::EnvOverrides, None),
    );
    config.add_layer(layer(ConfigSource::CommandArg, None));
    let ok = |source: ConfigSource, path: &str| -> Result<Vec<ConfigLayer>, String> {
        Ok(vec![layer(source, Some(path))])
    };
    for _ in 0..2 {
        config_env
            .reload_workspace_config::<String>(
                &mut config,
                Ok(Some(layer(ConfigSource::Workspace, Some("w")))),
            )
            .unwrap();
        config_env
            .reload_user_config(
                &mut config,
                vec![
                    ok(ConfigSource::User, "home"),
                    ok(ConfigSource::User, "config"),
                ],
            )
            .unwrap();
        config_env
            .reload_repo_config::<String>(
                &mut config,
                Ok(Some(layer(ConfigSource::Repo, Some("r")))),
            )
            .unwrap();
        config_env
            .reload_system_config(&mut config, vec![ok(ConfigSource::System, "system")])
            .unwrap();
        let some = |path: &str| Some(path.to_owned());
        assert_eq!(
            sources_and_paths(&config),
            vec![
                (ConfigSource::Default, some("lib")),
                (ConfigSource::Default, some("cli")),
                (ConfigSource::System, some("system")),
                (ConfigSource::EnvBase, None),
                (ConfigSource::User, some("home")),
                (ConfigSource::User, some("config")),
                (ConfigSource::Repo, some("r")),
                (ConfigSource::Workspace, some("w")),
                (ConfigSource::EnvOverrides, None),
                (ConfigSource::CommandArg, None),
            ]
        );
    }
    assert_eq!(
        config_env.user_config_files(&config),
        FilesToEdit::Existing(vec![4, 5])
    );

    // The first error ends the loading.
    let result = config_env.reload_user_config(
        &mut config,
        vec![Err("bad".to_owned()), ok(ConfigSource::User, "config")],
    );
    assert_eq!(result, Err("bad".to_owned()));
    assert!(sources_and_paths(&config)
        .iter()
        .all(|(source, _)| *source != ConfigSource::User));
    let result = config_env.reload_repo_config(&mut config, Err("worse"));
    assert_eq!(result, Err("worse"));
    config_env
        .reload_workspace_config::<String>(&mut config, Ok(None))
        .unwrap();
    assert_eq!(config.layers().len(), 6);
    config.remove_layers(ConfigSource::Default);
    assert_eq!(config.layers()[0].source, ConfigSource::System);
}

#[test]
fn context_of_conditions() {
    let mut config_env = resolve(&[], env(Some("home"), None, None, None));
    let context = config_env.resolution_context();
    assert_eq!(context.home_dir, Some("home"));
    assert_eq!(context.repo_path, None);
    assert_eq!(context.hostname, "");
    assert_eq!(context.environment.get("KEY").map(String::as_str), Some("value"));
    config_env.reset_repo_path("repo".to_owned());
    config_env.reset_workspace_path("workspace".to_owned());
    config_env.set_command_name("log".to_owned());
    config_env.hostname = some("host");
    let context = config_env.resolution_context();
    assert_eq!(context.repo_path, Some("repo"));
    assert_eq!(context.workspace_path, Some("workspace"));
    assert_eq!(context.command, Some("log"));
    assert_eq!(context.hostname, "host");
    assert_eq!(
        config_env.workspace_id_dir().as_ref().map(path),
        Some("workspace/.jj".to_owned())
    );
}

#[test]
fn default_files() {
    let common = [
        "config/colors.toml",
        "config/hints.toml",
        "config/merge_tools.toml",
        "config/misc.toml",
        "config/revsets.toml",
        "config/templates.toml",
    ];
    assert_eq!(default_config_layers(false, false), common);
    assert_eq!(
        default_config_layers(true, false),
        [&common[..], &["config/unix.toml"]].concat()
    );
    assert_eq!(
        default_config_layers(false, true),
        [&common[..], &["config/windows.toml"]].concat()
    );
}

#[test]
fn nothing_is_migrated() {
    assert!(default_config_migrations::<String>().is_empty());
}

#[test]
fn layers_lie_where_their_sources_put_them() {
    let config = config_from_environment(
        vec![layer(ConfigSource::Default, Some("lib"))],
        vec![
            layer(ConfigSource::User, Some("user")),
            layer(ConfigSource::Default, Some("cli")),
            layer(ConfigSource::CommandArg, None),
        ],
        layer(ConfigSource::EnvBase, None),
        layer(ConfigSource::EnvOverrides, None),
    );
    let sources: Vec<ConfigSource> = config.layers().iter().map(|layer| layer.source).collect();
    assert_eq!(
        sources,
        [
            ConfigSource::Default,
            ConfigSource::Default,
            ConfigSource::EnvBase,
            ConfigSource::User,
            ConfigSource::EnvOverrides,
            ConfigSource::CommandArg,
        ]
    );
}
