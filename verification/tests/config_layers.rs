//! Layers of configuration.

use jj_core::config::ConfigValue;
use jj_core::config_layers::alias_warning;
use jj_core::config_layers::load_aliases_map;
use jj_core::config_layers::resolved_config_values;
use jj_core::config_layers::AnnotatedValue;
use jj_core::config_layers::ConfigGetError;
use jj_core::config_layers::ConfigItem;
use jj_core::config_layers::ConfigLayer;
use jj_core::config_layers::ConfigSource;
use jj_core::config_layers::LookUp;

fn name(text: &str) -> Vec<String> {
    if text.is_empty() {
        return vec![];
    }
    text.split('.').map(|part| part.to_owned()).collect()
}

fn text_item(text: &str) -> ConfigItem {
    ConfigItem::Value(ConfigValue::Text(text.to_owned()))
}

fn set(entries: &mut Vec<(String, ConfigItem)>, name: &[String], item: ConfigItem) {
    let position = entries.iter().position(|(key, _)| *key == name[0]);
    if name.len() == 1 {
        match position {
            Some(position) => entries[position].1 = item,
            None => entries.push((name[0].clone(), item)),
        }
        return;
    }
    let position = position.unwrap_or_else(|| {
        let table = ConfigItem::Table {
            inline: false,
            entries: vec![],
        };
        entries.push((name[0].clone(), table));
        entries.len() - 1
    });
    match &mut entries[position].1 {
        ConfigItem::Table { entries, .. } => set(entries, &name[1..], item),
        _ => panic!("not a table"),
    }
}

fn layer(source: ConfigSource, values: &[(&str, &str)]) -> ConfigLayer {
    let mut entries = vec![];
    for (key, value) in values {
        set(&mut entries, &name(key), text_item(value));
    }
    ConfigLayer {
        source,
        path: None,
        entries,
    }
}

type Row = (String, ConfigValue, ConfigSource, Option<String>, bool);

fn rows(values: Vec<AnnotatedValue>) -> Vec<Row> {
    values
        .into_iter()
        .map(|value| {
            (
                value.name.join("."),
                value.value,
                value.source,
                value.path,
                value.is_overridden,
            )
        })
        .collect()
}

fn row(name: &str, value: &str, source: ConfigSource, is_overridden: bool) -> Row {
    (
        name.to_owned(),
        ConfigValue::Text(value.to_owned()),
        source,
        None,
        is_overridden,
    )
}

#[test]
fn test_resolved_config_values_empty() {
    assert!(resolved_config_values(&[], &vec![]).is_empty());
}

#[test]
fn test_resolved_config_values_single_key() {
    let env_base_layer = layer(
        ConfigSource::EnvBase,
        &[
            ("user.name", "base-user-name"),
            ("user.email", "base@user.email"),
        ],
    );
    let repo_layer = layer(ConfigSource::Repo, &[("user.email", "repo@user.email")]);
    assert_eq!(
        rows(resolved_config_values(
            &[env_base_layer, repo_layer],
            &vec![]
        )),
        vec![
            row("user.name", "base-user-name", ConfigSource::EnvBase, false),
            row("user.email", "base@user.email", ConfigSource::EnvBase, true),
            row("user.email", "repo@user.email", ConfigSource::Repo, false),
        ]
    );
}

#[test]
fn test_resolved_config_values_filter_path() {
    let user_layer = layer(
        ConfigSource::User,
        &[
            ("test-table1.foo", "user-FOO"),
            ("test-table2.bar", "user-BAR"),
        ],
    );
    let repo_layer = layer(ConfigSource::Repo, &[("test-table1.bar", "repo-BAR")]);
    assert_eq!(
        rows(resolved_config_values(
            &[user_layer, repo_layer],
            &name("test-table1")
        )),
        vec![
            row("test-table1.foo", "user-FOO", ConfigSource::User, false),
            row("test-table1.bar", "repo-BAR", ConfigSource::Repo, false),
        ]
    );
}

#[test]
fn test_resolved_config_values_overridden() {
    let list = |layers: &[usize], prefix: &str| -> String {
        let layers: Vec<ConfigLayer> = layers
            .iter()
            .map(|number| match number {
                0 => layer(
                    ConfigSource::User,
                    &[("a.b.e", "0.0"), ("a.b.c.f", "0.1"), ("a.b.d", "0.2")],
                ),
                1 => layer(ConfigSource::User, &[("a.b", "1.0"), ("a.c", "1.1")]),
                _ => layer(ConfigSource::User, &[("a.b.g", "2.0"), ("a.b.d", "2.1")]),
            })
            .collect();
        let mut output = String::new();
        for annotated in resolved_config_values(&layers, &name(prefix)) {
            let sigil = if annotated.is_overridden { '!' } else { ' ' };
            let name = annotated.name.join(".");
            let ConfigValue::Text(value) = annotated.value else {
                panic!("not a string");
            };
            output.push_str(&format!("{sigil}{name} = {value:?}\n"));
        }
        output
    };

    // a.b.* is shadowed by a.b
    let layers = [0, 1];
    assert_eq!(
        list(&layers, ""),
        concat_lines(&[
            r#"!a.b.e = "0.0""#,
            r#"!a.b.c.f = "0.1""#,
            r#"!a.b.d = "0.2""#,
            r#" a.b = "1.0""#,
            r#" a.c = "1.1""#,
        ])
    );
    assert_eq!(
        list(&layers, "a.b"),
        concat_lines(&[
            r#"!a.b.e = "0.0""#,
            r#"!a.b.c.f = "0.1""#,
            r#"!a.b.d = "0.2""#,
            r#" a.b = "1.0""#,
        ])
    );
    assert_eq!(
        list(&layers, "a.b.c"),
        concat_lines(&[r#"!a.b.c.f = "0.1""#])
    );
    assert_eq!(list(&layers, "a.b.d"), concat_lines(&[r#"!a.b.d = "0.2""#]));

    // a.b is shadowed by a.b.*
    let layers = [1, 2];
    assert_eq!(
        list(&layers, ""),
        concat_lines(&[
            r#"!a.b = "1.0""#,
            r#" a.c = "1.1""#,
            r#" a.b.g = "2.0""#,
            r#" a.b.d = "2.1""#,
        ])
    );
    assert_eq!(
        list(&layers, "a.b"),
        concat_lines(&[
            r#"!a.b = "1.0""#,
            r#" a.b.g = "2.0""#,
            r#" a.b.d = "2.1""#,
        ])
    );

    // a.b.d is shadowed by a.b.d
    let layers = [0, 2];
    assert_eq!(
        list(&layers, ""),
        concat_lines(&[
            r#" a.b.e = "0.0""#,
            r#" a.b.c.f = "0.1""#,
            r#"!a.b.d = "0.2""#,
            r#" a.b.g = "2.0""#,
            r#" a.b.d = "2.1""#,
        ])
    );
    assert_eq!(
        list(&layers, "a.b"),
        concat_lines(&[
            r#" a.b.e = "0.0""#,
            r#" a.b.c.f = "0.1""#,
            r#"!a.b.d = "0.2""#,
            r#" a.b.g = "2.0""#,
            r#" a.b.d = "2.1""#,
        ])
    );
    assert_eq!(
        list(&layers, "a.b.c"),
        concat_lines(&[r#" a.b.c.f = "0.1""#])
    );
    assert_eq!(
        list(&layers, "a.b.d"),
        concat_lines(&[r#"!a.b.d = "0.2""#, r#" a.b.d = "2.1""#])
    );

    // a.b.* is shadowed by a.b, which is shadowed by a.b.*
    let layers = [0, 1, 2];
    assert_eq!(
        list(&layers, ""),
        concat_lines(&[
            r#"!a.b.e = "0.0""#,
            r#"!a.b.c.f = "0.1""#,
            r#"!a.b.d = "0.2""#,
            r#"!a.b = "1.0""#,
            r#" a.c = "1.1""#,
            r#" a.b.g = "2.0""#,
            r#" a.b.d = "2.1""#,
        ])
    );
    assert_eq!(
        list(&layers, "a.b"),
        concat_lines(&[
            r#"!a.b.e = "0.0""#,
            r#"!a.b.c.f = "0.1""#,
            r#"!a.b.d = "0.2""#,
            r#"!a.b = "1.0""#,
            r#" a.b.g = "2.0""#,
            r#" a.b.d = "2.1""#,
        ])
    );
    assert_eq!(
        list(&layers, "a.b.c"),
        concat_lines(&[r#"!a.b.c.f = "0.1""#])
    );
}

fn concat_lines(lines: &[&str]) -> String {
    lines.iter().map(|line| format!("{line}\n")).collect()
}

#[test]
fn top_layer_is_visible() {
    let lower = layer(ConfigSource::Default, &[("a", "low"), ("b", "low")]);
    let upper = layer(ConfigSource::CommandArg, &[("a", "high")]);
    let values = rows(resolved_config_values(&[lower, upper], &vec![]));
    assert_eq!(
        values,
        vec![
            row("a", "low", ConfigSource::Default, true),
            row("b", "low", ConfigSource::Default, false),
            row("a", "high", ConfigSource::CommandArg, false),
        ]
    );
}

#[test]
fn items_are_looked_up_by_name() {
    let layer = layer(ConfigSource::User, &[("a.b", "x"), ("c", "y")]);
    assert!(matches!(
        layer.look_up_item(&name("a.b")),
        LookUp::Item(ConfigItem::Value(ConfigValue::Text(text))) if text == "x"
    ));
    assert!(matches!(
        layer.look_up_item(&name("a")),
        LookUp::Item(ConfigItem::Table { .. })
    ));
    assert!(matches!(layer.look_up_item(&[]), LookUp::Top(_)));
    assert!(matches!(layer.look_up_item(&name("d")), LookUp::Nothing));
    assert!(matches!(layer.look_up_item(&name("a.d")), LookUp::Nothing));
    assert!(matches!(
        layer.look_up_item(&name("c.d")),
        LookUp::NotTable(ConfigItem::Value(_))
    ));
}

#[test]
fn aliases_come_from_all_layers() {
    let mut lower = layer(ConfigSource::Default, &[("aliases.f", "low")]);
    set(
        &mut lower.entries,
        &name("aliases.g.definition"),
        text_item("all()"),
    );
    set(
        &mut lower.entries,
        &name("aliases.g.doc"),
        text_item("Everything"),
    );
    set(
        &mut lower.entries,
        &name("aliases.bad"),
        ConfigItem::Value(ConfigValue::Integer(1)),
    );
    let middle = layer(ConfigSource::User, &[("other", "x")]);
    let upper = layer(ConfigSource::Repo, &[("aliases.f", "high")]);
    let aliases =
        load_aliases_map(&[lower, middle, upper], &name("aliases"), "aliases").unwrap();
    let found: Vec<(String, Result<(String, Option<String>), String>)> = aliases
        .into_iter()
        .map(|alias| (alias.decl, alias.definition))
        .collect();
    assert_eq!(
        found,
        vec![
            ("f".to_owned(), Ok(("low".to_owned(), None))),
            (
                "g".to_owned(),
                Ok(("all()".to_owned(), Some("Everything".to_owned())))
            ),
            (
                "bad".to_owned(),
                Err(
                    "Expected a string or a table with a `definition` string key, but is integer"
                        .to_owned()
                )
            ),
            ("f".to_owned(), Ok(("high".to_owned(), None))),
        ]
    );
    assert_eq!(
        alias_warning("aliases", "bad", "no string"),
        "Failed to load `aliases.bad`: no string"
    );
}

#[test]
fn aliases_must_be_a_table() {
    let lower = layer(ConfigSource::Default, &[("aliases.f", "low")]);
    let mut upper = layer(ConfigSource::User, &[("aliases", "high")]);
    upper.path = Some("config.toml".to_owned());
    let result = load_aliases_map(&[lower, upper], &name("aliases"), "aliases");
    let ConfigGetError::Type {
        name,
        error,
        source_path,
    } = result.unwrap_err();
    assert_eq!(name, "aliases");
    assert_eq!(error, "Expected a table, but is string");
    assert_eq!(source_path, Some("config.toml".to_owned()));
}
