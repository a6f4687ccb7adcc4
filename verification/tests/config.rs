//! Configuration values and arguments.

use jj_core::command_config::CommandNameAndArgs;
use jj_core::command_config::NonEmptyCommandArgsVec;
use jj_core::config::choose_split;
use jj_core::config::is_bare_string;
use jj_core::config::parse_config_arg_item;
use jj_core::config::parse_config_args;
use jj_core::config::parse_value_or_bare_string;
use jj_core::config::value_or_bare_string;
use jj_core::config::ConfigArgError;
use jj_core::config::ConfigArgKind;
use jj_core::config::ConfigArgLayer;
use jj_core::config::ConfigValue;

fn text(text: &str) -> ConfigValue {
    ConfigValue::Text(text.to_owned())
}

fn strings(texts: &[&str]) -> Vec<String> {
    texts.iter().map(|text| text.to_string()).collect()
}

#[test]
fn test_parse_value_or_bare_string() {
    let parse = |s: &str| parse_value_or_bare_string(s);

    // Value in TOML syntax
    assert_eq!(parse("true"), Ok(ConfigValue::Boolean(true)));
    assert_eq!(parse("42"), Ok(ConfigValue::Integer(42)));
    assert_eq!(parse("-1"), Ok(ConfigValue::Integer(-1)));
    assert_eq!(parse("'a'"), Ok(text("a")));
    assert!(matches!(parse("[]"), Ok(ConfigValue::Array(_))));
    assert!(matches!(
        parse("{ a = 'b' }"),
        Ok(ConfigValue::InlineTable(_))
    ));

    // Bare string
    assert_eq!(parse(""), Ok(text("")));
    assert_eq!(parse("John Doe"), Ok(text("John Doe")));
    assert_eq!(parse("Doe, John"), Ok(text("Doe, John")));
    assert_eq!(parse("It's okay"), Ok(text("It's okay")));
    assert_eq!(
        parse("<foo+bar@example.org>"),
        Ok(text("<foo+bar@example.org>"))
    );
    assert_eq!(parse("#ff00aa"), Ok(text("#ff00aa")));
    assert_eq!(parse("all()"), Ok(text("all()")));
    assert_eq!(parse("glob:*.*"), Ok(text("glob:*.*")));
    assert_eq!(parse("柔術"), Ok(text("柔術")));

    // Error in TOML value
    assert!(parse("'foo").is_err());
    assert!(parse(r#" bar" "#).is_err());
    assert!(parse("[0 1]").is_err());
    assert!(parse("{ x = y }").is_err());
    assert!(parse("\n { x").is_err());
    assert!(parse(" x ] ").is_err());
    assert!(parse("[table]\nkey = 'value'").is_err());
}

#[test]
fn test_parse_config_arg_item() {
    assert!(parse_config_arg_item("").is_err());
    assert!(parse_config_arg_item("a").is_err());
    assert!(parse_config_arg_item("=").is_err());
    // The value parser is sensitive to leading whitespaces, which seems
    // good because the parsing falls back to a bare string.
    assert!(parse_config_arg_item("a = 'b'").is_err());

    let (name, value) = parse_config_arg_item("a=b").unwrap();
    assert_eq!(name, ["a"]);
    assert_eq!(value, text("b"));

    let (name, value) = parse_config_arg_item("a=").unwrap();
    assert_eq!(name, ["a"]);
    assert_eq!(value, text(""));

    let (name, value) = parse_config_arg_item("a= ").unwrap();
    assert_eq!(name, ["a"]);
    assert_eq!(value, text(" "));

    // This one is a bit cryptic, but b=c can be a bare string.
    let (name, value) = parse_config_arg_item("a=b=c").unwrap();
    assert_eq!(name, ["a"]);
    assert_eq!(value, text("b=c"));

    let (name, value) = parse_config_arg_item("a.b=true").unwrap();
    assert_eq!(name, ["a", "b"]);
    assert_eq!(value, ConfigValue::Boolean(true));

    let (name, value) = parse_config_arg_item("a='b=c'").unwrap();
    assert_eq!(name, ["a"]);
    assert_eq!(value, text("b=c"));

    let (name, value) = parse_config_arg_item("'a=b'=c").unwrap();
    assert_eq!(name, ["a=b"]);
    assert_eq!(value, text("c"));

    let (name, value) = parse_config_arg_item("'a = b=c '={d = 'e=f'}").unwrap();
    assert_eq!(name, ["a = b=c "]);
    assert_eq!(
        value,
        ConfigValue::InlineTable("{d = 'e=f'}".to_owned())
    );
}

#[test]
fn test_command_args() {
    assert!(NonEmptyCommandArgsVec::try_from(strings(&[])).is_err());

    let command_args = CommandNameAndArgs::String("".to_owned());
    let (name, args) = command_args.split_name_and_args();
    assert_eq!(name, "");
    assert!(args.is_empty());

    let command_args = CommandNameAndArgs::Vec(
        NonEmptyCommandArgsVec::try_from(strings(&["emacs", "-nw"])).unwrap(),
    );
    let (name, args) = command_args.split_name_and_args();
    assert_eq!(name, "emacs");
    assert_eq!(args, ["-nw"]);

    let command_args = CommandNameAndArgs::String("emacs -nw".to_owned());
    let (name, args) = command_args.split_name_and_args();
    assert_eq!(name, "emacs");
    assert_eq!(args, ["-nw"]);

    let command_args = CommandNameAndArgs::String("\"spaced path/to/emacs\" -nw".to_owned());
    let (name, args) = command_args.split_name_and_args();
    assert_eq!(name, "spaced path/to/emacs");
    assert_eq!(args, ["-nw"]);

    let command_args = CommandNameAndArgs::Structured {
        env: vec![
            ("KEY1".to_owned(), "value1".to_owned()),
            ("KEY2".to_owned(), "value2".to_owned()),
        ],
        command: NonEmptyCommandArgsVec::try_from(strings(&["emacs", "-nw"])).unwrap(),
    };
    let (name, args) = command_args.split_name_and_args();
    assert_eq!(name, "emacs");
    assert_eq!(args, ["-nw"]);
}

#[test]
fn values_of_every_kind() {
    let kinds = [
        ("'a'", "string"),
        ("1", "integer"),
        ("1.5", "float"),
        ("false", "boolean"),
        ("1979-05-27", "datetime"),
        ("[1]", "array"),
        ("{a = 1}", "inline table"),
    ];
    for (toml, kind) in kinds {
        let value = parse_value_or_bare_string(toml).unwrap();
        assert_eq!(value.kind(), kind);
        assert_eq!(value.copy(), value);
    }
    assert_eq!(
        parse_value_or_bare_string("1979-05-27"),
        Ok(ConfigValue::Datetime("1979-05-27".to_owned()))
    );
    assert_eq!(
        parse_value_or_bare_string("[1, 'x']"),
        Ok(ConfigValue::Array("[1, 'x']".to_owned()))
    );
}

#[test]
fn bare_strings() {
    assert!(is_bare_string("abc"));
    assert!(is_bare_string(""));
    assert!(is_bare_string("a\"b"));
    assert!(!is_bare_string("\"abc"));
    assert!(!is_bare_string("abc'"));
    assert!(!is_bare_string(" [abc"));
    assert!(!is_bare_string("abc} "));
}

#[test]
fn value_or_bare_string_from_a_result() {
    assert_eq!(
        value_or_bare_string(Ok(ConfigValue::Integer(3)), "3"),
        Ok(ConfigValue::Integer(3))
    );
    assert_eq!(
        value_or_bare_string(Err("no value".to_owned()), "bare"),
        Ok(text("bare"))
    );
    assert_eq!(
        value_or_bare_string(Err("no value".to_owned()), "[bare"),
        Err("no value".to_owned())
    );
}

#[test]
fn first_split_with_a_name_is_chosen() {
    assert!(choose_split(vec![]).is_none());

    let split = choose_split(vec![
        (Err("first".to_owned()), "1".to_owned()),
        (Ok(strings(&["a"])), "2".to_owned()),
        (Ok(strings(&["b"])), "3".to_owned()),
    ]);
    assert_eq!(split, Some((Ok(strings(&["a"])), "2".to_owned())));

    let split = choose_split(vec![
        (Err("first".to_owned()), "1".to_owned()),
        (Err("last".to_owned()), "2".to_owned()),
    ]);
    assert_eq!(split, Some((Err("last".to_owned()), "2".to_owned())));
}

#[test]
fn errors_of_config_arguments() {
    let error = parse_config_arg_item("a").unwrap_err();
    assert!(matches!(error, ConfigArgError::NotNameValue));
    assert_eq!(error.message(), "--config must be specified as NAME=VALUE");

    let error = parse_config_arg_item("=b").unwrap_err();
    assert!(matches!(error, ConfigArgError::Name(_)));
    assert_eq!(error.message(), "--config name cannot be parsed");

    let error = parse_config_arg_item("a=[").unwrap_err();
    assert!(matches!(error, ConfigArgError::Value(_)));
    assert_eq!(error.message(), "--config value cannot be parsed");
}

fn items_of(layer: &ConfigArgLayer) -> Vec<(String, ConfigValue)> {
    match layer {
        ConfigArgLayer::Items(items) => items
            .iter()
            .map(|(name, value)| (name.join("."), value.copy()))
            .collect(),
        ConfigArgLayer::File(_) => panic!("not a layer of items"),
    }
}

#[test]
fn items_between_files_share_a_layer() {
    let args = parse_config_args(&[
        (ConfigArgKind::Item, "a=1"),
        (ConfigArgKind::Item, "b.c=x"),
        (ConfigArgKind::File, "first.toml"),
        (ConfigArgKind::File, "second.toml"),
        (ConfigArgKind::Item, "a=2"),
    ]);
    assert!(args.error.is_none());
    assert_eq!(args.layers.len(), 4);
    assert_eq!(
        items_of(&args.layers[0]),
        vec![
            ("a".to_owned(), ConfigValue::Integer(1)),
            ("b.c".to_owned(), text("x")),
        ]
    );
    assert!(matches!(&args.layers[1], ConfigArgLayer::File(path) if path == "first.toml"));
    assert!(matches!(&args.layers[2], ConfigArgLayer::File(path) if path == "second.toml"));
    assert_eq!(
        items_of(&args.layers[3]),
        vec![("a".to_owned(), ConfigValue::Integer(2))]
    );
    assert!(parse_config_args(&[]).layers.is_empty());
}

#[test]
fn first_bad_item_ends_the_arguments() {
    let args = parse_config_args(&[
        (ConfigArgKind::Item, "a=1"),
        (ConfigArgKind::File, "first.toml"),
        (ConfigArgKind::Item, "b=2"),
        (ConfigArgKind::Item, "c"),
        (ConfigArgKind::Item, "=d"),
    ]);
    assert!(matches!(args.error, Some(ConfigArgError::NotNameValue)));
}
