//! External command names and arguments.

use jj_core::command_config::find_all_variables;
use jj_core::command_config::interpolate_variables;
use jj_core::command_config::split_command_string;
use jj_core::command_config::substitute;
use jj_core::command_config::CommandNameAndArgs;
use jj_core::command_config::NonEmptyCommandArgsVec;

fn strings(texts: &[&str]) -> Vec<String> {
    texts.iter().map(|text| text.to_string()).collect()
}

fn pairs(texts: &[(&str, &str)]) -> Vec<(String, String)> {
    texts
        .iter()
        .map(|(name, value)| (name.to_string(), value.to_string()))
        .collect()
}

fn command(texts: &[&str]) -> NonEmptyCommandArgsVec {
    NonEmptyCommandArgsVec::try_from(strings(texts)).unwrap()
}

#[test]
fn test_string_split_name_and_args() {
    let cmd = CommandNameAndArgs::String("emacs -nw".to_owned());
    let (name, args) = cmd.split_name_and_args();
    assert_eq!(name, "emacs");
    assert_eq!(args, ["-nw"]);
}

#[test]
fn test_string_quoted_split_name_and_args() {
    let cmd = CommandNameAndArgs::String(r#""spaced path/emacs" -nw"#.to_owned());
    let (name, args) = cmd.split_name_and_args();
    assert_eq!(name, "spaced path/emacs");
    assert_eq!(args, ["-nw"]);
}

#[test]
fn test_vec_split_name_and_args() {
    let cmd = CommandNameAndArgs::Vec(command(&["emacs", "-nw"]));
    let (name, args) = cmd.split_name_and_args();
    assert_eq!(name, "emacs");
    assert_eq!(args, ["-nw"]);
}

#[test]
fn test_structured_split_name_and_args() {
    let cmd = CommandNameAndArgs::Structured {
        env: pairs(&[("KEY", "val")]),
        command: command(&["emacs", "-nw"]),
    };
    let (name, args) = cmd.split_name_and_args();
    assert_eq!(name, "emacs");
    assert_eq!(args, ["-nw"]);
}

#[test]
fn test_nonempty_args_vec_rejects_empty() {
    let err = NonEmptyCommandArgsVec::try_from(vec![]);
    assert!(err.is_err());
    assert_eq!(err.unwrap_err(), "command arguments should not be empty");
}

#[test]
fn test_interpolate_variables() {
    let vars = pairs(&[("path", "my file.txt")]);
    let args = vec!["--out=$path".to_owned(), "$path".to_owned()];
    let result = interpolate_variables(&args, &vars);
    assert_eq!(result, vec!["--out=my file.txt", "my file.txt"]);
}

#[test]
fn test_uppercase_variable_not_interpolated() {
    let vars = pairs(&[]);
    let args = vec!["$UPPER".to_owned()];
    // $UPPER is all-caps; only lower case names are variables, so unchanged
    assert_eq!(interpolate_variables(&args, &vars), vec!["$UPPER"]);
}

#[test]
fn test_find_all_variables() {
    let args = vec![
        "$path".to_owned(),
        "--flag=$dir".to_owned(),
        "$UPPER".to_owned(),
    ];
    let vars = find_all_variables(&args);
    // $UPPER not matched (uppercase)
    assert_eq!(vars, vec!["path", "dir"]);
}

#[test]
fn names_end_at_word_boundaries() {
    let vars = pairs(&[("a", "1"), ("a_2", "2"), ("path", "p")]);
    let args = strings(&["$a", "$aB", "$a_2", "$a-$path.", "$$a", "$", "$a\u{e9}", "$a\u{b2}"]);
    assert_eq!(
        interpolate_variables(&args, &vars),
        strings(&["1", "$aB", "2", "1-p.", "$1", "$", "$a\u{e9}", "1\u{b2}"])
    );
    assert_eq!(
        find_all_variables(&args),
        strings(&["a", "a_2", "a", "path", "a", "a"])
    );
}

#[test]
fn unknown_variables_stay() {
    let vars = pairs(&[("left", "a"), ("left", "b")]);
    let args = strings(&["$left $right $left", "no variables", ""]);
    assert_eq!(
        interpolate_variables(&args, &vars),
        strings(&["a $right a", "no variables", ""])
    );
    assert_eq!(interpolate_variables(&args, &pairs(&[])), args);
}

#[test]
fn substitution_takes_the_pieces() {
    assert_eq!(
        substitute(
            &strings(&["--out=", ".", ""]),
            &strings(&["$dir", "$ext"]),
            &pairs(&[("dir", "target"), ("ext", "txt")]),
        ),
        "--out=target.txt"
    );
}

#[test]
fn strings_are_split_on_every_space_without_quotes() {
    let split = |text: &str| CommandNameAndArgs::from(text).split_name_and_args();
    assert_eq!(split(""), ("".to_owned(), strings(&[])));
    assert_eq!(split("a  b "), ("a".to_owned(), strings(&["", "b", ""])));
    assert_eq!(split("a\\ b"), ("a\\".to_owned(), strings(&["b"])));
    // Quotes that are not closed are taken as they are.
    assert_eq!(split("a 'b c"), ("a".to_owned(), strings(&["'b", "c"])));
    assert_eq!(split("a 'b c'  d"), ("a".to_owned(), strings(&["b c", "d"])));
    // There is nothing but a comment.
    assert_eq!(split("# 'b'"), ("".to_owned(), strings(&[])));
}

#[test]
fn words_of_a_shell_count_only_with_quotes() {
    let words = || Some(strings(&["x", "y z"]));
    assert_eq!(
        split_command_string("x 'y z'", words()),
        ("x".to_owned(), strings(&["y z"]))
    );
    assert_eq!(
        split_command_string("x y z", words()),
        ("x".to_owned(), strings(&["y", "z"]))
    );
    assert_eq!(
        split_command_string("\"\"", Some(vec![])),
        ("".to_owned(), strings(&[]))
    );
}

#[test]
fn only_strings_have_a_string() {
    assert_eq!(CommandNameAndArgs::from(":builtin").as_str(), Some(":builtin"));
    assert_eq!(CommandNameAndArgs::Vec(command(&[":builtin"])).as_str(), None);
    assert_eq!(CommandNameAndArgs::from("emacs -nw").split_name(), "emacs");
}

#[test]
fn commands_are_interpolated() {
    let cmd = CommandNameAndArgs::Structured {
        env: pairs(&[("KEY", "$val")]),
        command: command(&["$tool", "--in=$in", "$OUT"]),
    };
    let line = cmd.to_command_with_variables(&pairs(&[("tool", "fmt"), ("in", "a b")]));
    assert_eq!(line.name, "fmt");
    assert_eq!(line.args, strings(&["--in=a b", "$OUT"]));
    assert_eq!(line.env, pairs(&[("KEY", "$val")]));
    let line = cmd.to_command();
    assert_eq!(line.name, "$tool");
    assert_eq!(line.args, strings(&["--in=$in", "$OUT"]));
    assert_eq!(cmd.text(), "KEY=$val $tool --in=$in $OUT");
    assert_eq!(CommandNameAndArgs::from("a  b").text(), "a  b");
    assert_eq!(CommandNameAndArgs::Vec(command(&["a", "b"])).text(), "a b");
}

#[test]
fn only_found_variables_count() {
    let args: Vec<String> = vec!["$left:$right".to_owned(), "$left$".to_owned()];
    assert_eq!(find_all_variables(&args), ["left", "right", "left"]);
    let some = pairs(&[("left", "1"), ("right", "2")]);
    let more = pairs(&[("other", "9"), ("right", "2"), ("left", "1")]);
    assert_eq!(interpolate_variables(&args, &some), ["1:2", "1$"]);
    assert_eq!(
        interpolate_variables(&args, &more),
        interpolate_variables(&args, &some)
    );
}
