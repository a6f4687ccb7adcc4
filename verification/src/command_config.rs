//! Types for specifying external command names and arguments via config.
//!
//! [`CommandNameAndArgs`] is used for tool configuration such as diff tools,
//! merge tools, fix tools, and gitattributes filter drivers.

use regex::Regex;
use vstd::prelude::*;

use crate::seq_util::join_with;
use crate::seq_util::lemma_concat_contains;
use crate::seq_util::lemma_split_then_join;
use crate::seq_util::split_on;
use crate::text::copy_texts;
use crate::text::lemma_texts_push;
use crate::text::texts;

verus! {

/// What a variable in an argument looks like. Variables in upper case are of no
/// interest.
pub const VARIABLE_PATTERN: &'static str = "\\$([a-z0-9_]+)\\b";

/// Splits a text at the separators.
fn split_text(text: &str, separator: char) -> (pieces: Vec<String>)
    ensures
        texts(pieces@) == split_on(text@, separator),
        pieces@.len() > 0,
{
    let mut pieces: Vec<String> = Vec::new();
    let mut piece: String = String::new();
    assert(texts(pieces@).push(piece@) =~= split_on(text@.take(0), separator));
    for c in it: text.chars()
        invariant
            it.seq() == text@,
            texts(pieces@).push(piece@) == split_on(text@.take(it.index() as int), separator),
    {
        let ghost before = texts(pieces@).push(piece@);
        let ghost now = text@.take(it.index() + 1);
        assert(now.drop_last() =~= text@.take(it.index() as int));
        assert(now.last() == c);
        if c == separator {
            proof {
                lemma_texts_push(pieces@, piece);
            }
            pieces.push(piece);
            piece = String::new();
            assert(piece@ =~= Seq::<char>::empty());
        } else {
            assert(before.drop_last() =~= texts(pieces@));
            piece.push(c);
        }
    }
    assert(text@.take(text@.len() as int) =~= text@);
    proof {
        lemma_texts_push(pieces@, piece);
    }
    pieces.push(piece);
    pieces
}

/// The words that `shlex` reads in a text, if the text is well-formed.
pub uninterp spec fn shell_words(text: Seq<char>) -> Option<Seq<Seq<char>>>;

/// What can be seen of optional strings.
pub open spec fn words_view(words: Option<Vec<String>>) -> Option<Seq<Seq<char>>> {
    match words {
        Some(words) => Some(texts(words@)),
        None => None,
    }
}

/// `shlex::split`: the words of a text in the syntax of a POSIX shell, or
/// nothing if a quotation is not closed or the text ends in a backslash. Which
/// words those are, is only named here; it depends on the text alone.
#[verifier::external_body]
fn split_shell_words(text: &str) -> (words: Option<Vec<String>>)
    ensures
        words_view(words) == shell_words(text@),
{
    shlex::split(text)
}

/// A command name and its arguments.
pub open spec fn name_and_args(words: Seq<Seq<char>>) -> (Seq<char>, Seq<Seq<char>>) {
    if words.len() == 0 {
        (Seq::empty(), Seq::empty())
    } else {
        (words[0], words.skip(1))
    }
}

/// Whether a text holds a quotation mark.
pub open spec fn has_quotes(text: Seq<char>) -> bool {
    text.contains('"') || text.contains('\'')
}

/// The name and the arguments in a command string: its words as a shell reads
/// them if it holds quotation marks and is well-formed, else what is between
/// its spaces.
pub open spec fn command_parts(text: Seq<char>, words: Option<Seq<Seq<char>>>) -> (
    Seq<char>,
    Seq<Seq<char>>,
) {
    match words {
        Some(words) if has_quotes(text) => name_and_args(words),
        _ => name_and_args(split_on(text, ' ')),
    }
}

/// Tells whether a text holds a quotation mark.
fn contains_quotes(text: &str) -> (found: bool)
    ensures
        found == has_quotes(text@),
{
    for c in it: text.chars()
        invariant
            it.seq() == text@,
            forall|k: int| 0 <= k < it.index() ==> text@[k] != '"' && text@[k] != '\'',
    {
        if c == '"' || c == '\'' {
            assert(text@[it.index() as int] == c);
            assert(text@.contains(c));
            return true;
        }
    }
    false
}

/// Parts the name from the arguments.
fn split_first(words: Vec<String>) -> (parts: (String, Vec<String>))
    ensures
        (parts.0@, texts(parts.1@)) == name_and_args(texts(words@)),
{
    if words.len() == 0 {
        let none: Vec<String> = Vec::new();
        let name: String = String::new();
        assert(texts(none@) =~= Seq::<Seq<char>>::empty());
        assert(name@ =~= Seq::<char>::empty());
        return (name, none);
    }
    let ghost all = words@;
    let mut args: Vec<String> = words;
    let name: String = args.remove(0);
    assert(texts(args@) =~= texts(all).skip(1));
    (name, args)
}

/// Parts the name from the arguments in a command string, given the words that
/// a shell reads in it.
pub fn split_command_string(text: &str, words: Option<Vec<String>>) -> (parts: (
    String,
    Vec<String>,
))
    ensures
        (parts.0@, texts(parts.1@)) == command_parts(text@, words_view(words)),
{
    if contains_quotes(text) {
        if let Some(words) = words {
            return split_first(words);
        }
    }
    split_first(split_text(text, ' '))
}

/// Wrapper to reject an array without command name.
#[derive(Debug)]
pub struct NonEmptyCommandArgsVec {
    args: Vec<String>,
}

impl View for NonEmptyCommandArgsVec {
    type V = Seq<Seq<char>>;

    closed spec fn view(&self) -> Seq<Seq<char>> {
        texts(self.args@)
    }
}

impl NonEmptyCommandArgsVec {
    #[verifier::type_invariant]
    spec fn well_formed(self) -> bool {
        self.args@.len() > 0
    }

    /// Wraps a command name and its arguments.
    pub fn try_from(args: Vec<String>) -> (result: Result<Self, &'static str>)
        ensures
            result is Ok <==> args@.len() > 0,
            result matches Ok(wrapped) ==> wrapped@ == texts(args@),
            result matches Err(message) ==> message@ == "command arguments should not be empty"@,
    {
        if args.len() == 0 {
            Err("command arguments should not be empty")
        } else {
            Ok(NonEmptyCommandArgsVec { args })
        }
    }

    /// Returns the command name and the arguments.
    fn parts(&self) -> (parts: (String, Vec<String>))
        ensures
            self@.len() > 0,
            (parts.0@, texts(parts.1@)) == name_and_args(self@),
    {
        proof {
            use_type_invariant(self);
        }
        split_first(copy_texts(&self.args))
    }
}

/// Names with values.
pub open spec fn pairs_view(pairs: Seq<(String, String)>) -> Seq<(Seq<char>, Seq<char>)> {
    pairs.map_values(|pair: (String, String)| (pair.0@, pair.1@))
}

fn copy_pairs(pairs: &Vec<(String, String)>) -> (copy: Vec<(String, String)>)
    ensures
        pairs_view(copy@) == pairs_view(pairs@),
{
    let mut copy: Vec<(String, String)> = Vec::new();
    let mut i: usize = 0;
    assert(pairs_view(copy@) =~= pairs_view(pairs@).take(0));
    while i < pairs.len()
        invariant
            i <= pairs@.len(),
            pairs_view(copy@) == pairs_view(pairs@).take(i as int),
        decreases pairs@.len() - i,
    {
        let ghost before = copy@;
        copy.push((pairs[i].0.clone(), pairs[i].1.clone()));
        i += 1;
        proof {
            let all = pairs_view(pairs@);
            assert(pairs_view(copy@) =~= pairs_view(before).push(all[i - 1]));
            assert(all.take(i as int) =~= all.take(i - 1).push(all[i - 1]));
        }
    }
    assert(pairs_view(pairs@).take(i as int) =~= pairs_view(pairs@));
    copy
}

/// Command name and arguments specified by config.
#[derive(Debug)]
pub enum CommandNameAndArgs {
    /// A single string that will be split on spaces (or with shell quoting).
    String(String),
    /// An array of command name followed by arguments.
    Vec(NonEmptyCommandArgsVec),
    /// A structured form with optional environment variables.
    Structured {
        /// Environment variables to set for the command.
        env: Vec<(String, String)>,
        /// The command and its arguments.
        command: NonEmptyCommandArgsVec,
    },
}

/// A process to run.
#[derive(Debug, PartialEq, Eq)]
pub struct CommandLine {
    /// The command name.
    pub name: String,
    /// The arguments.
    pub args: Vec<String>,
    /// Environment variables to set for the command.
    pub env: Vec<(String, String)>,
}

impl CommandNameAndArgs {
    /// The name and the arguments.
    pub open spec fn parts(&self) -> (Seq<char>, Seq<Seq<char>>) {
        match self {
            CommandNameAndArgs::String(text) => command_parts(text@, shell_words(text@)),
            CommandNameAndArgs::Vec(command) => name_and_args(command@),
            CommandNameAndArgs::Structured { command, .. } => name_and_args(command@),
        }
    }

    /// The environment variables to set.
    pub open spec fn variables(&self) -> Seq<(Seq<char>, Seq<char>)> {
        match self {
            CommandNameAndArgs::Structured { env, .. } => pairs_view(env@),
            _ => Seq::empty(),
        }
    }

    /// Takes a string for a command.
    pub fn from(text: &str) -> (command: Self)
        ensures
            command matches CommandNameAndArgs::String(held) && held@ == text@,
    {
        CommandNameAndArgs::String(text.to_owned())
    }

    /// Returns command name without arguments.
    pub fn split_name(&self) -> (name: String)
        ensures
            name@ == self.parts().0,
    {
        let (name, _) = self.split_name_and_args();
        name
    }

    /// Returns command name and arguments.
    ///
    /// The command name may be an empty string (as well as each argument.)
    pub fn split_name_and_args(&self) -> (parts: (String, Vec<String>))
        ensures
            (parts.0@, texts(parts.1@)) == self.parts(),
    {
        match self {
            CommandNameAndArgs::String(text) => {
                let words: Option<Vec<String>> = if contains_quotes(text) {
                    split_shell_words(text)
                } else {
                    None
                };
                split_command_string(text, words)
            },
            CommandNameAndArgs::Vec(command) => command.parts(),
            CommandNameAndArgs::Structured { env: _, command } => command.parts(),
        }
    }

    /// Returns command string only if the underlying type is a string.
    ///
    /// Use this to parse enum strings such as `":builtin"`, which can be
    /// escaped as `[":builtin"]`.
    pub fn as_str(&self) -> (text: Option<&str>)
        ensures
            match self {
                CommandNameAndArgs::String(held) => text is Some && text->Some_0@ == held@,
                _ => text is None,
            },
    {
        match self {
            CommandNameAndArgs::String(held) => Some(held.as_str()),
            CommandNameAndArgs::Vec(_) | CommandNameAndArgs::Structured { .. } => None,
        }
    }

    /// Returns the process that this describes.
    pub fn to_command(&self) -> (line: CommandLine)
        ensures
            line.name@ == self.parts().0,
            texts(line.args@) == self.parts().1,
            pairs_view(line.env@) == self.variables(),
    {
        let empty: Vec<(String, String)> = Vec::new();
        self.to_command_with_variables(&empty)
    }

    /// Returns the process that this describes after interpolating variables
    /// into the arguments.
    pub fn to_command_with_variables(&self, variables: &Vec<(String, String)>) -> (line:
        CommandLine)
        ensures
            line.name@ == interpolated(self.parts().0, variables@),
            texts(line.args@) == self.parts().1.map_values(
                |arg: Seq<char>| interpolated(arg, variables@),
            ),
            pairs_view(line.env@) == self.variables(),
            variables@.len() == 0 ==> line.name@ == self.parts().0 && texts(line.args@)
                == self.parts().1,
    {
        let (name, args) = self.split_name_and_args();
        let env: Vec<(String, String)> = match self {
            CommandNameAndArgs::Structured { env, .. } => copy_pairs(env),
            _ => {
                let none: Vec<(String, String)> = Vec::new();
                assert(pairs_view(none@) =~= Seq::<(Seq<char>, Seq<char>)>::empty());
                none
            },
        };
        CommandLine {
            name: interpolate_variables_single(name.as_str(), variables),
            args: interpolate_variables(&args, variables),
            env,
        }
    }

    /// Returns the command as text.
    pub fn text(&self) -> (text: String)
        ensures
            match self {
                CommandNameAndArgs::String(held) => text@ == held@,
                CommandNameAndArgs::Vec(command) => text@ == join_with(command@, " "@),
                CommandNameAndArgs::Structured { env, command } => text@ == settings_text(
                    pairs_view(env@),
                ) + join_with(command@, " "@),
            },
    {
        match self {
            CommandNameAndArgs::String(held) => held.clone(),
            CommandNameAndArgs::Vec(command) => join_texts(&command.args, " "),
            CommandNameAndArgs::Structured { env, command } => {
                let mut text: String = String::new();
                let mut i: usize = 0;
                assert(text@ =~= settings_text(pairs_view(env@).take(0)));
                while i < env.len()
                    invariant
                        i <= env@.len(),
                        text@ == settings_text(pairs_view(env@).take(i as int)),
                    decreases env@.len() - i,
                {
                    proof {
                        let now = pairs_view(env@).take(i + 1);
                        assert(now.drop_last() =~= pairs_view(env@).take(i as int));
                        assert(now.last() == (env@[i as int].0@, env@[i as int].1@));
                    }
                    text.append(env[i].0.as_str());
                    text.append("=");
                    text.append(env[i].1.as_str());
                    text.append(" ");
                    i += 1;
                }
                assert(pairs_view(env@).take(i as int) =~= pairs_view(env@));
                let words: String = join_texts(&command.args, " ");
                text.append(words.as_str());
                text
            },
        }
    }
}

/// Environment variables as text.
pub open spec fn settings_text(pairs: Seq<(Seq<char>, Seq<char>)>) -> Seq<char>
    decreases pairs.len(),
{
    if pairs.len() == 0 {
        Seq::empty()
    } else {
        settings_text(pairs.drop_last()) + pairs.last().0 + "="@ + pairs.last().1 + " "@
    }
}

/// Puts a separator between each text and the next.
fn join_texts(pieces: &[String], separator: &str) -> (text: String)
    ensures
        text@ == join_with(texts(pieces@), separator@),
{
    let mut text: String = String::new();
    let mut i: usize = 0;
    assert(text@ =~= join_with(texts(pieces@).take(0), separator@));
    while i < pieces.len()
        invariant
            i <= pieces@.len(),
            text@ == join_with(texts(pieces@).take(i as int), separator@),
        decreases pieces@.len() - i,
    {
        let ghost now = texts(pieces@).take(i + 1);
        let ghost before = text@;
        assert(now.drop_last() =~= texts(pieces@).take(i as int));
        assert(now.last() == pieces@[i as int]@);
        if i > 0 {
            text.append(separator);
        }
        text.append(pieces[i].as_str());
        assert(i == 0 ==> before =~= Seq::<char>::empty());
        assert(i == 0 ==> text@ =~= pieces@[0]@);
        i += 1;
    }
    assert(texts(pieces@).take(i as int) =~= texts(pieces@));
    text
}

/// The texts that `regex` finds a pattern to match, in order.
pub uninterp spec fn regex_matches(pattern: Seq<char>, text: Seq<char>) -> Seq<Seq<char>>;

/// The texts that `regex` finds before, between and after the matches of a
/// pattern.
pub uninterp spec fn regex_literals(pattern: Seq<char>, text: Seq<char>) -> Seq<Seq<char>>;

/// Texts with others in between.
pub open spec fn woven(literals: Seq<Seq<char>>, between: Seq<Seq<char>>) -> Seq<char>
    decreases between.len(),
{
    if between.len() == 0 {
        literals[0]
    } else {
        woven(literals.drop_last(), between.drop_last()) + between.last() + literals.last()
    }
}

/// Whether all characters are in ASCII.
pub open spec fn is_ascii(text: Seq<char>) -> bool {
    forall|i: int| 0 <= i < text.len() ==> (#[trigger] text[i] as int) < 128
}

/// Whether a character can stand in the name of a variable.
pub open spec fn is_variable_char(c: char) -> bool {
    'a' <= c <= 'z' || '0' <= c <= '9' || c == '_'
}

/// How many characters at the beginning can stand in the name of a variable.
pub open spec fn variable_run(text: Seq<char>) -> nat
    decreases text.len(),
{
    if text.len() > 0 && is_variable_char(text[0]) {
        1 + variable_run(text.skip(1))
    } else {
        0
    }
}

/// The length of the variable at the beginning of a text in ASCII: a dollar
/// sign and a name that no letter in upper case follows. 0 if there is none.
pub open spec fn variable_len(text: Seq<char>) -> nat {
    let run = variable_run(text.skip(1));
    if text.len() > 0 && text[0] == '$' && run > 0 && !(run + 1 < text.len() && 'A' <= text[(run
        + 1) as int] <= 'Z') {
        run + 1
    } else {
        0
    }
}

/// The variables in a text in ASCII, with their dollar signs.
pub open spec fn variables_of(text: Seq<char>) -> Seq<Seq<char>>
    decreases text.len(),
{
    if text.len() == 0 {
        Seq::empty()
    } else if variable_len(text) > 0 && variable_len(text) <= text.len() {
        let len = variable_len(text) as int;
        seq![text.take(len)] + variables_of(text.skip(len))
    } else {
        variables_of(text.skip(1))
    }
}

/// What is before, between and after the variables in a text in ASCII.
pub open spec fn literals_of(text: Seq<char>) -> Seq<Seq<char>>
    decreases text.len(),
{
    if text.len() == 0 {
        seq![Seq::empty()]
    } else if variable_len(text) > 0 && variable_len(text) <= text.len() {
        seq![Seq::<char>::empty()] + literals_of(text.skip(variable_len(text) as int))
    } else {
        let rest = literals_of(text.skip(1));
        seq![seq![text[0]] + rest[0]] + rest.skip(1)
    }
}

/// `regex::Regex::find_iter`: the matches of the pattern for variables, in
/// order. In a text in ASCII they are the dollar signs with the names that
/// follow them. Which characters beyond ASCII count as word characters, and
/// with that whether a name ends before one, is only named here; it depends on
/// the text alone.
#[verifier::external_body]
fn find_variables(pattern: &str, text: &str) -> (matches: Vec<String>)
    requires
        pattern@ == VARIABLE_PATTERN@,
    ensures
        texts(matches@) == regex_matches(pattern@, text@),
        is_ascii(text@) ==> texts(matches@) == variables_of(text@),
{
    Regex::new(pattern).unwrap().find_iter(text).map(|found| found.as_str().to_owned()).collect()
}

/// `regex::Regex::split`: what the pattern for variables does not match, in
/// order. With the matches in between, it is the text.
#[verifier::external_body]
fn split_at_variables(pattern: &str, text: &str) -> (literals: Vec<String>)
    requires
        pattern@ == VARIABLE_PATTERN@,
    ensures
        texts(literals@) == regex_literals(pattern@, text@),
        literals@.len() == regex_matches(pattern@, text@).len() + 1,
        woven(texts(literals@), regex_matches(pattern@, text@)) == text@,
        is_ascii(text@) ==> texts(literals@) == literals_of(text@),
{
    Regex::new(pattern).unwrap().split(text).map(|literal| literal.to_owned()).collect()
}

/// The value of a variable: that of the first pair with the name.
pub open spec fn variable_value(variables: Seq<(String, String)>, name: Seq<char>) -> Option<
    Seq<char>,
>
    decreases variables.len(),
{
    if variables.len() == 0 {
        None
    } else if variables[0].0@ == name {
        Some(variables[0].1@)
    } else {
        variable_value(variables.skip(1), name)
    }
}

/// The name of a variable, without the dollar sign.
pub open spec fn variable_name(found: Seq<char>) -> Seq<char> {
    if found.len() == 0 {
        found
    } else {
        found.skip(1)
    }
}

/// What stands for a variable: its value, or the variable itself if it has
/// none.
pub open spec fn substituted(found: Seq<char>, variables: Seq<(String, String)>) -> Seq<char> {
    match variable_value(variables, variable_name(found)) {
        Some(value) => value,
        None => found,
    }
}

/// The text with the variables replaced.
pub open spec fn interpolated(text: Seq<char>, variables: Seq<(String, String)>) -> Seq<char> {
    substituted_text(
        regex_literals(VARIABLE_PATTERN@, text),
        regex_matches(VARIABLE_PATTERN@, text),
        variables,
    )
}

/// Literal text with what stands for the variables in between.
pub open spec fn substituted_text(
    literals: Seq<Seq<char>>,
    found: Seq<Seq<char>>,
    variables: Seq<(String, String)>,
) -> Seq<char> {
    woven(literals, found.map_values(|text: Seq<char>| substituted(text, variables)))
}

/// A text in ASCII with the variables replaced.
pub open spec fn interpolated_ascii(text: Seq<char>, variables: Seq<(String, String)>) -> Seq<
    char,
> {
    substituted_text(literals_of(text), variables_of(text), variables)
}

/// Where no variable has a value, every text stays as it is.
pub proof fn lemma_no_variables(literals: Seq<Seq<char>>, found: Seq<Seq<char>>)
    ensures
        substituted_text(literals, found, Seq::empty()) == woven(literals, found),
{
    let none = Seq::<(String, String)>::empty();
    assert(found.map_values(|text: Seq<char>| substituted(text, none)) =~= found);
}

/// What becomes of a text depends only on the values of the variables that are
/// found in it.
pub proof fn lemma_same_values(
    literals: Seq<Seq<char>>,
    found: Seq<Seq<char>>,
    a: Seq<(String, String)>,
    b: Seq<(String, String)>,
)
    requires
        forall|name: Seq<char>| #[trigger]
            variable_names(found).contains(name) ==> variable_value(a, name) == variable_value(
                b,
                name,
            ),
    ensures
        substituted_text(literals, found, a) == substituted_text(literals, found, b),
{
    assert forall|i: int| 0 <= i < found.len() implies #[trigger] substituted(found[i], a)
        == substituted(found[i], b) by {
        assert(variable_names(found)[i] == variable_name(found[i]));
        assert(variable_names(found).contains(variable_name(found[i])));
    }
    assert(found.map_values(|text: Seq<char>| substituted(text, a)) =~= found.map_values(
        |text: Seq<char>| substituted(text, b),
    ));
}

/// Interpolation depends only on the values of the names that are returned for
/// the arguments as those of all their variables.
pub proof fn lemma_only_found_variables(
    args: Seq<Seq<char>>,
    a: Seq<(String, String)>,
    b: Seq<(String, String)>,
)
    requires
        forall|name: Seq<char>| #[trigger]
            all_variables(args).contains(name) ==> variable_value(a, name) == variable_value(
                b,
                name,
            ),
    ensures
        args.map_values(|arg: Seq<char>| interpolated(arg, a)) == args.map_values(
            |arg: Seq<char>| interpolated(arg, b),
        ),
    decreases args.len(),
{
    if args.len() > 0 {
        let front = args.drop_last();
        let last = args.last();
        let found = regex_matches(VARIABLE_PATTERN@, last);
        let names = all_variables(front);
        assert forall|name: Seq<char>| #[trigger] names.contains(name) implies variable_value(
            a,
            name,
        ) == variable_value(b, name) by {
            let k = choose|k: int| 0 <= k < names.len() && names[k] == name;
            assert(all_variables(args)[k] == name);
            assert(all_variables(args).contains(name));
        }
        assert forall|name: Seq<char>| #[trigger] variable_names(found).contains(
            name,
        ) implies variable_value(a, name) == variable_value(b, name) by {
            let k = choose|k: int|
                0 <= k < variable_names(found).len() && variable_names(found)[k] == name;
            assert(all_variables(args)[names.len() + k] == name);
            assert(all_variables(args).contains(name));
        }
        lemma_only_found_variables(front, a, b);
        lemma_same_values(regex_literals(VARIABLE_PATTERN@, last), found, a, b);
        let with_a = front.map_values(|arg: Seq<char>| interpolated(arg, a));
        let with_b = front.map_values(|arg: Seq<char>| interpolated(arg, b));
        assert(args.map_values(|arg: Seq<char>| interpolated(arg, a)) =~= with_a.push(
            interpolated(last, a),
        ));
        assert(args.map_values(|arg: Seq<char>| interpolated(arg, b)) =~= with_b.push(
            interpolated(last, b),
        ));
    } else {
        assert(args.map_values(|arg: Seq<char>| interpolated(arg, a)) =~= args.map_values(
            |arg: Seq<char>| interpolated(arg, b),
        ));
    }
}

proof fn lemma_woven_first(literals: Seq<Seq<char>>, between: Seq<Seq<char>>)
    requires
        literals.len() == between.len() + 1,
        between.len() > 0,
    ensures
        woven(literals, between) == literals[0] + between[0] + woven(
            literals.skip(1),
            between.skip(1),
        ),
    decreases between.len(),
{
    if between.len() == 1 {
        assert(woven(literals.drop_last(), between.drop_last()) == literals[0]);
        assert(literals.skip(1)[0] == literals.last());
        assert(woven(literals.skip(1), between.skip(1)) == literals.last());
    } else {
        lemma_woven_first(literals.drop_last(), between.drop_last());
        assert(literals.drop_last().skip(1) =~= literals.skip(1).drop_last());
        assert(between.drop_last().skip(1) =~= between.skip(1).drop_last());
        assert(woven(literals, between) =~= literals[0] + between[0] + woven(
            literals.skip(1),
            between.skip(1),
        ));
    }
}

proof fn lemma_woven_prefix(
    prefix: Seq<char>,
    literals: Seq<Seq<char>>,
    between: Seq<Seq<char>>,
)
    requires
        literals.len() == between.len() + 1,
    ensures
        woven(literals.update(0, prefix + literals[0]), between) == prefix + woven(
            literals,
            between,
        ),
{
    let longer = literals.update(0, prefix + literals[0]);
    if between.len() > 0 {
        lemma_woven_first(literals, between);
        lemma_woven_first(longer, between);
        assert(longer.skip(1) =~= literals.skip(1));
        assert(woven(longer, between) =~= prefix + woven(literals, between));
    }
}

proof fn lemma_variable_run(text: Seq<char>)
    ensures
        variable_run(text) <= text.len(),
    decreases text.len(),
{
    if text.len() > 0 && is_variable_char(text[0]) {
        lemma_variable_run(text.skip(1));
    }
}

/// The variables of a text, and what is before, between and after them, make up
/// the text.
pub proof fn lemma_pieces(text: Seq<char>)
    ensures
        literals_of(text).len() == variables_of(text).len() + 1,
        woven(literals_of(text), variables_of(text)) == text,
    decreases text.len(),
{
    let literals = literals_of(text);
    let found = variables_of(text);
    if text.len() > 0 {
        if variable_len(text) > 0 && variable_len(text) <= text.len() {
            let len = variable_len(text) as int;
            lemma_pieces(text.skip(len));
            lemma_woven_first(literals, found);
            assert(literals.skip(1) =~= literals_of(text.skip(len)));
            assert(found.skip(1) =~= variables_of(text.skip(len)));
            assert(woven(literals, found) =~= text.take(len) + text.skip(len));
            assert(text.take(len) + text.skip(len) =~= text);
        } else {
            lemma_pieces(text.skip(1));
            let rest = literals_of(text.skip(1));
            lemma_woven_prefix(seq![text[0]], rest, found);
            assert(literals =~= rest.update(0, seq![text[0]] + rest[0]));
            assert(seq![text[0]] + text.skip(1) =~= text);
        }
    } else {
        assert(woven(literals, found) =~= text);
    }
}

/// Without a dollar sign there is nothing to replace.
pub proof fn lemma_no_dollar(text: Seq<char>, variables: Seq<(String, String)>)
    requires
        !text.contains('$'),
    ensures
        interpolated_ascii(text, variables) == text,
{
    lemma_no_dollar_pieces(text);
    lemma_pieces(text);
    let found = variables_of(text);
    assert(found.map_values(|text: Seq<char>| substituted(text, variables)) =~= found);
}

proof fn lemma_no_dollar_pieces(text: Seq<char>)
    requires
        !text.contains('$'),
    ensures
        variables_of(text).len() == 0,
    decreases text.len(),
{
    if text.len() > 0 {
        assert(text.contains(text[0]));
        assert forall|i: int| 0 <= i < text.skip(1).len() implies text.skip(1)[i] != '$' by {
            assert(text.contains(text[i + 1]));
        }
        lemma_no_dollar_pieces(text.skip(1));
    }
}

/// Returns the value of a variable.
fn find_value<'a>(variables: &'a Vec<(String, String)>, name: &String) -> (value: Option<
    &'a String,
>)
    ensures
        match value {
            Some(value) => variable_value(variables@, name@) == Some(value@),
            None => variable_value(variables@, name@) is None,
        },
{
    let mut i: usize = 0;
    assert(variables@.skip(0) =~= variables@);
    while i < variables.len()
        invariant
            i <= variables@.len(),
            variable_value(variables@, name@) == variable_value(variables@.skip(i as int), name@),
        decreases variables@.len() - i,
    {
        assert(variables@.skip(i as int)[0] == variables@[i as int]);
        if variables[i].0 == *name {
            return Some(&variables[i].1);
        }
        assert(variables@.skip(i as int).skip(1) =~= variables@.skip(i + 1));
        i += 1;
    }
    None
}

/// Returns the name of a variable, without the dollar sign.
fn without_dollar(found: &str) -> (name: String)
    ensures
        name@ == variable_name(found@),
{
    let mut name: String = String::new();
    let mut first: bool = true;
    for c in it: found.chars()
        invariant
            it.seq() == found@,
            first <==> it.index() == 0,
            name@ == (if first {
                Seq::<char>::empty()
            } else {
                found@.subrange(1, it.index() as int)
            }),
    {
        if first {
            first = false;
            assert(name@ =~= found@.subrange(1, 1));
        } else {
            name.push(c);
            assert(name@ =~= found@.subrange(1, it.index() + 1));
        }
    }
    assert(name@ =~= variable_name(found@));
    name
}

/// Puts what stands for the variables between the literal text.
pub fn substitute(
    literals: &Vec<String>,
    found: &Vec<String>,
    variables: &Vec<(String, String)>,
) -> (text: String)
    requires
        literals@.len() == found@.len() + 1,
    ensures
        text@ == substituted_text(texts(literals@), texts(found@), variables@),
{
    let ghost between = texts(found@).map_values(
        |text: Seq<char>| substituted(text, variables@),
    );
    let ghost all = texts(literals@);
    let mut text: String = literals[0].clone();
    let mut i: usize = 0;
    assert(all.take(1)[0] == all[0]);
    assert(woven(all.take(1), between.take(0)) == all[0]);
    while i < found.len()
        invariant
            i <= found@.len(),
            literals@.len() == found@.len() + 1,
            all == texts(literals@),
            between == texts(found@).map_values(
                |text: Seq<char>| substituted(text, variables@),
            ),
            text@ == woven(all.take(i + 1), between.take(i as int)),
        decreases found@.len() - i,
    {
        let name: String = without_dollar(found[i].as_str());
        let ghost value = substituted(found@[i as int]@, variables@);
        proof {
            assert(between[i as int] == value);
            assert(between.take(i + 1).drop_last() =~= between.take(i as int));
            assert(all.take(i + 2).drop_last() =~= all.take(i + 1));
            assert(all.take(i + 2).last() == literals@[i + 1]@);
            assert(woven(all.take(i + 2), between.take(i + 1)) == woven(
                all.take(i + 1),
                between.take(i as int),
            ) + value + literals@[i + 1]@);
        }
        match find_value(variables, &name) {
            Some(subst) => {
                text.append(subst.as_str());
            },
            None => {
                text.append(found[i].as_str());
            },
        }
        text.append(literals[i + 1].as_str());
        i += 1;
    }
    assert(all.take(i + 1) =~= all);
    assert(between.take(i as int) =~= between);
    text
}

fn interpolate_variables_single(arg: &str, variables: &Vec<(String, String)>) -> (text: String)
    ensures
        text@ == interpolated(arg@, variables@),
        is_ascii(arg@) ==> text@ == interpolated_ascii(arg@, variables@),
        variables@.len() == 0 ==> text@ == arg@,
{
    let found: Vec<String> = find_variables(VARIABLE_PATTERN, arg);
    let literals: Vec<String> = split_at_variables(VARIABLE_PATTERN, arg);
    assert(texts(found@).len() == found@.len());
    proof {
        if variables@.len() == 0 {
            assert(variables@ =~= Seq::<(String, String)>::empty());
            lemma_no_variables(texts(literals@), texts(found@));
        }
    }
    substitute(&literals, &found, variables)
}

/// Substitutes `$variable` patterns in `args` using the provided pairs.
pub fn interpolate_variables(args: &[String], variables: &Vec<(String, String)>) -> (result: Vec<
    String,
>)
    ensures
        texts(result@) == texts(args@).map_values(
            |arg: Seq<char>| interpolated(arg, variables@),
        ),
        forall|i: int|
            0 <= i < args@.len() && is_ascii(#[trigger] args@[i]@) ==> result@[i]@
                == interpolated_ascii(args@[i]@, variables@),
        variables@.len() == 0 ==> texts(result@) == texts(args@),
{
    let mut result: Vec<String> = Vec::new();
    let mut i: usize = 0;
    while i < args.len()
        invariant
            i <= args@.len(),
            result@.len() == i,
            forall|k: int|
                0 <= k < i ==> (#[trigger] result@[k])@ == interpolated(args@[k]@, variables@),
            forall|k: int|
                0 <= k < i && is_ascii(args@[k]@) ==> (#[trigger] result@[k])@
                    == interpolated_ascii(args@[k]@, variables@),
            variables@.len() == 0 ==> forall|k: int|
                0 <= k < i ==> (#[trigger] result@[k])@ == args@[k]@,
        decreases args@.len() - i,
    {
        result.push(interpolate_variables_single(args[i].as_str(), variables));
        i += 1;
    }
    assert(texts(result@) =~= texts(args@).map_values(
        |arg: Seq<char>| interpolated(arg, variables@),
    ));
    proof {
        if variables@.len() == 0 {
            assert(texts(result@) =~= texts(args@));
        }
    }
    result
}

/// The names of variables that were found.
pub open spec fn variable_names(found: Seq<Seq<char>>) -> Seq<Seq<char>> {
    found.map_values(|text: Seq<char>| variable_name(text))
}

/// The names of all variables in arguments.
pub open spec fn all_variables(args: Seq<Seq<char>>) -> Seq<Seq<char>>
    decreases args.len(),
{
    if args.len() == 0 {
        Seq::empty()
    } else {
        all_variables(args.drop_last()) + variable_names(
            regex_matches(VARIABLE_PATTERN@, args.last()),
        )
    }
}

/// The names of all variables in arguments in ASCII.
pub open spec fn all_ascii_variables(args: Seq<Seq<char>>) -> Seq<Seq<char>>
    decreases args.len(),
{
    if args.len() == 0 {
        Seq::empty()
    } else {
        all_ascii_variables(args.drop_last()) + variable_names(variables_of(args.last()))
    }
}

/// Returns all variable names found in the args, without the dollar sign.
pub fn find_all_variables(args: &[String]) -> (names: Vec<String>)
    ensures
        texts(names@) == all_variables(texts(args@)),
        (forall|i: int| 0 <= i < args@.len() ==> is_ascii(#[trigger] args@[i]@)) ==> texts(names@)
            == all_ascii_variables(texts(args@)),
{
    let ghost all = texts(args@);
    let mut names: Vec<String> = Vec::new();
    let mut i: usize = 0;
    assert(texts(names@) =~= all_variables(all.take(0)));
    while i < args.len()
        invariant
            i <= args@.len(),
            all == texts(args@),
            texts(names@) == all_variables(all.take(i as int)),
            (forall|k: int| 0 <= k < args@.len() ==> is_ascii(#[trigger] args@[k]@)) ==> texts(
                names@,
            ) == all_ascii_variables(all.take(i as int)),
        decreases args@.len() - i,
    {
        let found: Vec<String> = find_variables(VARIABLE_PATTERN, args[i].as_str());
        let ghost before = texts(names@);
        let ghost here = variable_names(texts(found@));
        let mut k: usize = 0;
        assert(before + here.take(0) =~= before);
        while k < found.len()
            invariant
                k <= found@.len(),
                here == variable_names(texts(found@)),
                texts(names@) == before + here.take(k as int),
            decreases found@.len() - k,
        {
            let name: String = without_dollar(found[k].as_str());
            proof {
                lemma_texts_push(names@, name);
                assert(here[k as int] == name@);
                assert(here.take(k + 1) =~= here.take(k as int).push(name@));
                assert((before + here.take(k as int)).push(name@) =~= before + here.take(k + 1));
            }
            names.push(name);
            k += 1;
        }
        proof {
            assert(here.take(k as int) =~= here);
            assert(all.take(i + 1).drop_last() =~= all.take(i as int));
            assert(all.take(i + 1).last() == args@[i as int]@);
        }
        i += 1;
    }
    assert(all.take(i as int) =~= all);
    names
}

/// A variable has the value of the first pair with its name, and none if there
/// is no such pair.
pub proof fn lemma_variable_value(variables: Seq<(String, String)>, name: Seq<char>, k: int)
    requires
        0 <= k <= variables.len(),
        forall|j: int| 0 <= j < k ==> (#[trigger] variables[j]).0@ != name,
        k < variables.len() ==> variables[k].0@ == name,
    ensures
        variable_value(variables, name) == (if k < variables.len() {
            Some(variables[k].1@)
        } else {
            None
        }),
    decreases variables.len(),
{
    if k > 0 {
        let rest = variables.skip(1);
        assert(variables[0].0@ != name);
        assert forall|j: int| 0 <= j < k - 1 implies (#[trigger] rest[j]).0@ != name by {
            assert(rest[j] == variables[j + 1]);
        }
        if k < variables.len() {
            assert(rest[k - 1] == variables[k]);
        }
        lemma_variable_value(rest, name, k - 1);
    }
}

/// A character at which no variable begins stays as it is.
proof fn lemma_char_stays(text: Seq<char>, variables: Seq<(String, String)>)
    requires
        text.len() > 0,
        variable_len(text) == 0,
    ensures
        interpolated_ascii(text, variables) == seq![text[0]] + interpolated_ascii(
            text.skip(1),
            variables,
        ),
{
    let rest = text.skip(1);
    let literals = literals_of(rest);
    let values = variables_of(rest).map_values(|text: Seq<char>| substituted(text, variables));
    lemma_pieces(rest);
    lemma_woven_prefix(seq![text[0]], literals, values);
    assert(literals_of(text) =~= literals.update(0, seq![text[0]] + literals[0]));
}

/// A text at which a variable begins has what stands for the variable there.
proof fn lemma_variable_goes(text: Seq<char>, variables: Seq<(String, String)>)
    requires
        0 < variable_len(text) <= text.len(),
    ensures
        interpolated_ascii(text, variables) == substituted(
            text.take(variable_len(text) as int),
            variables,
        ) + interpolated_ascii(text.skip(variable_len(text) as int), variables),
{
    let len = variable_len(text) as int;
    let rest = text.skip(len);
    let literals = literals_of(text);
    let found = variables_of(text);
    let values = found.map_values(|text: Seq<char>| substituted(text, variables));
    let rest_values = variables_of(rest).map_values(
        |text: Seq<char>| substituted(text, variables),
    );
    lemma_pieces(text);
    lemma_woven_first(literals, values);
    assert(literals.skip(1) =~= literals_of(rest));
    assert(found.skip(1) =~= variables_of(rest));
    assert(values.skip(1) =~= rest_values);
    assert(literals[0] =~= Seq::<char>::empty());
    assert(values[0] == substituted(text.take(len), variables));
    assert(woven(literals, values) =~= values[0] + woven(literals_of(rest), rest_values));
}

/// What is before the first dollar sign stays as it is.
pub proof fn lemma_before_dollar(
    before: Seq<char>,
    rest: Seq<char>,
    variables: Seq<(String, String)>,
)
    requires
        !before.contains('$'),
    ensures
        interpolated_ascii(before + rest, variables) == before + interpolated_ascii(
            rest,
            variables,
        ),
    decreases before.len(),
{
    let text = before + rest;
    if before.len() == 0 {
        assert(text =~= rest);
        assert(before + interpolated_ascii(rest, variables) =~= interpolated_ascii(
            rest,
            variables,
        ));
    } else {
        let fewer = before.skip(1);
        assert(before.contains(before[0]));
        assert(text[0] == before[0]);
        assert(text.skip(1) =~= fewer + rest);
        assert(!fewer.contains('$')) by {
            if fewer.contains('$') {
                let i = choose|i: int| 0 <= i < fewer.len() && fewer[i] == '$';
                assert(before[i + 1] == '$');
            }
        }
        lemma_char_stays(text, variables);
        lemma_before_dollar(fewer, rest, variables);
        assert(seq![before[0]] + (fewer + interpolated_ascii(rest, variables)) =~= before
            + interpolated_ascii(rest, variables));
    }
}

/// Whether a text can be the name of a variable: small letters, digits and
/// underscores, and at least one of them.
pub open spec fn is_variable_name(name: Seq<char>) -> bool {
    name.len() > 0 && forall|i: int|
        0 <= i < name.len() ==> {
            let c = #[trigger] name[i];
            'a' <= c <= 'z' || '0' <= c <= '9' || c == '_'
        }
}

/// Whether a name ends before a text: the text goes on with nothing that belongs
/// to a word.
pub open spec fn ends_name(rest: Seq<char>) -> bool {
    rest.len() > 0 ==> !('a' <= rest[0] <= 'z' || '0' <= rest[0] <= '9' || rest[0] == '_' || 'A'
        <= rest[0] <= 'Z')
}

proof fn lemma_run_of_name(name: Seq<char>, rest: Seq<char>)
    requires
        forall|i: int| 0 <= i < name.len() ==> is_variable_char(#[trigger] name[i]),
        rest.len() > 0 ==> !is_variable_char(rest[0]),
    ensures
        variable_run(name + rest) == name.len(),
    decreases name.len(),
{
    let text = name + rest;
    if name.len() == 0 {
        assert(text =~= rest);
    } else {
        assert(text[0] == name[0]);
        assert(text.skip(1) =~= name.skip(1) + rest);
        assert forall|i: int| 0 <= i < name.skip(1).len() implies is_variable_char(
            #[trigger] name.skip(1)[i],
        ) by {
            assert(name.skip(1)[i] == name[i + 1]);
        }
        lemma_run_of_name(name.skip(1), rest);
    }
}

/// A dollar sign with a name is replaced with the value of the variable, if it
/// has one, and stays as it is if not. The rest of the text does not matter for
/// it, nor does the value for the rest.
pub proof fn lemma_variable_replaced(
    before: Seq<char>,
    name: Seq<char>,
    rest: Seq<char>,
    variables: Seq<(String, String)>,
)
    requires
        !before.contains('$'),
        is_variable_name(name),
        ends_name(rest),
    ensures
        interpolated_ascii(before + seq!['$'] + name + rest, variables) == before + (
        match variable_value(variables, name) {
            Some(value) => value,
            None => seq!['$'] + name,
        }) + interpolated_ascii(rest, variables),
{
    let variable = seq!['$'] + name;
    let text = variable + rest;
    assert(before + seq!['$'] + name + rest =~= before + text);
    lemma_before_dollar(before, text, variables);
    assert(text.skip(1) =~= name + rest);
    assert forall|i: int| 0 <= i < name.len() implies is_variable_char(#[trigger] name[i]) by {}
    lemma_run_of_name(name, rest);
    assert(text[0] == '$');
    if rest.len() > 0 {
        assert(text[(name.len() + 1) as int] == rest[0]);
    }
    assert(variable_len(text) == name.len() + 1);
    lemma_variable_goes(text, variables);
    assert(text.take((name.len() + 1) as int) =~= variable);
    assert(text.skip((name.len() + 1) as int) =~= rest);
    assert(variable.skip(1) =~= name);
    let whole = before + substituted(variable, variables) + interpolated_ascii(rest, variables);
    assert(before + (substituted(variable, variables) + interpolated_ascii(rest, variables))
        =~= whole);
}

/// A dollar sign without a name after it stays as it is, and so does one with a
/// name that goes on in upper case.
pub proof fn lemma_dollar_stays(
    name: Seq<char>,
    rest: Seq<char>,
    variables: Seq<(String, String)>,
)
    requires
        name.len() == 0 || is_variable_name(name),
        rest.len() > 0 ==> !('a' <= rest[0] <= 'z' || '0' <= rest[0] <= '9' || rest[0] == '_'),
        name.len() > 0 ==> rest.len() > 0 && 'A' <= rest[0] <= 'Z',
    ensures
        interpolated_ascii(seq!['$'] + name + rest, variables) == seq!['$'] + name
            + interpolated_ascii(rest, variables),
{
    let text = seq!['$'] + name + rest;
    assert(text.skip(1) =~= name + rest);
    assert(text[0] == '$');
    lemma_run_of_name(name, rest);
    if name.len() > 0 {
        assert(text[(name.len() + 1) as int] == rest[0]);
    }
    assert(variable_len(text) == 0);
    lemma_char_stays(text, variables);
    assert(!name.contains('$')) by {
        if name.contains('$') {
            let i = choose|i: int| 0 <= i < name.len() && name[i] == '$';
            assert(is_variable_char(name[i]));
        }
    }
    lemma_before_dollar(name, rest, variables);
    assert(seq!['$'] + (name + interpolated_ascii(rest, variables)) =~= seq!['$'] + name
        + interpolated_ascii(rest, variables));
}

/// The variables of arguments are those of each argument, and no others.
pub proof fn lemma_all_variables(args: Seq<Seq<char>>, name: Seq<char>)
    ensures
        all_variables(args).contains(name) <==> exists|i: int|
            0 <= i < args.len() && variable_names(
                regex_matches(VARIABLE_PATTERN@, #[trigger] args[i]),
            ).contains(name),
        all_ascii_variables(args).contains(name) <==> exists|i: int|
            0 <= i < args.len() && variable_names(variables_of(#[trigger] args[i])).contains(name),
    decreases args.len(),
{
    if args.len() > 0 {
        let front = args.drop_last();
        let last = args.len() - 1;
        lemma_all_variables(front, name);
        lemma_concat_contains(
            all_variables(front),
            variable_names(regex_matches(VARIABLE_PATTERN@, args.last())),
            name,
        );
        lemma_concat_contains(
            all_ascii_variables(front),
            variable_names(variables_of(args.last())),
            name,
        );
        assert(args[last] == args.last());
        assert forall|i: int| 0 <= i < last implies #[trigger] args[i] == front[i] by {}
        if all_variables(front).contains(name) {
            let i = choose|i: int|
                0 <= i < front.len() && variable_names(
                    regex_matches(VARIABLE_PATTERN@, #[trigger] front[i]),
                ).contains(name);
            assert(args[i] == front[i]);
        }
        if all_ascii_variables(front).contains(name) {
            let i = choose|i: int|
                0 <= i < front.len() && variable_names(
                    variables_of(#[trigger] front[i]),
                ).contains(name);
            assert(args[i] == front[i]);
        }
    }
}

/// A command string without quotation marks is put together again from its name
/// and its arguments with a space before each.
pub proof fn lemma_command_parts(text: Seq<char>, words: Option<Seq<Seq<char>>>)
    requires
        !has_quotes(text),
    ensures
        join_with(
            seq![command_parts(text, words).0] + command_parts(text, words).1,
            seq![' '],
        ) == text,
        !command_parts(text, words).0.contains(' '),
        forall|i: int|
            0 <= i < command_parts(text, words).1.len() ==> !(#[trigger] command_parts(
                text,
                words,
            ).1[i]).contains(' '),
{
    let pieces = split_on(text, ' ');
    lemma_split_then_join(text, ' ');
    lemma_split_not_empty(text);
    assert(seq![pieces[0]] + pieces.skip(1) =~= pieces);
    assert(!pieces[0].contains(' '));
    assert forall|i: int| 0 <= i < pieces.skip(1).len() implies !(
    #[trigger] pieces.skip(1)[i]).contains(' ') by {
        assert(pieces.skip(1)[i] == pieces[i + 1]);
    }
}

proof fn lemma_split_not_empty(text: Seq<char>)
    ensures
        split_on(text, ' ').len() > 0,
    decreases text.len(),
{
    if text.len() > 0 {
        lemma_split_not_empty(text.drop_last());
    }
}

/// The words of a shell are kept as they are, where a command string has
/// quotation marks.
pub proof fn lemma_quoted_command_parts(text: Seq<char>, words: Seq<Seq<char>>)
    requires
        has_quotes(text),
        words.len() > 0,
    ensures
        seq![command_parts(text, Some(words)).0] + command_parts(text, Some(words)).1 == words,
{
    assert(seq![words[0]] + words.skip(1) =~= words);
}

/// The settings of environment variables come one after the other.
pub proof fn lemma_settings_text(
    a: Seq<(Seq<char>, Seq<char>)>,
    name: Seq<char>,
    value: Seq<char>,
    b: Seq<(Seq<char>, Seq<char>)>,
)
    ensures
        settings_text(a + seq![(name, value)] + b) == settings_text(a) + name + "="@ + value
            + " "@ + settings_text(b),
    decreases b.len(),
{
    let all = a + seq![(name, value)] + b;
    if b.len() == 0 {
        assert(all.drop_last() =~= a);
        assert(all.last() == (name, value));
        assert(settings_text(all) =~= settings_text(a) + name + "="@ + value + " "@
            + settings_text(b));
    } else {
        assert(all.drop_last() =~= a + seq![(name, value)] + b.drop_last());
        assert(all.last() == b.last());
        lemma_settings_text(a, name, value, b.drop_last());
        assert(settings_text(all) =~= settings_text(a) + name + "="@ + value + " "@
            + settings_text(b));
    }
}

} // verus!
