//! Configuration values, and what the layers of a configuration make of them.

use toml_edit::Value;
use vstd::prelude::*;

use crate::text::chars_of;
use crate::text::string_of;
use crate::text::texts;

verus! {

/// A configuration value. Values that are neither read nor compared are kept in
/// their TOML notation.
#[derive(Debug, PartialEq, Eq)]
pub enum ConfigValue {
    /// A string.
    Text(String),
    /// An integer.
    Integer(i64),
    /// A number in TOML notation.
    Float(String),
    /// A truth value.
    Boolean(bool),
    /// A date or time in TOML notation.
    Datetime(String),
    /// An array in TOML notation.
    Array(String),
    /// An inline table in TOML notation.
    InlineTable(String),
}

/// What can be seen of a configuration value.
pub enum ValueView {
    /// A string.
    Text(Seq<char>),
    /// An integer.
    Integer(i64),
    /// A number in TOML notation.
    Float(Seq<char>),
    /// A truth value.
    Boolean(bool),
    /// A date or time in TOML notation.
    Datetime(Seq<char>),
    /// An array in TOML notation.
    Array(Seq<char>),
    /// An inline table in TOML notation.
    InlineTable(Seq<char>),
}

impl View for ConfigValue {
    type V = ValueView;

    open spec fn view(&self) -> ValueView {
        match *self {
            ConfigValue::Text(text) => ValueView::Text(text@),
            ConfigValue::Integer(number) => ValueView::Integer(number),
            ConfigValue::Float(text) => ValueView::Float(text@),
            ConfigValue::Boolean(value) => ValueView::Boolean(value),
            ConfigValue::Datetime(text) => ValueView::Datetime(text@),
            ConfigValue::Array(text) => ValueView::Array(text@),
            ConfigValue::InlineTable(text) => ValueView::InlineTable(text@),
        }
    }
}

impl ConfigValue {
    /// Makes a copy of the value.
    pub fn copy(&self) -> (value: ConfigValue)
        ensures
            value@ == self@,
    {
        match self {
            ConfigValue::Text(text) => ConfigValue::Text(text.clone()),
            ConfigValue::Integer(number) => ConfigValue::Integer(*number),
            ConfigValue::Float(text) => ConfigValue::Float(text.clone()),
            ConfigValue::Boolean(value) => ConfigValue::Boolean(*value),
            ConfigValue::Datetime(text) => ConfigValue::Datetime(text.clone()),
            ConfigValue::Array(text) => ConfigValue::Array(text.clone()),
            ConfigValue::InlineTable(text) => ConfigValue::InlineTable(text.clone()),
        }
    }

    /// The name of the type of the value.
    pub open spec fn kind_text(&self) -> Seq<char> {
        match *self {
            ConfigValue::Text(_) => "string"@,
            ConfigValue::Integer(_) => "integer"@,
            ConfigValue::Float(_) => "float"@,
            ConfigValue::Boolean(_) => "boolean"@,
            ConfigValue::Datetime(_) => "datetime"@,
            ConfigValue::Array(_) => "array"@,
            ConfigValue::InlineTable(_) => "inline table"@,
        }
    }

    /// Returns the name of the type of the value.
    pub fn kind(&self) -> (name: &'static str)
        ensures
            name@ == self.kind_text(),
    {
        match self {
            ConfigValue::Text(_) => "string",
            ConfigValue::Integer(_) => "integer",
            ConfigValue::Float(_) => "float",
            ConfigValue::Boolean(_) => "boolean",
            ConfigValue::Datetime(_) => "datetime",
            ConfigValue::Array(_) => "array",
            ConfigValue::InlineTable(_) => "inline table",
        }
    }
}

/// What can be seen of a value or a message.
pub open spec fn result_view(result: Result<ConfigValue, String>) -> Result<
    ValueView,
    Seq<char>,
> {
    match result {
        Ok(value) => Ok(value@),
        Err(message) => Err(message@),
    }
}

/// What can be seen of a name or a message.
pub open spec fn name_view(result: Result<Vec<String>, String>) -> Result<
    Seq<Seq<char>>,
    Seq<char>,
> {
    match result {
        Ok(name) => Ok(texts(name@)),
        Err(message) => Err(message@),
    }
}

/// What `toml_edit` reads from the notation of a value: the value, or a
/// message.
pub uninterp spec fn parsed_value(text: Seq<char>) -> Result<ValueView, Seq<char>>;

/// What `toml_edit` reads from the notation of a dotted key: its parts, or a
/// message.
pub uninterp spec fn parsed_name(text: Seq<char>) -> Result<Seq<Seq<char>>, Seq<char>>;

/// `toml_edit::Value::from_str`: the value that the text is the notation of.
/// What that is, is only named here; it depends on the text alone.
#[verifier::external_body]
pub(crate) fn parse_toml_value(text: &str) -> (value: Result<ConfigValue, String>)
    ensures
        result_view(value) == parsed_value(text@),
{
    match text.parse::<Value>() {
        Ok(Value::String(v)) => Ok(ConfigValue::Text(v.into_value())),
        Ok(Value::Integer(v)) => Ok(ConfigValue::Integer(v.into_value())),
        Ok(Value::Float(v)) => Ok(ConfigValue::Float(v.to_string())),
        Ok(Value::Boolean(v)) => Ok(ConfigValue::Boolean(v.into_value())),
        Ok(Value::Datetime(v)) => Ok(ConfigValue::Datetime(v.to_string())),
        Ok(Value::Array(v)) => Ok(ConfigValue::Array(v.to_string())),
        Ok(Value::InlineTable(v)) => Ok(ConfigValue::InlineTable(v.to_string())),
        Err(err) => Err(err.to_string()),
    }
}

/// `toml_edit::Key::parse`: the parts of the dotted key that the text is the
/// notation of. What they are, is only named here; it depends on the text
/// alone.
#[verifier::external_body]
pub(crate) fn parse_toml_name(text: &str) -> (name: Result<Vec<String>, String>)
    ensures
        name_view(name) == parsed_name(text@),
{
    match toml_edit::Key::parse(text) {
        Ok(keys) => Ok(keys.iter().map(|key| key.get().to_owned()).collect()),
        Err(err) => Err(err.to_string()),
    }
}

/// Whether a character is ASCII whitespace.
pub open spec fn is_ascii_space(c: char) -> bool {
    c == ' ' || c == '\t' || c == '\n' || c == '\x0C' || c == '\r'
}

/// The text without leading ASCII whitespace.
pub open spec fn trimmed_start(text: Seq<char>) -> Seq<char>
    decreases text.len(),
{
    if text.len() > 0 && is_ascii_space(text[0]) {
        trimmed_start(text.skip(1))
    } else {
        text
    }
}

/// The text without trailing ASCII whitespace.
pub open spec fn trimmed_end(text: Seq<char>) -> Seq<char>
    decreases text.len(),
{
    if text.len() > 0 && is_ascii_space(text.last()) {
        trimmed_end(text.drop_last())
    } else {
        text
    }
}

/// Whether a text that is no TOML value is taken for a string: it neither
/// begins nor ends like a string, an array or a table.
pub open spec fn is_bare(text: Seq<char>) -> bool {
    let trimmed = trimmed_end(trimmed_start(text));
    trimmed.len() == 0 || {
        &&& trimmed[0] != '"' && trimmed[0] != '\'' && trimmed[0] != '[' && trimmed[0] != '{'
        &&& trimmed.last() != '"' && trimmed.last() != '\'' && trimmed.last() != ']'
            && trimmed.last() != '}'
    }
}

fn is_space(c: char) -> (space: bool)
    ensures
        space == is_ascii_space(c),
{
    c == ' ' || c == '\t' || c == '\n' || c == '\x0C' || c == '\r'
}

/// Whether a text that is no TOML value is taken for a string.
pub fn is_bare_string(value_str: &str) -> (bare: bool)
    ensures
        bare == is_bare(value_str@),
{
    let chars: Vec<char> = chars_of(value_str);
    let mut start: usize = 0;
    assert(chars@.skip(0) =~= chars@);
    while start < chars.len() && is_space(chars[start])
        invariant
            start <= chars@.len(),
            trimmed_start(chars@) == trimmed_start(chars@.skip(start as int)),
        decreases chars@.len() - start,
    {
        assert(chars@.skip(start as int).skip(1) =~= chars@.skip(start + 1));
        start += 1;
    }
    let mut end: usize = chars.len();
    assert(chars@.subrange(start as int, end as int) =~= chars@.skip(start as int));
    while end > start && is_space(chars[end - 1])
        invariant
            start <= end <= chars@.len(),
            trimmed_end(trimmed_start(chars@)) == trimmed_end(
                chars@.subrange(start as int, end as int),
            ),
        decreases end,
    {
        assert(chars@.subrange(start as int, end as int).drop_last() =~= chars@.subrange(
            start as int,
            end - 1,
        ));
        end -= 1;
    }
    if start == end {
        return true;
    }
    let first: char = chars[start];
    let last: char = chars[end - 1];
    first != '"' && first != '\'' && first != '[' && first != '{' && last != '"' && last != '\''
        && last != ']' && last != '}'
}

/// The value that a text stands for, given what was read from it as a TOML
/// value: a text that could not be read is a string if it does not look like a
/// TOML expression.
pub open spec fn value_or_bare(
    parsed: Result<ValueView, Seq<char>>,
    text: Seq<char>,
) -> Result<ValueView, Seq<char>> {
    if parsed is Err && is_bare(text) {
        Ok(ValueView::Text(text))
    } else {
        parsed
    }
}

/// Falls back to a bare string where a text could not be read as a TOML value
/// and does not look like one.
pub fn value_or_bare_string(parsed: Result<ConfigValue, String>, value_str: &str) -> (value: Result<
    ConfigValue,
    String,
>)
    ensures
        result_view(value) == value_or_bare(result_view(parsed), value_str@),
{
    match parsed {
        Ok(value) => Ok(value),
        Err(message) => if is_bare_string(value_str) {
            Ok(ConfigValue::Text(value_str.to_owned()))
        } else {
            Err(message)
        },
    }
}

/// Parses a TOML value expression. Interprets the given value as string if it
/// can't be parsed and doesn't look like a TOML expression.
pub fn parse_value_or_bare_string(value_str: &str) -> (value: Result<ConfigValue, String>)
    ensures
        result_view(value) == value_or_bare(parsed_value(value_str@), value_str@),
{
    value_or_bare_string(parse_toml_value(value_str), value_str)
}

/// Why a `--config` argument cannot be used.
#[derive(Debug, PartialEq, Eq)]
pub enum ConfigArgError {
    /// The argument is not of the form `NAME=VALUE`.
    NotNameValue,
    /// The name cannot be parsed.
    Name(String),
    /// The value cannot be parsed.
    Value(String),
}

/// What can be seen of an error.
pub enum ArgErrorView {
    /// The argument is not of the form `NAME=VALUE`.
    NotNameValue,
    /// The name cannot be parsed.
    Name(Seq<char>),
    /// The value cannot be parsed.
    Value(Seq<char>),
}

impl View for ConfigArgError {
    type V = ArgErrorView;

    open spec fn view(&self) -> ArgErrorView {
        match *self {
            ConfigArgError::NotNameValue => ArgErrorView::NotNameValue,
            ConfigArgError::Name(message) => ArgErrorView::Name(message@),
            ConfigArgError::Value(message) => ArgErrorView::Value(message@),
        }
    }
}

impl ConfigArgError {
    /// Returns what is wrong, without the details.
    pub fn message(&self) -> (message: &'static str)
        ensures
            message@ == (match *self {
                ConfigArgError::NotNameValue => "--config must be specified as NAME=VALUE"@,
                ConfigArgError::Name(_) => "--config name cannot be parsed"@,
                ConfigArgError::Value(_) => "--config value cannot be parsed"@,
            }),
    {
        match self {
            ConfigArgError::NotNameValue => "--config must be specified as NAME=VALUE",
            ConfigArgError::Name(_) => "--config name cannot be parsed",
            ConfigArgError::Value(_) => "--config value cannot be parsed",
        }
    }
}

/// What can be seen of a candidate for a split: what was read from the part
/// before the equals sign, and the part after it.
pub open spec fn candidate_view(candidate: (Result<Vec<String>, String>, String)) -> (
    Result<Seq<Seq<char>>, Seq<char>>,
    Seq<char>,
) {
    (name_view(candidate.0), candidate.1@)
}

/// What can be seen of the candidates for a split.
pub open spec fn candidates_view(candidates: Seq<(Result<Vec<String>, String>, String)>) -> Seq<
    (Result<Seq<Seq<char>>, Seq<char>>, Seq<char>),
> {
    candidates.map_values(|candidate| candidate_view(candidate))
}

/// The candidate that is chosen: the first one whose name could be read, or
/// else the last one.
pub open spec fn chosen_candidate(
    candidates: Seq<(Result<Seq<Seq<char>>, Seq<char>>, Seq<char>)>,
) -> Option<(Result<Seq<Seq<char>>, Seq<char>>, Seq<char>)>
    decreases candidates.len(),
{
    if candidates.len() == 0 {
        None
    } else if candidates.len() == 1 || candidates[0].0 is Ok {
        Some(candidates[0])
    } else {
        chosen_candidate(candidates.drop_first())
    }
}

/// The candidates for a split of a text from a position on: one for each equals
/// sign.
pub open spec fn split_candidates(text: Seq<char>, from: int) -> Seq<
    (Result<Seq<Seq<char>>, Seq<char>>, Seq<char>),
>
    decreases text.len() - from,
{
    if from >= text.len() || from < 0 {
        Seq::empty()
    } else {
        let rest = split_candidates(text, from + 1);
        if text[from] == '=' {
            seq![(parsed_name(text.take(from)), text.skip(from + 1))] + rest
        } else {
            rest
        }
    }
}

/// The name and value of a `NAME=VALUE` text, split at the first position
/// where the name can be read.
pub open spec fn config_arg_item(text: Seq<char>) -> Result<
    (Seq<Seq<char>>, ValueView),
    ArgErrorView,
> {
    match chosen_candidate(split_candidates(text, 0)) {
        None => Err(ArgErrorView::NotNameValue),
        Some((Err(message), _)) => Err(ArgErrorView::Name(message)),
        Some((Ok(name), value_text)) => match value_or_bare(
            parsed_value(value_text),
            value_text,
        ) {
            Ok(value) => Ok((name, value)),
            Err(message) => Err(ArgErrorView::Value(message)),
        },
    }
}

/// Chooses where to split `NAME=VALUE`: the first candidate whose name could be
/// read, or else the last one, if there are any.
pub fn choose_split(candidates: Vec<(Result<Vec<String>, String>, String)>) -> (chosen: Option<
    (Result<Vec<String>, String>, String),
>)
    ensures
        match chosen {
            Some(candidate) => chosen_candidate(candidates_view(candidates@)) == Some(
                candidate_view(candidate),
            ),
            None => chosen_candidate(candidates_view(candidates@)) is None,
        },
{
    let ghost views = candidates_view(candidates@);
    let ghost all = candidates@;
    let mut remaining: Vec<(Result<Vec<String>, String>, String)> = candidates;
    if remaining.len() == 0 {
        return None;
    }
    let mut i: usize = 0;
    assert(views.skip(0) =~= views);
    while i < remaining.len() - 1 && remaining[i].0.is_err()
        invariant
            remaining@ == all,
            views == candidates_view(all),
            i < all.len(),
            chosen_candidate(views) == chosen_candidate(views.skip(i as int)),
        decreases all.len() - i,
    {
        assert(views.skip(i as int)[0] == candidate_view(all[i as int]));
        assert(views.skip(i as int).drop_first() =~= views.skip(i + 1));
        i += 1;
    }
    assert(views.skip(i as int)[0] == candidate_view(all[i as int]));
    Some(remaining.remove(i))
}

/// Parses `NAME=VALUE` string.
pub fn parse_config_arg_item(item_str: &str) -> (item: Result<
    (Vec<String>, ConfigValue),
    ConfigArgError,
>)
    ensures
        match item {
            Ok((name, value)) => config_arg_item(item_str@) == Ok::<
                (Seq<Seq<char>>, ValueView),
                ArgErrorView,
            >((texts(name@), value@)),
            Err(error) => config_arg_item(item_str@) == Err::<
                (Seq<Seq<char>>, ValueView),
                ArgErrorView,
            >(error@),
        },
{
    let chars: Vec<char> = chars_of(item_str);
    let ghost text = item_str@;
    let ghost goal = split_candidates(text, 0);
    let mut candidates: Vec<(Result<Vec<String>, String>, String)> = Vec::new();
    let mut i: usize = 0;
    assert(candidates_view(candidates@) + split_candidates(text, 0) =~= goal);
    while i < chars.len()
        invariant
            i <= chars@.len(),
            chars@ == text,
            candidates_view(candidates@) + split_candidates(text, i as int) == goal,
        decreases chars@.len() - i,
    {
        if chars[i] == '=' {
            let ghost before = candidates@;
            let name_text: String = string_of(vstd::slice::slice_subrange(chars.as_slice(), 0, i));
            let value_text: String = string_of(
                vstd::slice::slice_subrange(chars.as_slice(), i + 1, chars.len()),
            );
            let name: Result<Vec<String>, String> = parse_toml_name(name_text.as_str());
            let candidate: (Result<Vec<String>, String>, String) = (name, value_text);
            proof {
                assert(text.subrange(0, i as int) =~= text.take(i as int));
                assert(text.subrange(i + 1, text.len() as int) =~= text.skip(i + 1));
            }
            candidates.push(candidate);
            proof {
                assert(candidates_view(candidates@) =~= candidates_view(before).push(
                    candidate_view(candidate),
                ));
                assert(candidates_view(candidates@) + split_candidates(text, i + 1)
                    =~= candidates_view(before) + split_candidates(text, i as int));
            }
        }
        i += 1;
    }
    assert(candidates_view(candidates@) =~= goal);
    match choose_split(candidates) {
        None => Err(ConfigArgError::NotNameValue),
        Some((Err(message), _)) => Err(ConfigArgError::Name(message)),
        Some((Ok(name), value_str)) => match parse_value_or_bare_string(value_str.as_str()) {
            Ok(value) => Ok((name, value)),
            Err(message) => Err(ConfigArgError::Value(message)),
        },
    }
}

/// Configuration source/data type provided as command-line argument.
#[derive(Debug, PartialEq, Eq, Structural, Clone, Copy)]
pub enum ConfigArgKind {
    /// `--config=NAME=VALUE`
    Item,
    /// `--config-file=PATH`
    File,
}

/// A layer of the configuration that command-line arguments ask for.
#[derive(Debug)]
pub enum ConfigArgLayer {
    /// A layer in which these values are set, in order.
    Items(Vec<(Vec<String>, ConfigValue)>),
    /// A layer that is loaded from a file.
    File(String),
}

/// What can be seen of a layer.
pub enum ArgLayerView {
    /// A layer in which these values are set, in order.
    Items(Seq<(Seq<Seq<char>>, ValueView)>),
    /// A layer that is loaded from a file.
    File(Seq<char>),
}

/// What can be seen of named values.
pub open spec fn items_view(items: Seq<(Vec<String>, ConfigValue)>) -> Seq<
    (Seq<Seq<char>>, ValueView),
> {
    items.map_values(|item: (Vec<String>, ConfigValue)| (texts(item.0@), item.1@))
}

impl View for ConfigArgLayer {
    type V = ArgLayerView;

    open spec fn view(&self) -> ArgLayerView {
        match *self {
            ConfigArgLayer::Items(items) => ArgLayerView::Items(items_view(items@)),
            ConfigArgLayer::File(path) => ArgLayerView::File(path@),
        }
    }
}

/// What the `--config*` arguments ask for.
#[derive(Debug)]
pub struct ConfigArgs {
    /// The layers, in order.
    pub layers: Vec<ConfigArgLayer>,
    /// The first argument that cannot be used. No argument after it is in the
    /// layers.
    pub error: Option<ConfigArgError>,
}

/// What can be seen of layers.
pub open spec fn layers_view(layers: Seq<ConfigArgLayer>) -> Seq<ArgLayerView> {
    layers.map_values(|layer: ConfigArgLayer| layer@)
}

/// What can be seen of an optional error.
pub open spec fn error_view(error: Option<ConfigArgError>) -> Option<ArgErrorView> {
    match error {
        Some(error) => Some(error@),
        None => None,
    }
}

/// The layers of a list of arguments: adjacent items make one layer, and each
/// file makes one.
pub open spec fn config_arg_layers(args: Seq<(ConfigArgKind, Seq<char>)>) -> (
    Seq<ArgLayerView>,
    Option<ArgErrorView>,
)
    decreases args.len(),
{
    if args.len() == 0 {
        (Seq::empty(), None)
    } else {
        let (layers, error) = config_arg_layers(args.drop_last());
        let (kind, text) = args.last();
        if error is Some {
            (layers, error)
        } else {
            match kind {
                ConfigArgKind::File => (layers.push(ArgLayerView::File(text)), None),
                ConfigArgKind::Item => match config_arg_item(text) {
                    Err(error) => (layers, Some(error)),
                    Ok(item) => if args.len() > 1 && args[args.len() - 2].0 == ConfigArgKind::Item {
                        let items = layers.last()->Items_0;
                        (layers.drop_last().push(ArgLayerView::Items(items.push(item))), None)
                    } else {
                        (layers.push(ArgLayerView::Items(seq![item])), None)
                    },
                },
            }
        }
    }
}

/// The arguments as kinds and texts.
pub open spec fn args_view(args: Seq<(ConfigArgKind, &str)>) -> Seq<(ConfigArgKind, Seq<char>)> {
    args.map_values(|arg: (ConfigArgKind, &str)| (arg.0, arg.1@))
}

proof fn lemma_last_layer(args: Seq<(ConfigArgKind, Seq<char>)>)
    requires
        args.len() > 0,
        args.last().0 == ConfigArgKind::Item,
        config_arg_layers(args).1 is None,
    ensures
        config_arg_layers(args).0.len() > 0,
        config_arg_layers(args).0.last() is Items,
    decreases args.len(),
{
}

/// Parses `--config*` arguments.
pub fn parse_config_args(toml_strs: &[(ConfigArgKind, &str)]) -> (args: ConfigArgs)
    ensures
        (layers_view(args.layers@), error_view(args.error)) == config_arg_layers(
            args_view(toml_strs@),
        ),
{
    let ghost all = args_view(toml_strs@);
    let mut layers: Vec<ConfigArgLayer> = Vec::new();
    let mut i: usize = 0;
    assert(layers_view(layers@) =~= Seq::<ArgLayerView>::empty());
    while i < toml_strs.len()
        invariant
            i <= toml_strs@.len(),
            all == args_view(toml_strs@),
            config_arg_layers(all.take(i as int)) == (
                layers_view(layers@),
                None::<ArgErrorView>,
            ),
        decreases toml_strs@.len() - i,
    {
        let (kind, text) = toml_strs[i];
        let ghost before = layers@;
        let ghost shorter = all.take(i as int);
        let ghost longer = all.take(i + 1);
        proof {
            assert(longer.drop_last() =~= shorter);
            assert(longer.last() == (kind, text@));
            if i > 0 {
                assert(longer[i - 1] == all[i - 1]);
                assert(all[i - 1].0 == toml_strs@[i - 1].0);
                assert(shorter.last() == all[i - 1]);
            }
        }
        match kind {
            ConfigArgKind::File => {
                let layer: ConfigArgLayer = ConfigArgLayer::File(text.to_owned());
                let ghost view = layer@;
                layers.push(layer);
                assert(layers_view(layers@) =~= layers_view(before).push(view));
            },
            ConfigArgKind::Item => {
                match parse_config_arg_item(text) {
                    Err(error) => {
                        proof {
                            lemma_error_stays(all, i + 1);
                        }
                        return ConfigArgs { layers, error: Some(error) };
                    },
                    Ok((name, value)) => {
                        let ghost item = (texts(name@), value@);
                        if i > 0 && is_item(toml_strs[i - 1].0) {
                            proof {
                                lemma_last_layer(shorter);
                                assert(layers_view(before).last() == before.last()@);
                            }
                            let last: ConfigArgLayer = layers.pop().unwrap();
                            let ghost rest = layers@;
                            assert(layers_view(rest) =~= layers_view(before).drop_last());
                            if let ConfigArgLayer::Items(items) = last {
                                let mut items: Vec<(Vec<String>, ConfigValue)> = items;
                                let ghost old_items = items@;
                                items.push((name, value));
                                assert(items_view(items@) =~= items_view(old_items).push(item));
                                let layer: ConfigArgLayer = ConfigArgLayer::Items(items);
                                let ghost view = layer@;
                                layers.push(layer);
                                assert(layers_view(layers@) =~= layers_view(rest).push(view));
                            }
                        } else {
                            let mut items: Vec<(Vec<String>, ConfigValue)> = Vec::new();
                            items.push((name, value));
                            assert(items_view(items@) =~= seq![item]);
                            let layer: ConfigArgLayer = ConfigArgLayer::Items(items);
                            let ghost view = layer@;
                            layers.push(layer);
                            assert(layers_view(layers@) =~= layers_view(before).push(view));
                        }
                    },
                }
            },
        }
        i += 1;
    }
    assert(all.take(all.len() as int) =~= all);
    ConfigArgs { layers, error: None }
}

fn is_item(kind: ConfigArgKind) -> (item: bool)
    ensures
        item == (kind == ConfigArgKind::Item),
{
    match kind {
        ConfigArgKind::Item => true,
        ConfigArgKind::File => false,
    }
}

/// No argument after an error changes anything.
proof fn lemma_error_stays(args: Seq<(ConfigArgKind, Seq<char>)>, n: int)
    requires
        0 <= n <= args.len(),
        config_arg_layers(args.take(n)).1 is Some,
    ensures
        config_arg_layers(args) == config_arg_layers(args.take(n)),
    decreases args.len(),
{
    if n < args.len() {
        let front = args.drop_last();
        assert(front.take(n) =~= args.take(n));
        lemma_error_stays(front, n);
    } else {
        assert(args.take(n) =~= args);
    }
}

/// Trimming takes ASCII whitespace away, and nothing else, until there is none
/// left at either end.
pub proof fn lemma_trimmed(text: Seq<char>, start: Seq<char>, end: Seq<char>)
    requires
        forall|i: int| 0 <= i < start.len() ==> is_ascii_space(#[trigger] start[i]),
        forall|i: int| 0 <= i < end.len() ==> is_ascii_space(#[trigger] end[i]),
        text.len() > 0 ==> !is_ascii_space(text[0]) && !is_ascii_space(text.last()),
    ensures
        trimmed_end(trimmed_start(start + text + end)) == text,
{
    if text.len() > 0 {
        lemma_trimmed_start(text + end, start);
        lemma_trimmed_end(text, end);
        assert(start + text + end =~= start + (text + end));
    } else {
        let all = start + end;
        assert(start + text + end =~= all + text);
        assert forall|i: int| 0 <= i < all.len() implies is_ascii_space(#[trigger] all[i]) by {
            if i < start.len() {
                assert(all[i] == start[i]);
            } else {
                assert(all[i] == end[i - start.len()]);
            }
        }
        lemma_trimmed_start(text, all);
    }
}

proof fn lemma_trimmed_start(text: Seq<char>, start: Seq<char>)
    requires
        forall|i: int| 0 <= i < start.len() ==> is_ascii_space(#[trigger] start[i]),
        text.len() > 0 ==> !is_ascii_space(text[0]),
    ensures
        trimmed_start(start + text) == text,
    decreases start.len(),
{
    if start.len() == 0 {
        assert(start + text =~= text);
    } else {
        assert((start + text)[0] == start[0]);
        assert((start + text).skip(1) =~= start.skip(1) + text);
        lemma_trimmed_start(text, start.skip(1));
    }
}

proof fn lemma_trimmed_end(text: Seq<char>, end: Seq<char>)
    requires
        forall|i: int| 0 <= i < end.len() ==> is_ascii_space(#[trigger] end[i]),
        text.len() > 0 ==> !is_ascii_space(text.last()),
    ensures
        trimmed_end(text + end) == text,
    decreases end.len(),
{
    if end.len() == 0 {
        assert(text + end =~= text);
    } else {
        assert((text + end).last() == end.last());
        assert((text + end).drop_last() =~= text + end.drop_last());
        lemma_trimmed_end(text, end.drop_last());
    }
}

/// Whether a text that is no TOML value is taken for a string depends only on
/// the first and the last character of what is left without whitespace around
/// it: none may open or close a string, an array or a table.
pub proof fn lemma_bare(text: Seq<char>, start: Seq<char>, end: Seq<char>)
    requires
        forall|i: int| 0 <= i < start.len() ==> is_ascii_space(#[trigger] start[i]),
        forall|i: int| 0 <= i < end.len() ==> is_ascii_space(#[trigger] end[i]),
        text.len() > 0 ==> !is_ascii_space(text[0]) && !is_ascii_space(text.last()),
    ensures
        text.len() == 0 ==> is_bare(start + text + end),
        text.len() > 0 ==> (is_bare(start + text + end) <==> !seq!['"', '\'', '[', '{'].contains(
            text[0],
        ) && !seq!['"', '\'', ']', '}'].contains(text.last())),
{
    lemma_trimmed(text, start, end);
    if text.len() > 0 {
        let opening = seq!['"', '\'', '[', '{'];
        let closing = seq!['"', '\'', ']', '}'];
        assert(opening[0] == '"' && opening[1] == '\'' && opening[2] == '[' && opening[3] == '{');
        assert(closing[0] == '"' && closing[1] == '\'' && closing[2] == ']' && closing[3] == '}');
        let first = text[0];
        let last = text.last();
        assert(opening.contains(first) <==> first == '"' || first == '\'' || first == '[' || first
            == '{');
        assert(closing.contains(last) <==> last == '"' || last == '\'' || last == ']' || last
            == '}');
    }
}

/// The candidate that is chosen is the first one whose name could be read, and
/// the last one if no name could.
pub proof fn lemma_chosen_candidate(
    candidates: Seq<(Result<Seq<Seq<char>>, Seq<char>>, Seq<char>)>,
    k: int,
)
    requires
        0 <= k < candidates.len(),
        forall|j: int| 0 <= j < k ==> (#[trigger] candidates[j]).0 is Err,
        candidates[k].0 is Ok || k == candidates.len() - 1,
    ensures
        chosen_candidate(candidates) == Some(candidates[k]),
    decreases candidates.len(),
{
    if k > 0 {
        let rest = candidates.drop_first();
        assert(candidates[0].0 is Err);
        assert forall|j: int| 0 <= j < k - 1 implies (#[trigger] rest[j]).0 is Err by {
            assert(rest[j] == candidates[j + 1]);
        }
        assert(rest[k - 1] == candidates[k]);
        lemma_chosen_candidate(rest, k - 1);
    }
}

/// Where there is no equals sign, there is no place to split.
proof fn lemma_no_candidates(text: Seq<char>, from: int)
    requires
        0 <= from,
        forall|i: int| from <= i < text.len() ==> #[trigger] text[i] != '=',
    ensures
        split_candidates(text, from).len() == 0,
    decreases text.len() - from,
{
    if from < text.len() {
        lemma_no_candidates(text, from + 1);
    }
}

proof fn lemma_split_at(text: Seq<char>, from: int, place: int)
    requires
        0 <= from <= place < text.len(),
        text[place] == '=',
        forall|i: int|
            from <= i < place && #[trigger] text[i] == '=' ==> parsed_name(text.take(i)) is Err,
        parsed_name(text.take(place)) is Ok || forall|i: int|
            place < i < text.len() ==> #[trigger] text[i] != '=',
    ensures
        chosen_candidate(split_candidates(text, from)) == Some(
            (parsed_name(text.take(place)), text.skip(place + 1)),
        ),
    decreases place - from,
{
    let all = split_candidates(text, from);
    let rest = split_candidates(text, from + 1);
    if from == place {
        if parsed_name(text.take(place)) is Err {
            lemma_no_candidates(text, place + 1);
        }
    } else {
        lemma_split_at(text, from + 1, place);
        if text[from] == '=' {
            assert(all.drop_first() =~= rest);
        }
    }
}

/// An argument is split at the first equals sign before which there is a name
/// that can be read, whatever comes after it: so a name may hold quoted equals
/// signs, and a value any. What comes after it is the value as it can be read,
/// or a string if it does not look like a value. Without such a name, the name
/// before the last equals sign is wrong.
pub proof fn lemma_config_arg(text: Seq<char>, place: int)
    requires
        0 <= place < text.len(),
        text[place] == '=',
        forall|i: int|
            0 <= i < place && #[trigger] text[i] == '=' ==> parsed_name(text.take(i)) is Err,
        parsed_name(text.take(place)) is Ok || forall|i: int|
            place < i < text.len() ==> #[trigger] text[i] != '=',
    ensures
        parsed_name(text.take(place)) matches Err(message) ==> config_arg_item(text) == Err::<
            (Seq<Seq<char>>, ValueView),
            ArgErrorView,
        >(ArgErrorView::Name(message)),
        parsed_name(text.take(place)) matches Ok(name) ==> {
            let rest = text.skip(place + 1);
            &&& parsed_value(rest) matches Ok(value) ==> config_arg_item(text) == Ok::<
                (Seq<Seq<char>>, ValueView),
                ArgErrorView,
            >((name, value))
            &&& parsed_value(rest) is Err && is_bare(rest) ==> config_arg_item(text) == Ok::<
                (Seq<Seq<char>>, ValueView),
                ArgErrorView,
            >((name, ValueView::Text(rest)))
            &&& parsed_value(rest) is Err && !is_bare(rest) ==> config_arg_item(text) == Err::<
                (Seq<Seq<char>>, ValueView),
                ArgErrorView,
            >(ArgErrorView::Value(parsed_value(rest)->Err_0))
        },
{
    lemma_split_at(text, 0, place);
}

/// An argument without an equals sign has no value.
pub proof fn lemma_config_arg_without_value(text: Seq<char>)
    requires
        !text.contains('='),
    ensures
        config_arg_item(text) == Err::<(Seq<Seq<char>>, ValueView), ArgErrorView>(
            ArgErrorView::NotNameValue,
        ),
{
    assert forall|i: int| 0 <= i < text.len() implies #[trigger] text[i] != '=' by {
        assert(text.contains(text[i]));
    }
    lemma_no_candidates(text, 0);
}

/// What an argument asks for on its own: a value to set, or a file to load.
pub enum ArgPart {
    /// A value with its name.
    Item((Seq<Seq<char>>, ValueView)),
    /// A file.
    File(Seq<char>),
}

/// What a layer asks for.
pub open spec fn layer_parts(layer: ArgLayerView) -> Seq<ArgPart> {
    match layer {
        ArgLayerView::Items(items) => items.map_values(|item| ArgPart::Item(item)),
        ArgLayerView::File(path) => seq![ArgPart::File(path)],
    }
}

/// What layers ask for, one after the other.
pub open spec fn all_parts(layers: Seq<ArgLayerView>) -> Seq<ArgPart>
    decreases layers.len(),
{
    if layers.len() == 0 {
        Seq::empty()
    } else {
        all_parts(layers.drop_last()) + layer_parts(layers.last())
    }
}

/// What an argument asks for.
pub open spec fn arg_part(arg: (ConfigArgKind, Seq<char>)) -> ArgPart {
    match arg.0 {
        ConfigArgKind::File => ArgPart::File(arg.1),
        ConfigArgKind::Item => ArgPart::Item(config_arg_item(arg.1)->Ok_0),
    }
}

/// Whether an argument cannot be parsed.
pub open spec fn is_wrong_arg(arg: (ConfigArgKind, Seq<char>)) -> bool {
    arg.0 == ConfigArgKind::Item && config_arg_item(arg.1) is Err
}

/// The layers ask for what the arguments ask for, in the same order: nothing is
/// lost or added. Values next to each other are in one layer.
pub proof fn lemma_arg_layers(args: Seq<(ConfigArgKind, Seq<char>)>)
    requires
        forall|i: int| 0 <= i < args.len() ==> !is_wrong_arg(#[trigger] args[i]),
    ensures
        config_arg_layers(args).1 is None,
        all_parts(config_arg_layers(args).0) == args.map_values(
            |arg: (ConfigArgKind, Seq<char>)| arg_part(arg),
        ),
        forall|i: int|
            0 <= i < config_arg_layers(args).0.len() ==> layer_parts(
                #[trigger] config_arg_layers(args).0[i],
            ).len() > 0,
        forall|i: int|
            0 < i < config_arg_layers(args).0.len() ==> !(config_arg_layers(args).0[i - 1] is Items
                && (#[trigger] config_arg_layers(args).0[i]) is Items),
        args.len() > 0 ==> config_arg_layers(args).0.len() > 0 && (config_arg_layers(
            args,
        ).0.last() is Items <==> args.last().0 == ConfigArgKind::Item),
    decreases args.len(),
{
    let parts = args.map_values(|arg: (ConfigArgKind, Seq<char>)| arg_part(arg));
    let layers = config_arg_layers(args).0;
    if args.len() == 0 {
        assert(all_parts(layers) =~= parts);
    } else {
        let front = args.drop_last();
        let before = config_arg_layers(front).0;
        let front_parts = front.map_values(|arg: (ConfigArgKind, Seq<char>)| arg_part(arg));
        assert forall|i: int| 0 <= i < front.len() implies !is_wrong_arg(#[trigger] front[i]) by {
            assert(front[i] == args[i]);
        }
        lemma_arg_layers(front);
        let (kind, text) = args.last();
        assert(args[args.len() - 1] == args.last());
        assert(parts =~= front_parts.push(arg_part(args.last())));
        if kind == ConfigArgKind::Item && args.len() > 1 && args[args.len() - 2].0
            == ConfigArgKind::Item {
            assert(front.last() == args[args.len() - 2]);
            let items = before.last()->Items_0;
            let item = config_arg_item(text)->Ok_0;
            assert(layers.drop_last() =~= before.drop_last());
            assert(layer_parts(layers.last()) =~= layer_parts(before.last()).push(
                ArgPart::Item(item),
            ));
            assert(all_parts(layers) =~= all_parts(before).push(ArgPart::Item(item)));
            assert forall|i: int| 0 <= i < layers.len() implies layer_parts(
                #[trigger] layers[i],
            ).len() > 0 by {
                if i < layers.len() - 1 {
                    assert(layers[i] == before[i]);
                }
            }
            assert forall|i: int| 0 < i < layers.len() implies !(layers[i - 1] is Items && (
            #[trigger] layers[i]) is Items) by {
                assert(layers[i - 1] == before[i - 1]);
                assert(layers[i] is Items <==> before[i] is Items);
            }
        } else {
            assert(layers.drop_last() =~= before);
            assert(layer_parts(layers.last()) =~= seq![arg_part(args.last())]);
            assert(all_parts(layers) =~= parts);
            assert forall|i: int| 0 <= i < layers.len() implies layer_parts(
                #[trigger] layers[i],
            ).len() > 0 by {
                if i < layers.len() - 1 {
                    assert(layers[i] == before[i]);
                }
            }
            assert forall|i: int| 0 < i < layers.len() implies !(layers[i - 1] is Items && (
            #[trigger] layers[i]) is Items) by {
                assert(layers[i - 1] == before[i - 1]);
                if i < layers.len() - 1 {
                    assert(layers[i] == before[i]);
                } else if args.len() > 1 {
                    assert(front.last() == args[args.len() - 2]);
                }
            }
        }
    }
}

/// The first argument that cannot be parsed ends the layers, with its error.
pub proof fn lemma_arg_error(args: Seq<(ConfigArgKind, Seq<char>)>, k: int)
    requires
        0 <= k < args.len(),
        is_wrong_arg(args[k]),
        forall|i: int| 0 <= i < k ==> !is_wrong_arg(#[trigger] args[i]),
    ensures
        config_arg_layers(args) == (
            config_arg_layers(args.take(k)).0,
            Some(config_arg_item(args[k].1)->Err_0),
        ),
    decreases args.len(),
{
    let front = args.drop_last();
    if k == args.len() - 1 {
        assert(args.take(k) =~= front);
        assert forall|i: int| 0 <= i < front.len() implies !is_wrong_arg(#[trigger] front[i]) by {
            assert(front[i] == args[i]);
        }
        lemma_arg_layers(front);
    } else {
        assert(front.take(k) =~= args.take(k));
        assert(front[k] == args[k]);
        assert forall|i: int| 0 <= i < k implies !is_wrong_arg(#[trigger] front[i]) by {
            assert(front[i] == args[i]);
        }
        lemma_arg_error(front, k);
    }
}

} // verus!
