//! What the layers of a configuration say together.
//!
//! A layer is a tree of tables with values at its leaves. A value hides the
//! values of lower layers at the same name, below it, and above it.

use vstd::prelude::*;

use crate::config::ConfigValue;
use crate::config::ValueView;
use crate::text::concat;
use crate::text::copy_texts;
use crate::text::lemma_texts_push;
use crate::text::texts;

verus! {

/// Where a layer comes from, from the lowest precedence to the highest.
#[derive(Debug, PartialEq, Eq, Structural, Clone, Copy)]
pub enum ConfigSource {
    /// Default values.
    Default,
    /// System-wide configuration files.
    System,
    /// Base environment variables.
    EnvBase,
    /// User configuration files.
    User,
    /// Repository configuration files.
    Repo,
    /// Workspace configuration files.
    Workspace,
    /// Override environment variables.
    EnvOverrides,
    /// Command-line arguments.
    CommandArg,
}

/// An item of a layer.
#[derive(Debug)]
pub enum ConfigItem {
    /// A value that is no table.
    Value(ConfigValue),
    /// An array of tables, in TOML notation.
    ArrayOfTables(String),
    /// A table with its keys, in order.
    Table {
        /// Whether the table is written inline.
        inline: bool,
        /// The items of the table.
        entries: Vec<(String, ConfigItem)>,
    },
}

/// A layer of the configuration.
#[derive(Debug)]
pub struct ConfigLayer {
    /// Where the layer comes from.
    pub source: ConfigSource,
    /// The file that the layer was loaded from.
    pub path: Option<String>,
    /// The items at the top of the layer.
    pub entries: Vec<(String, ConfigItem)>,
}

/// The values of an item at a name, in order: the value itself, or those of the
/// items of a table.
pub open spec fn item_leaves(name: Seq<Seq<char>>, item: ConfigItem) -> Seq<
    (Seq<Seq<char>>, ValueView),
>
    decreases item,
{
    match item {
        ConfigItem::Value(value) => seq![(name, value@)],
        ConfigItem::ArrayOfTables(text) => seq![(name, ValueView::Array(text@))],
        ConfigItem::Table { inline, entries } => entries_leaves(name, entries@),
    }
}

/// The values of the items of a table at a name, in order.
pub open spec fn entries_leaves(name: Seq<Seq<char>>, entries: Seq<(String, ConfigItem)>) -> Seq<
    (Seq<Seq<char>>, ValueView),
>
    decreases entries,
{
    if entries.len() == 0 {
        Seq::empty()
    } else {
        entries_leaves(name, entries.drop_last()) + item_leaves(
            name.push(entries.last().0@),
            entries.last().1,
        )
    }
}

/// What is found at a name.
pub enum Found {
    /// An item.
    Item(ConfigItem),
    /// The items at the top.
    Top(Seq<(String, ConfigItem)>),
    /// Nothing.
    Nothing,
    /// A parent of the name is this item, which is no table.
    NotTable(ConfigItem),
}

/// The first item of a table with the given key.
pub open spec fn find_entry(entries: Seq<(String, ConfigItem)>, key: Seq<char>) -> Option<
    ConfigItem,
>
    decreases entries.len(),
{
    if entries.len() == 0 {
        None
    } else if entries[0].0@ == key {
        Some(entries[0].1)
    } else {
        find_entry(entries.drop_first(), key)
    }
}

/// What is found at a name below the items of a table.
pub open spec fn look_up(entries: Seq<(String, ConfigItem)>, name: Seq<Seq<char>>) -> Found
    decreases name.len(),
{
    if name.len() == 0 {
        Found::Top(entries)
    } else {
        match find_entry(entries, name[0]) {
            None => Found::Nothing,
            Some(item) => if name.len() == 1 {
                Found::Item(item)
            } else {
                match item {
                    ConfigItem::Table { inline, entries } => look_up(entries@, name.skip(1)),
                    _ => Found::NotTable(item),
                }
            },
        }
    }
}

/// Whether one of two names is a prefix of the other.
pub open spec fn names_clash(a: Seq<Seq<char>>, b: Seq<Seq<char>>) -> bool {
    a.is_prefix_of(b) || b.is_prefix_of(a)
}

/// Whether a value is hidden by one of the given names of upper layers.
pub open spec fn is_hidden(name: Seq<Seq<char>>, upper: Seq<Seq<Seq<char>>>) -> bool {
    exists|k: int| 0 <= k < upper.len() && names_clash(name, #[trigger] upper[k])
}

/// The values of a layer under a name.
pub open spec fn layer_leaves(layer: ConfigLayer, prefix: Seq<Seq<char>>) -> Seq<
    (Seq<Seq<char>>, ValueView),
> {
    match look_up(layer.entries@, prefix) {
        Found::Item(item) => item_leaves(prefix, item),
        Found::Top(entries) => entries_leaves(prefix, entries),
        _ => Seq::empty(),
    }
}

/// The names under a name with which a layer hides values of lower layers:
/// those of its values, or the name itself if a parent of it is a value.
pub open spec fn hiding_names(layer: ConfigLayer, prefix: Seq<Seq<char>>) -> Seq<Seq<Seq<char>>> {
    if look_up(layer.entries@, prefix) is NotTable {
        seq![prefix]
    } else {
        layer_leaves(layer, prefix).map_values(|leaf: (Seq<Seq<char>>, ValueView)| leaf.0)
    }
}

/// The names with which the layers from `k` on hide values of lower layers.
pub open spec fn upper_names(layers: Seq<ConfigLayer>, k: int, prefix: Seq<Seq<char>>) -> Seq<
    Seq<Seq<char>>,
>
    decreases layers.len() - k,
{
    if k < 0 || k >= layers.len() {
        Seq::empty()
    } else {
        upper_names(layers, k + 1, prefix) + hiding_names(layers[k], prefix)
    }
}

/// What can be seen of an annotated value.
pub struct AnnotatedView {
    /// Dotted name path to the configuration variable.
    pub name: Seq<Seq<char>>,
    /// Configuration value.
    pub value: ValueView,
    /// Source of the configuration value.
    pub source: ConfigSource,
    /// Path to the source file, if available.
    pub path: Option<Seq<char>>,
    /// True if this value is overridden in higher precedence layers.
    pub is_overridden: bool,
}

/// What can be seen of an optional string.
pub open spec fn option_text(text: Option<String>) -> Option<Seq<char>> {
    match text {
        Some(text) => Some(text@),
        None => None,
    }
}

/// The values of the layer at `k` under a name, each with whether it is hidden
/// by an upper layer.
pub open spec fn annotated_leaves(
    layers: Seq<ConfigLayer>,
    k: int,
    prefix: Seq<Seq<char>>,
) -> Seq<AnnotatedView> {
    let upper = upper_names(layers, k + 1, prefix);
    layer_leaves(layers[k], prefix).map_values(
        |leaf: (Seq<Seq<char>>, ValueView)|
            AnnotatedView {
                name: leaf.0,
                value: leaf.1,
                source: layers[k].source,
                path: option_text(layers[k].path),
                is_overridden: is_hidden(leaf.0, upper),
            },
    )
}

/// The values of the layers from `k` on under a name, from lower to upper
/// layers.
pub open spec fn annotated_values(
    layers: Seq<ConfigLayer>,
    k: int,
    prefix: Seq<Seq<char>>,
) -> Seq<AnnotatedView>
    decreases layers.len() - k,
{
    if k < 0 || k >= layers.len() {
        Seq::empty()
    } else {
        annotated_leaves(layers, k, prefix) + annotated_values(layers, k + 1, prefix)
    }
}

/// Configuration variable with its source information.
#[derive(Debug)]
pub struct AnnotatedValue {
    /// Dotted name path to the configuration variable.
    pub name: Vec<String>,
    /// Configuration value.
    pub value: ConfigValue,
    /// Source of the configuration value.
    pub source: ConfigSource,
    /// Path to the source file, if available.
    pub path: Option<String>,
    /// True if this value is overridden in higher precedence layers.
    pub is_overridden: bool,
}

impl View for AnnotatedValue {
    type V = AnnotatedView;

    open spec fn view(&self) -> AnnotatedView {
        AnnotatedView {
            name: texts(self.name@),
            value: self.value@,
            source: self.source,
            path: option_text(self.path),
            is_overridden: self.is_overridden,
        }
    }
}

/// What is found at a name of a layer.
pub enum LookUp<'a> {
    /// An item.
    Item(&'a ConfigItem),
    /// The items at the top.
    Top(&'a Vec<(String, ConfigItem)>),
    /// Nothing.
    Nothing,
    /// A parent of the name is this item, which is no table.
    NotTable(&'a ConfigItem),
}

impl<'a> LookUp<'a> {
    /// What was found.
    pub open spec fn found(self) -> Found {
        match self {
            LookUp::Item(item) => Found::Item(*item),
            LookUp::Top(entries) => Found::Top(entries@),
            LookUp::Nothing => Found::Nothing,
            LookUp::NotTable(item) => Found::NotTable(*item),
        }
    }
}

fn find_in<'a>(entries: &'a Vec<(String, ConfigItem)>, key: &String) -> (found: Option<
    &'a ConfigItem,
>)
    ensures
        match found {
            Some(item) => find_entry(entries@, key@) == Some(*item),
            None => find_entry(entries@, key@) is None,
        },
{
    let ghost all = entries@;
    let mut i: usize = 0;
    assert(all.skip(0) =~= all);
    while i < entries.len()
        invariant
            all == entries@,
            i <= all.len(),
            find_entry(all, key@) == find_entry(all.skip(i as int), key@),
        decreases all.len() - i,
    {
        assert(all.skip(i as int)[0] == all[i as int]);
        assert(all.skip(i as int).drop_first() =~= all.skip(i + 1));
        if entries[i].0 == *key {
            return Some(&entries[i].1);
        }
        i += 1;
    }
    None
}

impl ConfigLayer {
    /// Looks up an item by name path.
    pub fn look_up_item<'a>(&'a self, name: &[String]) -> (result: LookUp<'a>)
        ensures
            result.found() == look_up(self.entries@, texts(name@)),
    {
        let ghost path = texts(name@);
        let mut entries: &'a Vec<(String, ConfigItem)> = &self.entries;
        let mut i: usize = 0;
        assert(path.skip(0) =~= path);
        while i < name.len()
            invariant
                i <= name@.len(),
                path == texts(name@),
                look_up(self.entries@, path) == look_up(entries@, path.skip(i as int)),
            decreases name@.len() - i,
        {
            let ghost rest = path.skip(i as int);
            assert(rest[0] == name@[i as int]@);
            assert(rest.skip(1) =~= path.skip(i + 1));
            match find_in(entries, &name[i]) {
                None => {
                    return LookUp::Nothing;
                },
                Some(item) => {
                    if i + 1 == name.len() {
                        return LookUp::Item(item);
                    }
                    match item {
                        ConfigItem::Table { inline: _, entries: inner } => {
                            entries = inner;
                        },
                        _ => {
                            return LookUp::NotTable(item);
                        },
                    }
                },
            }
            i += 1;
        }
        assert(path.skip(i as int) =~= Seq::<Seq<char>>::empty());
        LookUp::Top(entries)
    }
}

/// The names of a list of names.
pub open spec fn names_view(names: Seq<Vec<String>>) -> Seq<Seq<Seq<char>>> {
    names.map_values(|name: Vec<String>| texts(name@))
}

fn is_name_prefix(a: &Vec<String>, b: &Vec<String>) -> (prefix: bool)
    ensures
        prefix == texts(a@).is_prefix_of(texts(b@)),
{
    if a.len() > b.len() {
        return false;
    }
    let mut i: usize = 0;
    while i < a.len()
        invariant
            i <= a@.len() <= b@.len(),
            forall|k: int| 0 <= k < i ==> a@[k]@ == b@[k]@,
        decreases a@.len() - i,
    {
        if a[i] != b[i] {
            proof {
                assert(texts(a@)[i as int] == a@[i as int]@);
                assert(texts(b@)[i as int] == b@[i as int]@);
            }
            return false;
        }
        i += 1;
    }
    assert(texts(a@) =~= texts(b@).subrange(0, a@.len() as int));
    true
}

fn hidden_by(name: &Vec<String>, upper: &Vec<Vec<String>>) -> (hidden: bool)
    ensures
        hidden == is_hidden(texts(name@), names_view(upper@)),
{
    let ghost views = names_view(upper@);
    let mut i: usize = 0;
    while i < upper.len()
        invariant
            i <= upper@.len(),
            views == names_view(upper@),
            forall|k: int| 0 <= k < i ==> !names_clash(texts(name@), #[trigger] views[k]),
        decreases upper@.len() - i,
    {
        assert(views[i as int] == texts(upper@[i as int]@));
        if is_name_prefix(name, &upper[i]) || is_name_prefix(&upper[i], name) {
            assert(names_clash(texts(name@), views[i as int]));
            return true;
        }
        i += 1;
    }
    false
}

/// What can be seen of leaves.
pub open spec fn leaves_view(leaves: Seq<(Vec<String>, ConfigValue)>) -> Seq<
    (Seq<Seq<char>>, ValueView),
> {
    leaves.map_values(|leaf: (Vec<String>, ConfigValue)| (texts(leaf.0@), leaf.1@))
}

proof fn lemma_leaves_push(leaves: Seq<(Vec<String>, ConfigValue)>, leaf: (Vec<String>, ConfigValue))
    ensures
        leaves_view(leaves.push(leaf)) == leaves_view(leaves).push((texts(leaf.0@), leaf.1@)),
{
    assert(leaves_view(leaves.push(leaf)) =~= leaves_view(leaves).push((texts(leaf.0@), leaf.1@)));
}

/// Collects the values of an item.
fn collect_item(name: &Vec<String>, item: &ConfigItem, leaves: &mut Vec<(Vec<String>, ConfigValue)>)
    ensures
        leaves_view(final(leaves)@) == leaves_view(old(leaves)@) + item_leaves(
            texts(name@),
            *item,
        ),
    decreases *item,
{
    match item {
        ConfigItem::Value(value) => {
            let leaf: (Vec<String>, ConfigValue) = (copy_texts(name), value.copy());
            proof {
                lemma_leaves_push(leaves@, leaf);
                assert(leaves_view(leaves@).push((texts(name@), value@)) =~= leaves_view(leaves@)
                    + seq![(texts(name@), value@)]);
            }
            leaves.push(leaf);
        },
        ConfigItem::ArrayOfTables(text) => {
            let leaf: (Vec<String>, ConfigValue) = (
                copy_texts(name),
                ConfigValue::Array(text.clone()),
            );
            proof {
                lemma_leaves_push(leaves@, leaf);
                assert(leaves_view(leaves@).push((texts(name@), ValueView::Array(text@)))
                    =~= leaves_view(leaves@) + seq![(texts(name@), ValueView::Array(text@))]);
            }
            leaves.push(leaf);
        },
        ConfigItem::Table { inline: _, entries } => {
            collect_entries(name, entries, leaves);
        },
    }
}

/// Collects the values of the items of a table.
fn collect_entries(
    name: &Vec<String>,
    entries: &Vec<(String, ConfigItem)>,
    leaves: &mut Vec<(Vec<String>, ConfigValue)>,
)
    ensures
        leaves_view(final(leaves)@) == leaves_view(old(leaves)@) + entries_leaves(
            texts(name@),
            entries@,
        ),
    decreases *entries,
{
    let ghost before = leaves_view(leaves@);
    let mut i: usize = 0;
    assert(before + entries_leaves(texts(name@), entries@.take(0)) =~= before);
    while i < entries.len()
        invariant
            i <= entries@.len(),
            leaves_view(leaves@) == before + entries_leaves(
                texts(name@),
                entries@.take(i as int),
            ),
        decreases entries@.len() - i,
    {
        let mut sub_name: Vec<String> = copy_texts(name);
        let key: String = entries[i].0.clone();
        proof {
            lemma_texts_push(sub_name@, key);
            assert(entries@.take(i + 1).drop_last() =~= entries@.take(i as int));
            assert(entries@.take(i + 1).last() == entries@[i as int]);
            assert(decreases_to!(*entries => entries@[i as int].1));
        }
        sub_name.push(key);
        collect_item(&sub_name, &entries[i].1, leaves);
        proof {
            let so_far = entries_leaves(texts(name@), entries@.take(i as int));
            let more = item_leaves(texts(sub_name@), entries@[i as int].1);
            assert((before + so_far) + more =~= before + (so_far + more));
        }
        i += 1;
    }
    assert(entries@.take(entries@.len() as int) =~= entries@);
}

/// What can be seen of annotated values.
pub open spec fn annotated_view(values: Seq<AnnotatedValue>) -> Seq<AnnotatedView> {
    values.map_values(|value: AnnotatedValue| value@)
}

proof fn lemma_annotated_push(values: Seq<AnnotatedValue>, value: AnnotatedValue)
    ensures
        annotated_view(values.push(value)) == annotated_view(values).push(value@),
{
    assert(annotated_view(values.push(value)) =~= annotated_view(values).push(value@));
}

fn copy_option(text: &Option<String>) -> (copy: Option<String>)
    ensures
        option_text(copy) == option_text(*text),
{
    match text {
        Some(text) => Some(text.clone()),
        None => None,
    }
}

/// Annotates the values of one layer.
fn annotate_layer(
    layer: &ConfigLayer,
    leaves: &Vec<(Vec<String>, ConfigValue)>,
    upper: &Vec<Vec<String>>,
) -> (values: Vec<AnnotatedValue>)
    ensures
        annotated_view(values@) == leaves_view(leaves@).map_values(
            |leaf: (Seq<Seq<char>>, ValueView)|
                AnnotatedView {
                    name: leaf.0,
                    value: leaf.1,
                    source: layer.source,
                    path: option_text(layer.path),
                    is_overridden: is_hidden(leaf.0, names_view(upper@)),
                },
        ),
{
    let ghost goal = leaves_view(leaves@).map_values(
        |leaf: (Seq<Seq<char>>, ValueView)|
            AnnotatedView {
                name: leaf.0,
                value: leaf.1,
                source: layer.source,
                path: option_text(layer.path),
                is_overridden: is_hidden(leaf.0, names_view(upper@)),
            },
    );
    let mut values: Vec<AnnotatedValue> = Vec::new();
    let mut i: usize = 0;
    assert(annotated_view(values@) =~= goal.take(0));
    while i < leaves.len()
        invariant
            i <= leaves@.len(),
            goal == leaves_view(leaves@).map_values(
                |leaf: (Seq<Seq<char>>, ValueView)|
                    AnnotatedView {
                        name: leaf.0,
                        value: leaf.1,
                        source: layer.source,
                        path: option_text(layer.path),
                        is_overridden: is_hidden(leaf.0, names_view(upper@)),
                    },
            ),
            annotated_view(values@) == goal.take(i as int),
        decreases leaves@.len() - i,
    {
        let value: AnnotatedValue = AnnotatedValue {
            name: copy_texts(&leaves[i].0),
            value: leaves[i].1.copy(),
            source: layer.source,
            path: copy_option(&layer.path),
            is_overridden: hidden_by(&leaves[i].0, upper),
        };
        proof {
            assert(goal[i as int] == value@);
            lemma_annotated_push(values@, value);
            assert(goal.take(i + 1) =~= goal.take(i as int).push(value@));
        }
        values.push(value);
        i += 1;
    }
    assert(goal.take(goal.len() as int) =~= goal);
    values
}

/// Adds the names of leaves to a list of names.
fn add_names(names: &mut Vec<Vec<String>>, leaves: &Vec<(Vec<String>, ConfigValue)>)
    ensures
        names_view(final(names)@) == names_view(old(names)@) + leaves_view(leaves@).map_values(
            |leaf: (Seq<Seq<char>>, ValueView)| leaf.0,
        ),
{
    let ghost before = names_view(names@);
    let ghost more = leaves_view(leaves@).map_values(
        |leaf: (Seq<Seq<char>>, ValueView)| leaf.0,
    );
    let mut i: usize = 0;
    assert(before + more.take(0) =~= before);
    while i < leaves.len()
        invariant
            i <= leaves@.len(),
            more == leaves_view(leaves@).map_values(
                |leaf: (Seq<Seq<char>>, ValueView)| leaf.0,
            ),
            names_view(names@) == before + more.take(i as int),
        decreases leaves@.len() - i,
    {
        let name: Vec<String> = copy_texts(&leaves[i].0);
        let ghost old_names = names@;
        names.push(name);
        proof {
            assert(names_view(names@) =~= names_view(old_names).push(texts(name@)));
            assert(more[i as int] == texts(name@));
            assert(names_view(names@) =~= before + more.take(i + 1));
        }
        i += 1;
    }
    assert(more.take(more.len() as int) =~= more);
}

/// Collects values under the given `filter_prefix` name recursively, from all
/// layers, the lowest layer first.
pub fn resolved_config_values(layers: &[ConfigLayer], filter_prefix: &Vec<String>) -> (values: Vec<
    AnnotatedValue,
>)
    ensures
        annotated_view(values@) == annotated_values(layers@, 0, texts(filter_prefix@)),
{
    let ghost prefix = texts(filter_prefix@);
    // Each layer is looked at after the layers above it, which may hide its
    // values.
    let mut upper: Vec<Vec<String>> = Vec::new();
    let mut per_layer: Vec<Vec<AnnotatedValue>> = Vec::new();
    let mut k: usize = layers.len();
    assert(names_view(upper@) =~= upper_names(layers@, k as int, prefix));
    while k > 0
        invariant
            k <= layers@.len(),
            prefix == texts(filter_prefix@),
            names_view(upper@) == upper_names(layers@, k as int, prefix),
            per_layer@.len() == layers@.len() - k,
            forall|j: int|
                0 <= j < per_layer@.len() ==> annotated_view((#[trigger] per_layer@[j])@)
                    == annotated_leaves(layers@, layers@.len() - 1 - j, prefix),
        decreases k,
    {
        k -= 1;
        let layer: &ConfigLayer = &layers[k];
        let mut leaves: Vec<(Vec<String>, ConfigValue)> = Vec::new();
        let ghost none = leaves_view(leaves@);
        assert(none =~= Seq::<(Seq<Seq<char>>, ValueView)>::empty());
        let mut hides_all: bool = false;
        match layer.look_up_item(filter_prefix) {
            LookUp::Item(item) => {
                collect_item(filter_prefix, item, &mut leaves);
                assert(none + item_leaves(prefix, *item) =~= item_leaves(prefix, *item));
            },
            LookUp::Top(entries) => {
                collect_entries(filter_prefix, entries, &mut leaves);
                assert(none + entries_leaves(prefix, entries@) =~= entries_leaves(
                    prefix,
                    entries@,
                ));
            },
            LookUp::Nothing => {},
            LookUp::NotTable(_) => {
                hides_all = true;
            },
        }
        assert(leaves_view(leaves@) == layer_leaves(*layer, prefix));
        let values: Vec<AnnotatedValue> = annotate_layer(layer, &leaves, &upper);
        assert(annotated_view(values@) =~= annotated_leaves(layers@, k as int, prefix));
        let ghost done = per_layer@;
        per_layer.push(values);
        let ghost upper_before = upper@;
        if hides_all {
            let name: Vec<String> = copy_texts(filter_prefix);
            upper.push(name);
            assert(names_view(upper@) =~= names_view(upper_before) + seq![prefix]);
        } else {
            add_names(&mut upper, &leaves);
        }
        proof {
            assert forall|j: int| 0 <= j < per_layer@.len() implies annotated_view(
                (#[trigger] per_layer@[j])@,
            ) == annotated_leaves(layers@, layers@.len() - 1 - j, prefix) by {
                if j < done.len() {
                    assert(per_layer@[j] == done[j]);
                }
            }
        }
    }
    let mut values: Vec<AnnotatedValue> = Vec::new();
    let ghost total = layers@.len();
    let ghost goal = annotated_values(layers@, 0, prefix);
    assert(annotated_view(values@) + goal =~= goal);
    while per_layer.len() > 0
        invariant
            total == layers@.len(),
            per_layer@.len() <= total,
            forall|j: int|
                0 <= j < per_layer@.len() ==> annotated_view((#[trigger] per_layer@[j])@)
                    == annotated_leaves(layers@, total - 1 - j, prefix),
            annotated_view(values@) + annotated_values(
                layers@,
                total - per_layer@.len(),
                prefix,
            ) == goal,
        decreases per_layer@.len(),
    {
        let ghost at = total - per_layer@.len();
        let ghost before = values@;
        let ghost lists = per_layer@;
        let mut list: Vec<AnnotatedValue> = per_layer.pop().unwrap();
        let ghost leaves = list@;
        assert(annotated_view(lists[lists.len() - 1]@) == annotated_leaves(layers@, at, prefix));
        values.append(&mut list);
        proof {
            assert(annotated_view(before + leaves) =~= annotated_view(before) + annotated_view(
                leaves,
            ));
            let rest = annotated_values(layers@, at + 1, prefix);
            assert((annotated_view(before) + annotated_view(leaves)) + rest =~= annotated_view(
                before,
            ) + (annotated_view(leaves) + rest));
            assert forall|j: int| 0 <= j < per_layer@.len() implies annotated_view(
                (#[trigger] per_layer@[j])@,
            ) == annotated_leaves(layers@, total - 1 - j, prefix) by {
                assert(per_layer@[j] == lists[j]);
            }
        }
    }
    assert(annotated_view(values@) + Seq::<AnnotatedView>::empty() =~= annotated_view(values@));
    values
}

/// The values of the uppermost layer are not overridden.
pub proof fn lemma_top_layer_visible(layers: Seq<ConfigLayer>, prefix: Seq<Seq<char>>, i: int)
    requires
        layers.len() > 0,
        0 <= i < annotated_leaves(layers, layers.len() - 1, prefix).len(),
    ensures
        !annotated_leaves(layers, layers.len() - 1, prefix)[i].is_overridden,
{
    assert(upper_names(layers, layers.len() as int, prefix) =~= Seq::<Seq<Seq<char>>>::empty());
}

proof fn lemma_upper_names(
    layers: Seq<ConfigLayer>,
    k: int,
    upper: int,
    prefix: Seq<Seq<char>>,
    name: Seq<Seq<char>>,
)
    requires
        0 <= k <= upper < layers.len(),
        hiding_names(layers[upper], prefix).contains(name),
    ensures
        upper_names(layers, k, prefix).contains(name),
    decreases upper - k,
{
    let above = upper_names(layers, k + 1, prefix);
    let own = hiding_names(layers[k], prefix);
    let all = upper_names(layers, k, prefix);
    if k == upper {
        let i = choose|i: int| 0 <= i < own.len() && own[i] == name;
        assert(all[above.len() + i] == name);
    } else {
        lemma_upper_names(layers, k + 1, upper, prefix, name);
        let i = choose|i: int| 0 <= i < above.len() && above[i] == name;
        assert(all[i] == name);
    }
}

/// A value that is not overridden has no value of an upper layer at its name,
/// below it, or above it.
pub proof fn lemma_visible_value(
    layers: Seq<ConfigLayer>,
    prefix: Seq<Seq<char>>,
    k: int,
    i: int,
    upper: int,
    j: int,
)
    requires
        0 <= k < upper < layers.len(),
        0 <= i < annotated_leaves(layers, k, prefix).len(),
        0 <= j < annotated_leaves(layers, upper, prefix).len(),
        !annotated_leaves(layers, k, prefix)[i].is_overridden,
    ensures
        !names_clash(
            annotated_leaves(layers, k, prefix)[i].name,
            annotated_leaves(layers, upper, prefix)[j].name,
        ),
{
    let name = annotated_leaves(layers, k, prefix)[i].name;
    let other = annotated_leaves(layers, upper, prefix)[j].name;
    let hiding = hiding_names(layers[upper], prefix);
    assert(layer_leaves(layers[upper], prefix)[j].0 == other);
    assert(hiding[j] == other);
    lemma_upper_names(layers, k + 1, upper, prefix, other);
    let all = upper_names(layers, k + 1, prefix);
    let m = choose|m: int| 0 <= m < all.len() && all[m] == other;
    assert(!names_clash(name, all[m]));
}

/// The item that is found under a key is the first one with that key.
pub proof fn lemma_find_entry(entries: Seq<(String, ConfigItem)>, key: Seq<char>)
    ensures
        match find_entry(entries, key) {
            Some(item) => exists|k: int|
                {
                    &&& 0 <= k < entries.len()
                    &&& (#[trigger] entries[k]).0@ == key
                    &&& entries[k].1 == item
                    &&& forall|j: int| 0 <= j < k ==> (#[trigger] entries[j]).0@ != key
                },
            None => forall|k: int| 0 <= k < entries.len() ==> (#[trigger] entries[k]).0@ != key,
        },
    decreases entries.len(),
{
    if entries.len() > 0 && entries[0].0@ != key {
        let rest = entries.drop_first();
        lemma_find_entry(rest, key);
        match find_entry(entries, key) {
            Some(item) => {
                let k = choose|k: int|
                    {
                        &&& 0 <= k < rest.len()
                        &&& (#[trigger] rest[k]).0@ == key
                        &&& rest[k].1 == item
                        &&& forall|j: int| 0 <= j < k ==> (#[trigger] rest[j]).0@ != key
                    };
                assert(entries[k + 1] == rest[k]);
                assert forall|j: int| 0 <= j < k + 1 implies (#[trigger] entries[j]).0@ != key by {
                    if j > 0 {
                        assert(rest[j - 1] == entries[j]);
                    }
                }
            },
            None => {
                assert forall|k: int| 0 <= k < entries.len() implies (
                #[trigger] entries[k]).0@ != key by {
                    if k > 0 {
                        assert(rest[k - 1] == entries[k]);
                    }
                }
            },
        }
    }
}

/// The value of an item that is no table.
pub open spec fn item_value(item: ConfigItem) -> ValueView {
    match item {
        ConfigItem::Value(value) => value@,
        ConfigItem::ArrayOfTables(text) => ValueView::Array(text@),
        ConfigItem::Table { .. } => arbitrary(),
    }
}

/// Whether a layer has an item that is no table at a name.
pub open spec fn has_value(entries: Seq<(String, ConfigItem)>, name: Seq<Seq<char>>) -> bool {
    look_up(entries, name) matches Found::Item(item) && !(item is Table)
}

/// The values of an item of a table are values of the table.
proof fn lemma_entry_leaves(
    name: Seq<Seq<char>>,
    entries: Seq<(String, ConfigItem)>,
    k: int,
    leaf: (Seq<Seq<char>>, ValueView),
)
    requires
        0 <= k < entries.len(),
        item_leaves(name.push(entries[k].0@), entries[k].1).contains(leaf),
    ensures
        entries_leaves(name, entries).contains(leaf),
    decreases entries.len(),
{
    let front = entries_leaves(name, entries.drop_last());
    let last = item_leaves(name.push(entries.last().0@), entries.last().1);
    let all = entries_leaves(name, entries);
    assert(all == front + last);
    if k == entries.len() - 1 {
        let i = choose|i: int| 0 <= i < last.len() && last[i] == leaf;
        assert(all[front.len() + i] == leaf);
    } else {
        assert(entries.drop_last()[k] == entries[k]);
        lemma_entry_leaves(name, entries.drop_last(), k, leaf);
        let i = choose|i: int| 0 <= i < front.len() && front[i] == leaf;
        assert(all[i] == leaf);
    }
}

/// What is found below a table is listed among the values of the table.
proof fn lemma_found_leaf(
    prefix: Seq<Seq<char>>,
    entries: Seq<(String, ConfigItem)>,
    name: Seq<Seq<char>>,
)
    requires
        name.len() > 0,
        has_value(entries, name),
    ensures
        entries_leaves(prefix, entries).contains(
            (prefix + name, item_value(look_up(entries, name)->Item_0)),
        ),
    decreases name.len(),
{
    let leaf = (prefix + name, item_value(look_up(entries, name)->Item_0));
    lemma_find_entry(entries, name[0]);
    let item = find_entry(entries, name[0])->Some_0;
    let k = choose|k: int|
        0 <= k < entries.len() && (#[trigger] entries[k]).0@ == name[0] && entries[k].1 == item;
    let below = prefix.push(name[0]);
    if name.len() == 1 {
        assert(prefix + name =~= below);
        assert(item_leaves(below, item) =~= seq![leaf]);
        assert(item_leaves(below, item)[0] == leaf);
    } else {
        let inner = item->Table_entries@;
        lemma_found_leaf(below, inner, name.skip(1));
        assert(below + name.skip(1) =~= prefix + name);
        assert(item_leaves(below, item) == entries_leaves(below, inner));
    }
    lemma_entry_leaves(prefix, entries, k, leaf);
}

/// A name leads below the table that its beginning leads to.
proof fn lemma_look_up_below(
    entries: Seq<(String, ConfigItem)>,
    start: Seq<Seq<char>>,
    rest: Seq<Seq<char>>,
)
    requires
        start.len() > 0,
        rest.len() > 0,
        look_up(entries, start + rest) is Item,
    ensures
        look_up(entries, start) matches Found::Item(item) && item is Table && look_up(
            entries,
            start + rest,
        ) == look_up(item->Table_entries@, rest),
    decreases start.len(),
{
    let name = start + rest;
    assert(name[0] == start[0]);
    let inner = find_entry(entries, name[0])->Some_0->Table_entries@;
    if start.len() == 1 {
        assert(name.skip(1) =~= rest);
    } else {
        assert(name.skip(1) =~= start.skip(1) + rest);
        lemma_look_up_below(inner, start.skip(1), rest);
    }
}

/// Every value of a layer is listed, with its name and the source of the layer,
/// if its name begins with the given one. It does not matter how the tables above
/// it are written.
pub proof fn lemma_every_value_listed(
    layers: Seq<ConfigLayer>,
    k: int,
    prefix: Seq<Seq<char>>,
    name: Seq<Seq<char>>,
)
    requires
        0 <= k < layers.len(),
        prefix.is_prefix_of(name),
        has_value(layers[k].entries@, name),
    ensures
        exists|i: int|
            {
                &&& 0 <= i < annotated_values(layers, 0, prefix).len()
                &&& (#[trigger] annotated_values(layers, 0, prefix)[i]).name == name
                &&& annotated_values(layers, 0, prefix)[i].value == item_value(
                    look_up(layers[k].entries@, name)->Item_0,
                )
                &&& annotated_values(layers, 0, prefix)[i].source == layers[k].source
                &&& annotated_values(layers, 0, prefix)[i].path == option_text(layers[k].path)
            },
{
    lemma_value_in_layer(layers[k], prefix, name);
    let leaf = (name, item_value(look_up(layers[k].entries@, name)->Item_0));
    let leaves = layer_leaves(layers[k], prefix);
    let j = choose|j: int| 0 <= j < leaves.len() && leaves[j] == leaf;
    let listed = annotated_values(layers, 0, prefix);
    let view = annotated_leaves(layers, k, prefix)[j];
    let i = lemma_listed(layers, 0, k, prefix, j);
    assert(listed[i] == view);
}

proof fn lemma_value_in_layer(
    layer: ConfigLayer,
    prefix: Seq<Seq<char>>,
    name: Seq<Seq<char>>,
)
    requires
        prefix.is_prefix_of(name),
        has_value(layer.entries@, name),
    ensures
        layer_leaves(layer, prefix).contains(
            (name, item_value(look_up(layer.entries@, name)->Item_0)),
        ),
{
    let entries = layer.entries@;
    let rest = name.skip(prefix.len() as int);
    let item = look_up(entries, name)->Item_0;
    assert(name =~= prefix + rest);
    if rest.len() == 0 {
        assert(prefix =~= name);
        assert(item_leaves(prefix, item) =~= seq![(name, item_value(item))]);
        assert(item_leaves(prefix, item)[0] == (name, item_value(item)));
    } else if prefix.len() == 0 {
        assert(rest =~= name);
        lemma_found_leaf(prefix, entries, name);
    } else {
        lemma_look_up_below(entries, prefix, rest);
        lemma_found_leaf(prefix, look_up(entries, prefix)->Item_0->Table_entries@, rest);
    }
}

/// The values of a layer are listed after those of lower layers.
proof fn lemma_listed(
    layers: Seq<ConfigLayer>,
    from: int,
    k: int,
    prefix: Seq<Seq<char>>,
    j: int,
) -> (i: int)
    requires
        0 <= from <= k < layers.len(),
        0 <= j < annotated_leaves(layers, k, prefix).len(),
    ensures
        0 <= i < annotated_values(layers, from, prefix).len(),
        annotated_values(layers, from, prefix)[i] == annotated_leaves(layers, k, prefix)[j],
    decreases k - from,
{
    let own = annotated_leaves(layers, from, prefix);
    if from == k {
        j
    } else {
        let i = lemma_listed(layers, from + 1, k, prefix, j);
        own.len() + i
    }
}

/// Whether no key occurs twice in a table, nor in the tables below it.
pub open spec fn has_unique_keys(entries: Seq<(String, ConfigItem)>) -> bool
    decreases entries,
{
    if entries.len() == 0 {
        true
    } else {
        &&& has_unique_keys(entries.drop_last())
        &&& forall|k: int|
            0 <= k < entries.len() - 1 ==> (#[trigger] entries[k]).0@ != entries.last().0@
        &&& match entries.last().1 {
            ConfigItem::Table { inline, entries } => has_unique_keys(entries@),
            _ => true,
        }
    }
}

/// What is listed of a table can be found in it.
proof fn lemma_leaf_found(
    prefix: Seq<Seq<char>>,
    entries: Seq<(String, ConfigItem)>,
    leaf: (Seq<Seq<char>>, ValueView),
)
    requires
        has_unique_keys(entries),
        entries_leaves(prefix, entries).contains(leaf),
    ensures
        prefix.is_prefix_of(leaf.0),
        leaf.0.len() > prefix.len(),
        has_value(entries, leaf.0.skip(prefix.len() as int)),
        item_value(look_up(entries, leaf.0.skip(prefix.len() as int))->Item_0) == leaf.1,
    decreases entries,
{
    let front_entries = entries.drop_last();
    let front = entries_leaves(prefix, front_entries);
    let (key, item) = entries.last();
    let below = prefix.push(key@);
    let last = item_leaves(below, item);
    let all = entries_leaves(prefix, entries);
    assert(all == front + last);
    let i = choose|i: int| 0 <= i < all.len() && all[i] == leaf;
    let rest = leaf.0.skip(prefix.len() as int);
    if i < front.len() {
        assert(front[i] == leaf);
        lemma_leaf_found(prefix, front_entries, leaf);
        lemma_find_front(entries, rest[0]);
    } else {
        assert(last[i - front.len()] == leaf);
        lemma_find_last(entries);
        match item {
            ConfigItem::Table { inline, entries: inner } => {
                assert(last == entries_leaves(below, inner@));
                lemma_leaf_found(below, inner@, leaf);
                assert(prefix =~= leaf.0.take(prefix.len() as int)) by {
                    assert(below == leaf.0.take(below.len() as int));
                    assert(prefix =~= below.take(prefix.len() as int));
                }
                assert(rest[0] == key@) by {
                    assert(below == leaf.0.take(below.len() as int));
                    assert(below[prefix.len() as int] == leaf.0[prefix.len() as int]);
                }
                assert(rest.skip(1) =~= leaf.0.skip(below.len() as int));
            },
            _ => {
                assert(last =~= seq![(below, item_value(item))]);
                assert(prefix =~= leaf.0.take(prefix.len() as int));
                assert(rest =~= seq![key@]);
            },
        }
    }
}

/// A key that is found among all but the last item is found among all.
proof fn lemma_find_front(entries: Seq<(String, ConfigItem)>, key: Seq<char>)
    requires
        entries.len() > 0,
        find_entry(entries.drop_last(), key) is Some,
    ensures
        find_entry(entries, key) == find_entry(entries.drop_last(), key),
    decreases entries.len(),
{
    let front = entries.drop_last();
    assert(front.len() > 0);
    assert(front[0] == entries[0]);
    if entries[0].0@ != key {
        assert(entries.drop_first().drop_last() =~= front.drop_first());
        lemma_find_front(entries.drop_first(), key);
    }
}

/// The last item is found, if no other has its key.
proof fn lemma_find_last(entries: Seq<(String, ConfigItem)>)
    requires
        entries.len() > 0,
        forall|k: int|
            0 <= k < entries.len() - 1 ==> (#[trigger] entries[k]).0@ != entries.last().0@,
    ensures
        find_entry(entries, entries.last().0@) == Some(entries.last().1),
{
    let key = entries.last().0@;
    lemma_find_entry(entries, key);
    assert(entries[entries.len() - 1].0@ == key);
}

/// Nothing else is listed: every value that is listed for a layer is found in
/// the layer at its name, which begins with the given one.
pub proof fn lemma_only_values_listed(
    layers: Seq<ConfigLayer>,
    k: int,
    prefix: Seq<Seq<char>>,
    i: int,
)
    requires
        0 <= k < layers.len(),
        has_unique_keys(layers[k].entries@),
        0 <= i < annotated_leaves(layers, k, prefix).len(),
    ensures
        prefix.is_prefix_of(annotated_leaves(layers, k, prefix)[i].name),
        has_value(layers[k].entries@, annotated_leaves(layers, k, prefix)[i].name),
        annotated_leaves(layers, k, prefix)[i].value == item_value(
            look_up(layers[k].entries@, annotated_leaves(layers, k, prefix)[i].name)->Item_0,
        ),
        annotated_leaves(layers, k, prefix)[i].source == layers[k].source,
        annotated_leaves(layers, k, prefix)[i].path == option_text(layers[k].path),
{
    let leaf = layer_leaves(layers[k], prefix)[i];
    assert(layer_leaves(layers[k], prefix).contains(leaf));
    lemma_layer_leaf_found(layers[k], prefix, leaf);
}

proof fn lemma_layer_leaf_found(
    layer: ConfigLayer,
    prefix: Seq<Seq<char>>,
    leaf: (Seq<Seq<char>>, ValueView),
)
    requires
        has_unique_keys(layer.entries@),
        layer_leaves(layer, prefix).contains(leaf),
    ensures
        prefix.is_prefix_of(leaf.0),
        has_value(layer.entries@, leaf.0),
        item_value(look_up(layer.entries@, leaf.0)->Item_0) == leaf.1,
{
    let entries = layer.entries@;
    match look_up(entries, prefix) {
        Found::Item(item) => match item {
            ConfigItem::Table { inline, entries: inner } => {
                lemma_unique_below(entries, prefix);
                lemma_leaf_found(prefix, inner@, leaf);
                let rest = leaf.0.skip(prefix.len() as int);
                assert(leaf.0 =~= prefix + rest);
                lemma_look_up_through(entries, prefix, rest);
            },
            _ => {
                assert(item_leaves(prefix, item) =~= seq![(prefix, item_value(item))]);
                assert(leaf == (prefix, item_value(item)));
                assert(prefix =~= leaf.0.take(prefix.len() as int));
            },
        },
        Found::Top(top) => {
            if prefix.len() > 0 {
                lemma_top_is_unnamed(entries, prefix);
            }
            lemma_leaf_found(prefix, top, leaf);
            assert(leaf.0.skip(prefix.len() as int) =~= leaf.0);
        },
        _ => {},
    }
}

/// Only the empty name leads to the items at the top.
proof fn lemma_top_is_unnamed(entries: Seq<(String, ConfigItem)>, name: Seq<Seq<char>>)
    requires
        name.len() > 0,
    ensures
        !(look_up(entries, name) is Top),
    decreases name.len(),
{
    if name.len() > 1 {
        match find_entry(entries, name[0]) {
            Some(ConfigItem::Table { inline, entries: inner }) => {
                lemma_top_is_unnamed(inner@, name.skip(1));
            },
            _ => {},
        }
    }
}

/// A name leads through the table that its beginning leads to.
proof fn lemma_look_up_through(
    entries: Seq<(String, ConfigItem)>,
    start: Seq<Seq<char>>,
    rest: Seq<Seq<char>>,
)
    requires
        start.len() > 0,
        rest.len() > 0,
        look_up(entries, start) matches Found::Item(item) && item is Table,
    ensures
        look_up(entries, start + rest) == look_up(
            look_up(entries, start)->Item_0->Table_entries@,
            rest,
        ),
    decreases start.len(),
{
    let name = start + rest;
    assert(name[0] == start[0]);
    if start.len() == 1 {
        assert(name.skip(1) =~= rest);
    } else {
        assert(name.skip(1) =~= start.skip(1) + rest);
        lemma_look_up_through(
            find_entry(entries, name[0])->Some_0->Table_entries@,
            start.skip(1),
            rest,
        );
    }
}

/// The tables below a table with unique keys have unique keys.
proof fn lemma_unique_below(entries: Seq<(String, ConfigItem)>, name: Seq<Seq<char>>)
    requires
        has_unique_keys(entries),
        name.len() > 0,
        look_up(entries, name) matches Found::Item(item) && item is Table,
    ensures
        has_unique_keys(look_up(entries, name)->Item_0->Table_entries@),
    decreases name.len(),
{
    lemma_find_entry(entries, name[0]);
    let item = find_entry(entries, name[0])->Some_0;
    let k = choose|k: int|
        0 <= k < entries.len() && (#[trigger] entries[k]).0@ == name[0] && entries[k].1 == item;
    lemma_unique_entry(entries, k);
    if name.len() > 1 {
        lemma_unique_below(item->Table_entries@, name.skip(1));
    }
}

proof fn lemma_unique_entry(entries: Seq<(String, ConfigItem)>, k: int)
    requires
        has_unique_keys(entries),
        0 <= k < entries.len(),
        entries[k].1 is Table,
    ensures
        has_unique_keys(entries[k].1->Table_entries@),
    decreases entries.len(),
{
    if k < entries.len() - 1 {
        assert(entries.drop_last()[k] == entries[k]);
        lemma_unique_entry(entries.drop_last(), k);
    }
}

/// Whether a layer hides a value of a lower layer that is listed under `prefix`:
/// it has a value at the same name, below it, or above it.
pub open spec fn hides(layer: ConfigLayer, prefix: Seq<Seq<char>>, name: Seq<Seq<char>>) -> bool {
    ||| look_up(layer.entries@, prefix) is NotTable
    ||| exists|other: Seq<Seq<char>>| #[trigger]
        has_value(layer.entries@, other) && prefix.is_prefix_of(other) && (name.is_prefix_of(other)
            || other.is_prefix_of(name))
}

/// A value is overridden if, and only if, an upper layer has a value at its
/// name, below it, or above it.
pub proof fn lemma_overridden(
    layers: Seq<ConfigLayer>,
    k: int,
    prefix: Seq<Seq<char>>,
    i: int,
)
    requires
        0 <= k < layers.len(),
        forall|u: int|
            0 <= u < layers.len() ==> has_unique_keys((#[trigger] layers[u]).entries@),
        0 <= i < annotated_leaves(layers, k, prefix).len(),
    ensures
        annotated_leaves(layers, k, prefix)[i].is_overridden <==> exists|u: int|
            k < u < layers.len() && hides(
                #[trigger] layers[u],
                prefix,
                annotated_leaves(layers, k, prefix)[i].name,
            ),
{
    let name = annotated_leaves(layers, k, prefix)[i].name;
    let upper = upper_names(layers, k + 1, prefix);
    lemma_only_values_listed(layers, k, prefix, i);
    if is_hidden(name, upper) {
        let m = choose|m: int| 0 <= m < upper.len() && names_clash(name, #[trigger] upper[m]);
        let u = lemma_upper_owner(layers, k + 1, prefix, m);
        let own = hiding_names(layers[u], prefix);
        let other = upper[m];
        if !(look_up(layers[u].entries@, prefix) is NotTable) {
            let leaves = layer_leaves(layers[u], prefix);
            let j = choose|j: int| 0 <= j < own.len() && own[j] == other;
            assert(leaves[j].0 == other);
            assert(leaves.contains(leaves[j]));
            lemma_layer_leaf_found(layers[u], prefix, leaves[j]);
            assert(has_value(layers[u].entries@, other));
        }
        assert(hides(layers[u], prefix, name));
    }
    if exists|u: int| k < u < layers.len() && hides(#[trigger] layers[u], prefix, name) {
        let u = choose|u: int| k < u < layers.len() && hides(#[trigger] layers[u], prefix, name);
        let own = hiding_names(layers[u], prefix);
        let other = if look_up(layers[u].entries@, prefix) is NotTable {
            prefix
        } else {
            choose|other: Seq<Seq<char>>| #[trigger]
                has_value(layers[u].entries@, other) && prefix.is_prefix_of(other) && (
                name.is_prefix_of(other) || other.is_prefix_of(name))
        };
        if look_up(layers[u].entries@, prefix) is NotTable {
            assert(own[0] == prefix);
        } else {
            lemma_value_in_layer(layers[u], prefix, other);
            let leaves = layer_leaves(layers[u], prefix);
            let leaf = (other, item_value(look_up(layers[u].entries@, other)->Item_0));
            let j = choose|j: int| 0 <= j < leaves.len() && leaves[j] == leaf;
            assert(own[j] == other);
        }
        assert(own.contains(other));
        lemma_upper_names(layers, k + 1, u, prefix, other);
        let m = choose|m: int| 0 <= m < upper.len() && upper[m] == other;
        assert(names_clash(name, upper[m]));
    }
}

/// A name that hides is one of some upper layer.
proof fn lemma_upper_owner(
    layers: Seq<ConfigLayer>,
    k: int,
    prefix: Seq<Seq<char>>,
    m: int,
) -> (u: int)
    requires
        0 <= k,
        0 <= m < upper_names(layers, k, prefix).len(),
    ensures
        k <= u < layers.len(),
        hiding_names(layers[u], prefix).contains(upper_names(layers, k, prefix)[m]),
    decreases layers.len() - k,
{
    let above = upper_names(layers, k + 1, prefix);
    let own = hiding_names(layers[k], prefix);
    if m < above.len() {
        lemma_upper_owner(layers, k + 1, prefix, m)
    } else {
        assert(own[m - above.len()] == upper_names(layers, k, prefix)[m]);
        k
    }
}

/// Whether the values of the layer at `from + k` are those that are listed, from
/// the layer at `from` on, between two places.
pub open spec fn is_placed(
    layers: Seq<ConfigLayer>,
    from: int,
    prefix: Seq<Seq<char>>,
    places: Seq<int>,
    k: int,
) -> bool {
    let listed = annotated_values(layers, from, prefix);
    &&& 0 <= places[k] <= places[k + 1] <= listed.len()
    &&& listed.subrange(places[k], places[k + 1]) == annotated_leaves(layers, from + k, prefix)
}

/// The values of a lower layer are listed before those of an upper one: there
/// is a place for the values of each layer, one after the other.
pub proof fn lemma_lowest_layer_first(layers: Seq<ConfigLayer>, prefix: Seq<Seq<char>>) -> (places:
    Seq<int>)
    ensures
        places.len() == layers.len() + 1,
        places[0] == 0,
        places.last() == annotated_values(layers, 0, prefix).len(),
        forall|k: int|
            0 <= k < layers.len() ==> #[trigger] is_placed(layers, 0, prefix, places, k),
{
    lemma_places(layers, 0, prefix)
}

proof fn lemma_places(layers: Seq<ConfigLayer>, from: int, prefix: Seq<Seq<char>>) -> (places: Seq<
    int,
>)
    requires
        0 <= from <= layers.len(),
    ensures
        places.len() == layers.len() - from + 1,
        places[0] == 0,
        places.last() == annotated_values(layers, from, prefix).len(),
        forall|k: int|
            0 <= k < layers.len() - from ==> #[trigger] is_placed(layers, from, prefix, places, k),
    decreases layers.len() - from,
{
    if from == layers.len() {
        seq![0int]
    } else {
        let own = annotated_leaves(layers, from, prefix);
        let rest = lemma_places(layers, from + 1, prefix);
        let above = annotated_values(layers, from + 1, prefix);
        let all = annotated_values(layers, from, prefix);
        let places = Seq::new(
            rest.len() + 1,
            |k: int|
                if k == 0 {
                    0
                } else {
                    own.len() + rest[k - 1]
                },
        );
        assert(all == own + above);
        assert forall|k: int| 0 <= k < layers.len() - from implies #[trigger] is_placed(
            layers,
            from,
            prefix,
            places,
            k,
        ) by {
            if k == 0 {
                assert(all.subrange(0, own.len() as int) =~= own);
            } else {
                assert(is_placed(layers, from + 1, prefix, rest, k - 1));
                let start = rest[k - 1];
                let end = rest[k];
                assert(all.subrange(own.len() + start, own.len() + end) =~= above.subrange(
                    start,
                    end,
                ));
            }
        }
        places
    }
}

/// An error reading a configuration variable.
#[derive(Debug)]
pub enum ConfigGetError {
    /// The variable has another type than was expected.
    Type {
        /// The name of the variable.
        name: String,
        /// What is wrong.
        error: String,
        /// The file that sets the variable.
        source_path: Option<String>,
    },
}

impl ConfigItem {
    /// The name of the type of the item.
    pub open spec fn kind_text(&self) -> Seq<char> {
        match *self {
            ConfigItem::Value(value) => value.kind_text(),
            ConfigItem::ArrayOfTables(_) => "array of tables"@,
            ConfigItem::Table { inline, .. } => if inline {
                "inline table"@
            } else {
                "table"@
            },
        }
    }

    /// Returns the name of the type of the item.
    pub fn kind(&self) -> (name: &'static str)
        ensures
            name@ == self.kind_text(),
    {
        match self {
            ConfigItem::Value(value) => value.kind(),
            ConfigItem::ArrayOfTables(_) => "array of tables",
            ConfigItem::Table { inline, .. } => if *inline {
                "inline table"
            } else {
                "table"
            },
        }
    }

    /// The text of an item that is a string.
    pub open spec fn text_value(&self) -> Option<Seq<char>> {
        match *self {
            ConfigItem::Value(value) => match value@ {
                ValueView::Text(text) => Some(text),
                _ => None,
            },
            _ => None,
        }
    }

    fn as_text(&self) -> (text: Option<String>)
        ensures
            option_text(text) == self.text_value(),
    {
        match self {
            ConfigItem::Value(ConfigValue::Text(text)) => Some(text.clone()),
            _ => None,
        }
    }
}

/// The text of an optional item that is a string.
pub open spec fn entry_text(item: Option<ConfigItem>) -> Option<Seq<char>> {
    match item {
        Some(item) => item.text_value(),
        None => None,
    }
}

/// An alias that is to be defined.
#[derive(Debug)]
pub struct AliasDefinition {
    /// The declaration of the alias.
    pub decl: String,
    /// The definition and the documentation of the alias, or what is wrong with
    /// it.
    pub definition: Result<(String, Option<String>), String>,
}

/// What can be seen of an alias.
pub struct AliasView {
    /// The declaration of the alias.
    pub decl: Seq<char>,
    /// The definition and the documentation of the alias, or what is wrong with
    /// it.
    pub definition: Result<(Seq<char>, Option<Seq<char>>), Seq<char>>,
}

impl View for AliasDefinition {
    type V = AliasView;

    open spec fn view(&self) -> AliasView {
        AliasView {
            decl: self.decl@,
            definition: match self.definition {
                Ok((definition, doc)) => Ok((definition@, option_text(doc))),
                Err(message) => Err(message@),
            },
        }
    }
}

/// The definition and the documentation of an alias: a string, or the strings
/// in a table.
pub open spec fn alias_parts(item: ConfigItem) -> (Option<Seq<char>>, Option<Seq<char>>) {
    match item {
        ConfigItem::Table { inline, entries } => (
            entry_text(find_entry(entries@, "definition"@)),
            entry_text(find_entry(entries@, "doc"@)),
        ),
        _ => (item.text_value(), None),
    }
}

/// The alias that an entry of a table defines.
pub open spec fn alias_of(decl: Seq<char>, item: ConfigItem) -> AliasView {
    let (definition, doc) = alias_parts(item);
    AliasView {
        decl,
        definition: match definition {
            Some(definition) => Ok((definition, doc)),
            None => Err(
                "Expected a string or a table with a `definition` string key, but is "@
                    + item.kind_text(),
            ),
        },
    }
}

/// The aliases that the entries of a table define.
pub open spec fn aliases_of(entries: Seq<(String, ConfigItem)>) -> Seq<AliasView> {
    entries.map_values(|entry: (String, ConfigItem)| alias_of(entry.0@, entry.1))
}

/// The table at a name of a layer: its entries, none, or the item that is no
/// table.
pub open spec fn look_up_table_at(layer: ConfigLayer, name: Seq<Seq<char>>) -> Result<
    Option<Seq<(String, ConfigItem)>>,
    ConfigItem,
> {
    match look_up(layer.entries@, name) {
        Found::Top(entries) => Ok(Some(entries)),
        Found::Nothing => Ok(None),
        Found::NotTable(item) => Err(item),
        Found::Item(item) => match item {
            ConfigItem::Table { inline, entries } => Ok(Some(entries@)),
            _ => Err(item),
        },
    }
}

/// The aliases that the first `n` layers define, as long as no layer has
/// something else than a table at the name.
pub open spec fn layers_aliases(layers: Seq<ConfigLayer>, n: int, name: Seq<Seq<char>>) -> Seq<
    AliasView,
>
    decreases n,
{
    if n <= 0 {
        Seq::empty()
    } else {
        layers_aliases(layers, n - 1, name) + (match look_up_table_at(layers[n - 1], name) {
            Ok(Some(entries)) => aliases_of(entries),
            _ => Seq::empty(),
        })
    }
}

/// What can be seen of aliases.
pub open spec fn aliases_view(aliases: Seq<AliasDefinition>) -> Seq<AliasView> {
    aliases.map_values(|alias: AliasDefinition| alias@)
}

fn alias_definition(decl: &String, item: &ConfigItem) -> (alias: AliasDefinition)
    ensures
        alias@ == alias_of(decl@, *item),
{
    let (definition, doc): (Option<String>, Option<String>) = match item {
        ConfigItem::Table { inline: _, entries } => {
            let definition_key: String = "definition".to_owned();
            let doc_key: String = "doc".to_owned();
            let definition: Option<String> = match find_in(entries, &definition_key) {
                Some(item) => item.as_text(),
                None => None,
            };
            let doc: Option<String> = match find_in(entries, &doc_key) {
                Some(item) => item.as_text(),
                None => None,
            };
            (definition, doc)
        },
        _ => (item.as_text(), None),
    };
    AliasDefinition {
        decl: decl.clone(),
        definition: match definition {
            Some(definition) => Ok((definition, doc)),
            None => Err(
                concat(
                    "Expected a string or a table with a `definition` string key, but is ",
                    item.kind(),
                ),
            ),
        },
    }
}

/// Loads aliases from a table in all layers, the lowest layer first, so that a
/// definition in an upper layer can replace one in a lower layer. Fails if a
/// layer has something else than a table there. `table_name_text` is the name
/// of the table in words.
pub fn load_aliases_map(
    layers: &[ConfigLayer],
    table_name: &Vec<String>,
    table_name_text: &str,
) -> (aliases: Result<Vec<AliasDefinition>, ConfigGetError>)
    ensures
        aliases is Err <==> exists|k: int|
            0 <= k < layers@.len() && look_up_table_at(
                #[trigger] layers@[k],
                texts(table_name@),
            ) is Err,
        aliases matches Ok(list) ==> aliases_view(list@) == layers_aliases(
            layers@,
            layers@.len() as int,
            texts(table_name@),
        ),
        aliases matches Err(ConfigGetError::Type { name, error, source_path }) ==> name@
            == table_name_text@ && exists|k: int|
            #![trigger layers@[k]]
            {
                &&& 0 <= k < layers@.len()
                &&& look_up_table_at(layers@[k], texts(table_name@)) is Err
                &&& forall|j: int|
                    0 <= j < k ==> look_up_table_at(#[trigger] layers@[j], texts(table_name@)) is Ok
                &&& error@ == "Expected a table, but is "@ + look_up_table_at(
                    layers@[k],
                    texts(table_name@),
                )->Err_0.kind_text()
                &&& option_text(source_path) == option_text(layers@[k].path)
            },
{
    let ghost name = texts(table_name@);
    let mut aliases: Vec<AliasDefinition> = Vec::new();
    let mut k: usize = 0;
    assert(aliases_view(aliases@) =~= layers_aliases(layers@, 0, name));
    while k < layers.len()
        invariant
            k <= layers@.len(),
            name == texts(table_name@),
            forall|j: int|
                0 <= j < k ==> look_up_table_at(#[trigger] layers@[j], name) is Ok,
            aliases_view(aliases@) == layers_aliases(layers@, k as int, name),
        decreases layers@.len() - k,
    {
        let layer: &ConfigLayer = &layers[k];
        let entries: Option<&Vec<(String, ConfigItem)>> = match layer.look_up_item(table_name) {
            LookUp::Top(entries) => Some(entries),
            LookUp::Nothing => None,
            LookUp::Item(ConfigItem::Table { inline: _, entries }) => Some(entries),
            LookUp::Item(item) | LookUp::NotTable(item) => {
                assert(look_up_table_at(layers@[k as int], name) is Err);
                return Err(
                    ConfigGetError::Type {
                        name: table_name_text.to_owned(),
                        error: concat("Expected a table, but is ", item.kind()),
                        source_path: copy_option(&layer.path),
                    },
                );
            },
        };
        let ghost before = aliases_view(aliases@);
        if let Some(entries) = entries {
            let ghost more = aliases_of(entries@);
            let mut i: usize = 0;
            assert(before + more.take(0) =~= before);
            while i < entries.len()
                invariant
                    i <= entries@.len(),
                    more == aliases_of(entries@),
                    aliases_view(aliases@) == before + more.take(i as int),
                decreases entries@.len() - i,
            {
                let alias: AliasDefinition = alias_definition(&entries[i].0, &entries[i].1);
                let ghost old_aliases = aliases@;
                let ghost view = alias@;
                aliases.push(alias);
                proof {
                    assert(aliases_view(aliases@) =~= aliases_view(old_aliases).push(view));
                    assert(more[i as int] == view);
                    assert(aliases_view(aliases@) =~= before + more.take(i + 1));
                }
                i += 1;
            }
            assert(more.take(more.len() as int) =~= more);
        } else {
            assert(before + Seq::<AliasView>::empty() =~= before);
        }
        k += 1;
    }
    Ok(aliases)
}

/// Says that an alias could not be loaded.
pub fn alias_warning(table_name_text: &str, decl: &str, message: &str) -> (warning: String)
    ensures
        warning@ == "Failed to load `"@ + table_name_text@ + "."@ + decl@ + "`: "@ + message@,
{
    let mut warning: String = "Failed to load `".to_owned();
    warning.append(table_name_text);
    warning.append(".");
    warning.append(decl);
    warning.append("`: ");
    warning.append(message);
    warning
}

/// An alias is defined by a string, or by a table with a string for its
/// definition, and one for its documentation if there is one. Anything else
/// defines none.
pub proof fn lemma_alias(decl: Seq<char>, item: ConfigItem)
    ensures
        alias_of(decl, item).decl == decl,
        item matches ConfigItem::Value(ConfigValue::Text(text)) ==> alias_of(
            decl,
            item,
        ).definition == Ok::<(Seq<char>, Option<Seq<char>>), Seq<char>>((text@, None)),
        item is Value && !(item->Value_0 is Text) || item is ArrayOfTables ==> alias_of(
            decl,
            item,
        ).definition is Err,
        item matches ConfigItem::Table { inline: _, entries } ==> {
            let definition = find_entry(entries@, "definition"@);
            let doc = find_entry(entries@, "doc"@);
            match definition {
                Some(ConfigItem::Value(ConfigValue::Text(text))) => alias_of(
                    decl,
                    item,
                ).definition is Ok && alias_of(decl, item).definition->Ok_0.0 == text@ && alias_of(
                    decl,
                    item,
                ).definition->Ok_0.1 == (match doc {
                    Some(ConfigItem::Value(ConfigValue::Text(text))) => Some(text@),
                    _ => None,
                }),
                _ => alias_of(decl, item).definition is Err,
            }
        },
{
}

/// Every alias of every layer that has a table there is given, the lower layers
/// first, and those of a layer in the order of its table.
pub proof fn lemma_aliases_in_order(
    layers: Seq<ConfigLayer>,
    n: int,
    k: int,
    name: Seq<Seq<char>>,
) -> (after: Seq<AliasView>)
    requires
        0 <= k < n <= layers.len(),
    ensures
        match look_up_table_at(layers[k], name) {
            Ok(Some(entries)) => layers_aliases(layers, n, name) == layers_aliases(layers, k, name)
                + Seq::new(entries.len(), |i: int| alias_of(entries[i].0@, entries[i].1)) + after,
            _ => layers_aliases(layers, n, name) == layers_aliases(layers, k, name) + after,
        },
    decreases n - k,
{
    let all = layers_aliases(layers, n, name);
    let before = layers_aliases(layers, k, name);
    let none = Seq::<AliasView>::empty();
    if n == k + 1 {
        match look_up_table_at(layers[k], name) {
            Ok(Some(entries)) => {
                let own = Seq::new(entries.len(), |i: int| alias_of(entries[i].0@, entries[i].1));
                assert(aliases_of(entries) =~= own);
                assert(all =~= before + own + none);
            },
            _ => {
                assert(all =~= before + none);
            },
        }
        none
    } else {
        let part = lemma_aliases_in_order(layers, n - 1, k, name);
        let last = match look_up_table_at(layers[n - 1], name) {
            Ok(Some(entries)) => aliases_of(entries),
            _ => none,
        };
        let after = part + last;
        match look_up_table_at(layers[k], name) {
            Ok(Some(entries)) => {
                let own = Seq::new(entries.len(), |i: int| alias_of(entries[i].0@, entries[i].1));
                assert(all =~= before + own + after);
            },
            _ => {
                assert(all =~= before + after);
            },
        }
        after
    }
}

/// The values of a table come in the order of its keys.
pub proof fn lemma_leaves_in_order(
    name: Seq<Seq<char>>,
    a: Seq<(String, ConfigItem)>,
    b: Seq<(String, ConfigItem)>,
)
    ensures
        entries_leaves(name, a + b) == entries_leaves(name, a) + entries_leaves(name, b),
    decreases b.len(),
{
    if b.len() == 0 {
        assert(a + b =~= a);
        assert(entries_leaves(name, a) + entries_leaves(name, b) =~= entries_leaves(name, a));
    } else {
        assert((a + b).drop_last() =~= a + b.drop_last());
        assert((a + b).last() == b.last());
        lemma_leaves_in_order(name, a, b.drop_last());
        assert(entries_leaves(name, a + b) =~= entries_leaves(name, a) + entries_leaves(name, b));
    }
}

} // verus!
