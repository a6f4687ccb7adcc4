//! Configuration as a stack of layers.

use vstd::prelude::*;

use crate::config_layers::ConfigLayer;
use crate::config_layers::ConfigSource;

verus! {

/// The place of a source in the order of precedence. Sources from the lowest
/// precedence:
/// default values, system config, base environment variables, user configs,
/// repo config, workspace config, override environment variables, command-line
/// arguments.
pub open spec fn precedence(source: ConfigSource) -> int {
    match source {
        ConfigSource::Default => 0,
        ConfigSource::System => 1,
        ConfigSource::EnvBase => 2,
        ConfigSource::User => 3,
        ConfigSource::Repo => 4,
        ConfigSource::Workspace => 5,
        ConfigSource::EnvOverrides => 6,
        ConfigSource::CommandArg => 7,
    }
}

fn precedence_of(source: ConfigSource) -> (place: u8)
    ensures
        place == precedence(source),
{
    match source {
        ConfigSource::Default => 0,
        ConfigSource::System => 1,
        ConfigSource::EnvBase => 2,
        ConfigSource::User => 3,
        ConfigSource::Repo => 4,
        ConfigSource::Workspace => 5,
        ConfigSource::EnvOverrides => 6,
        ConfigSource::CommandArg => 7,
    }
}

/// Whether no layer lies on one of higher precedence.
pub open spec fn is_ordered(layers: Seq<ConfigLayer>) -> bool {
    forall|i: int, j: int|
        0 <= i < j < layers.len() ==> precedence((#[trigger] layers[i]).source) <= precedence(
            (#[trigger] layers[j]).source,
        )
}

/// The layers of a source, in order.
pub open spec fn layers_for(layers: Seq<ConfigLayer>, source: ConfigSource) -> Seq<ConfigLayer>
    decreases layers.len(),
{
    if layers.len() == 0 {
        Seq::empty()
    } else {
        let front = layers_for(layers.drop_last(), source);
        if layers.last().source == source {
            front.push(layers.last())
        } else {
            front
        }
    }
}

/// The layers of all other sources, in order.
pub open spec fn layers_without(layers: Seq<ConfigLayer>, source: ConfigSource) -> Seq<ConfigLayer>
    decreases layers.len(),
{
    if layers.len() == 0 {
        Seq::empty()
    } else {
        let front = layers_without(layers.drop_last(), source);
        if layers.last().source == source {
            front
        } else {
            front.push(layers.last())
        }
    }
}

/// Whether all layers are of the source.
pub open spec fn all_of(layers: Seq<ConfigLayer>, source: ConfigSource) -> bool {
    forall|i: int| 0 <= i < layers.len() ==> (#[trigger] layers[i]).source == source
}

/// The place above all layers that a layer of the source does not go below.
pub open spec fn insert_point(layers: Seq<ConfigLayer>, source: ConfigSource) -> nat
    decreases layers.len(),
{
    if layers.len() > 0 && precedence(layers.last().source) > precedence(source) {
        insert_point(layers.drop_last(), source)
    } else {
        layers.len()
    }
}

/// The layers with another one on top of those of the same or of a lower
/// precedence.
pub open spec fn with_layer(layers: Seq<ConfigLayer>, layer: ConfigLayer) -> Seq<ConfigLayer> {
    layers.insert(insert_point(layers, layer.source) as int, layer)
}

proof fn lemma_insert_point(layers: Seq<ConfigLayer>, source: ConfigSource)
    requires
        is_ordered(layers),
    ensures
        insert_point(layers, source) <= layers.len(),
        forall|i: int|
            0 <= i < insert_point(layers, source) ==> precedence((#[trigger] layers[i]).source)
                <= precedence(source),
        forall|i: int|
            insert_point(layers, source) <= i < layers.len() ==> precedence(
                (#[trigger] layers[i]).source,
            ) > precedence(source),
    decreases layers.len(),
{
    if layers.len() > 0 && precedence(layers.last().source) > precedence(source) {
        let front = layers.drop_last();
        assert(forall|i: int| 0 <= i < front.len() ==> front[i] == #[trigger] layers[i]);
        lemma_insert_point(front, source);
    } else if layers.len() > 0 {
        let last = layers.len() - 1;
        assert forall|i: int| 0 <= i < layers.len() implies precedence(
            (#[trigger] layers[i]).source,
        ) <= precedence(source) by {
            if i < last {
                assert(precedence(layers[i].source) <= precedence(layers[last].source));
            }
        }
    }
}

proof fn lemma_concat(a: Seq<ConfigLayer>, b: Seq<ConfigLayer>, source: ConfigSource)
    ensures
        layers_for(a + b, source) == layers_for(a, source) + layers_for(b, source),
        layers_without(a + b, source) == layers_without(a, source) + layers_without(b, source),
    decreases b.len(),
{
    if b.len() == 0 {
        assert(a + b =~= a);
    } else {
        assert((a + b).drop_last() =~= a + b.drop_last());
        lemma_concat(a, b.drop_last(), source);
    }
}

proof fn lemma_no_layer(layers: Seq<ConfigLayer>, source: ConfigSource)
    requires
        forall|i: int| 0 <= i < layers.len() ==> (#[trigger] layers[i]).source != source,
    ensures
        layers_for(layers, source).len() == 0,
        layers_without(layers, source) == layers,
    decreases layers.len(),
{
    if layers.len() > 0 {
        let front = layers.drop_last();
        assert(forall|i: int| 0 <= i < front.len() ==> front[i] == #[trigger] layers[i]);
        lemma_no_layer(front, source);
        assert(front.push(layers.last()) =~= layers);
    } else {
        assert(layers =~= Seq::empty());
    }
}

proof fn lemma_with_layer(layers: Seq<ConfigLayer>, layer: ConfigLayer)
    requires
        is_ordered(layers),
    ensures
        is_ordered(with_layer(layers, layer)),
        layers_for(with_layer(layers, layer), layer.source) == layers_for(
            layers,
            layer.source,
        ).push(layer),
        layers_without(with_layer(layers, layer), layer.source) == layers_without(
            layers,
            layer.source,
        ),
{
    let source = layer.source;
    let p = insert_point(layers, source) as int;
    lemma_insert_point(layers, source);
    let head = layers.take(p);
    let tail = layers.skip(p);
    let one = seq![layer];
    assert(layers =~= head + tail);
    assert(with_layer(layers, layer) =~= (head + one) + tail);
    assert forall|i: int| 0 <= i < tail.len() implies (#[trigger] tail[i]).source != source by {
        assert(tail[i] == layers[p + i]);
    }
    lemma_no_layer(tail, source);
    lemma_concat(head, tail, source);
    lemma_concat(head + one, tail, source);
    lemma_concat(head, one, source);
    assert(layers_for(one.drop_last(), source) =~= Seq::empty());
    assert(layers_without(one.drop_last(), source) =~= Seq::empty());
    assert(layers_for(one, source) =~= one);
    assert(layers_without(one, source) =~= Seq::empty());
    assert(layers_for(with_layer(layers, layer), source) =~= layers_for(layers, source).push(layer));
    assert(layers_without(with_layer(layers, layer), source) =~= layers_without(layers, source));
    let after = with_layer(layers, layer);
    assert forall|i: int, j: int| 0 <= i < j < after.len() implies precedence(
        (#[trigger] after[i]).source,
    ) <= precedence((#[trigger] after[j]).source) by {
        let from = if i < p {
            i
        } else {
            i - 1
        };
        let to = if j < p {
            j
        } else {
            j - 1
        };
        if i != p {
            assert(after[i] == layers[from]);
        }
        if j != p {
            assert(after[j] == layers[to]);
        }
    }
}

proof fn lemma_without(layers: Seq<ConfigLayer>, source: ConfigSource)
    ensures
        forall|i: int|
            0 <= i < layers_without(layers, source).len() ==> layers.contains(
                #[trigger] layers_without(layers, source)[i],
            ) && layers_without(layers, source)[i].source != source,
        is_ordered(layers) ==> is_ordered(layers_without(layers, source)),
    decreases layers.len(),
{
    if layers.len() > 0 {
        let front = layers.drop_last();
        let rest = layers_without(front, source);
        let all = layers_without(layers, source);
        lemma_without(front, source);
        assert(forall|i: int| 0 <= i < front.len() ==> front[i] == #[trigger] layers[i]);
        assert forall|i: int| 0 <= i < all.len() implies layers.contains(#[trigger] all[i])
            && all[i].source != source by {
            if i < rest.len() {
                assert(all[i] == rest[i]);
                let k = choose|k: int| 0 <= k < front.len() && front[k] == rest[i];
                assert(layers[k] == all[i]);
            } else {
                assert(all[i] == layers[layers.len() - 1]);
            }
        }
        if is_ordered(layers) {
            assert forall|i: int, j: int| 0 <= i < j < all.len() implies precedence(
                (#[trigger] all[i]).source,
            ) <= precedence((#[trigger] all[j]).source) by {
                assert(all[i] == rest[i]);
                if j < rest.len() {
                    assert(all[j] == rest[j]);
                } else {
                    let k = choose|k: int| 0 <= k < front.len() && front[k] == rest[i];
                    assert(layers[k] == all[i]);
                    assert(layers[layers.len() - 1] == all[j]);
                }
            }
        }
    }
}

/// Stacked configuration that has not been resolved within an environment: the
/// layers from the lowest precedence to the highest.
#[derive(Debug)]
pub struct RawConfig {
    layers: Vec<ConfigLayer>,
}

impl View for RawConfig {
    type V = Seq<ConfigLayer>;

    closed spec fn view(&self) -> Seq<ConfigLayer> {
        self.layers@
    }
}

impl RawConfig {
    /// Whether no layer lies on one of higher precedence.
    pub open spec fn well_formed(&self) -> bool {
        is_ordered(self@)
    }

    /// Returns the layers, from the lowest precedence to the highest.
    pub fn layers(&self) -> (layers: &Vec<ConfigLayer>)
        ensures
            layers@ == self@,
    {
        &self.layers
    }

    /// Adds a layer on top of those of the same or of a lower precedence.
    pub fn add_layer(&mut self, layer: ConfigLayer)
        requires
            old(self).well_formed(),
        ensures
            final(self).well_formed(),
            final(self)@ == with_layer(old(self)@, layer),
    {
        let ghost before = self.layers@;
        let place: u8 = precedence_of(layer.source);
        let mut point: usize = self.layers.len();
        assert(before.take(point as int) =~= before);
        while point > 0 && precedence_of(self.layers[point - 1].source) > place
            invariant
                point <= before.len(),
                self.layers@ == before,
                place == precedence(layer.source),
                insert_point(before.take(point as int), layer.source) == insert_point(
                    before,
                    layer.source,
                ),
            decreases point,
        {
            proof {
                let head = before.take(point as int);
                assert(head.drop_last() =~= before.take(point - 1));
                assert(head.last() == before[point - 1]);
            }
            point -= 1;
        }
        proof {
            let head = before.take(point as int);
            if point > 0 {
                assert(head.last() == before[point - 1]);
            }
            assert(insert_point(before, layer.source) == point);
            lemma_with_layer(before, layer);
        }
        self.layers.insert(point, layer);
    }

    /// Removes the layers of a source.
    pub fn remove_layers(&mut self, source: ConfigSource)
        requires
            old(self).well_formed(),
        ensures
            final(self).well_formed(),
            final(self)@ == layers_without(old(self)@, source),
    {
        let ghost before = self.layers@;
        let mut kept: Vec<ConfigLayer> = Vec::new();
        let len: usize = self.layers.len();
        let mut i: usize = 0;
        assert(before.skip(0) =~= before);
        while i < len
            invariant
                i <= len,
                len == before.len(),
                self.layers@ == before.skip(i as int),
                kept@ == layers_without(before.take(i as int), source),
            decreases len - i,
        {
            let layer: ConfigLayer = self.layers.remove(0);
            proof {
                let longer = before.take(i + 1);
                assert(longer.drop_last() =~= before.take(i as int));
                assert(longer.last() == before[i as int]);
                assert(self.layers@ =~= before.skip(i + 1));
            }
            if layer.source != source {
                kept.push(layer);
            }
            i += 1;
        }
        proof {
            assert(before.take(len as int) =~= before);
            lemma_without(before, source);
        }
        self.layers = kept;
    }

    /// Replaces the layers of a source, if there are any, by those that were
    /// loaded now.
    pub fn reload(&mut self, source: ConfigSource, loaded: Vec<ConfigLayer>)
        requires
            old(self).well_formed(),
            all_of(loaded@, source),
        ensures
            final(self).well_formed(),
            layers_for(final(self)@, source) == loaded@,
            layers_without(final(self)@, source) == layers_without(old(self)@, source),
    {
        let ghost rest = layers_without(self@, source);
        let ghost all = loaded@;
        proof {
            lemma_without(self@, source);
            lemma_no_layer(rest, source);
        }
        self.remove_layers(source);
        let mut remaining: Vec<ConfigLayer> = loaded;
        let len: usize = remaining.len();
        let mut i: usize = 0;
        assert(all.skip(0) =~= all);
        assert(layers_for(self@, source) =~= all.take(0));
        while i < len
            invariant
                i <= len,
                len == all.len(),
                all_of(all, source),
                self.well_formed(),
                remaining@ == all.skip(i as int),
                layers_for(self@, source) == all.take(i as int),
                layers_without(self@, source) == rest,
            decreases len - i,
        {
            let layer: ConfigLayer = remaining.remove(0);
            proof {
                assert(layer == all[i as int]);
                assert(remaining@ =~= all.skip(i + 1));
                assert(all.take(i + 1) =~= all.take(i as int).push(layer));
                lemma_with_layer(self@, layer);
            }
            self.add_layer(layer);
            i += 1;
        }
        assert(all.take(len as int) =~= all);
    }
}

/// The layers with others added, one after the other.
pub open spec fn with_layers(layers: Seq<ConfigLayer>, added: Seq<ConfigLayer>) -> Seq<ConfigLayer>
    decreases added.len(),
{
    if added.len() == 0 {
        layers
    } else {
        with_layer(with_layers(layers, added.drop_last()), added.last())
    }
}

/// Layers of the lowest precedence lie on each other as they are added.
proof fn lemma_with_defaults(layers: Seq<ConfigLayer>, added: Seq<ConfigLayer>)
    requires
        all_of(layers, ConfigSource::Default),
        all_of(added, ConfigSource::Default),
    ensures
        with_layers(layers, added) == layers + added,
        all_of(layers + added, ConfigSource::Default),
    decreases added.len(),
{
    if added.len() == 0 {
        assert(layers + added =~= layers);
    } else {
        let front = added.drop_last();
        assert forall|i: int| 0 <= i < front.len() implies (#[trigger] front[i]).source
            == ConfigSource::Default by {
            assert(front[i] == added[i]);
        }
        lemma_with_defaults(layers, front);
        let before = layers + front;
        let layer = added.last();
        assert(added[added.len() - 1] == layer);
        lemma_on_top(before, layer);
        assert(before.push(layer) =~= layers + added);
    }
}

/// A layer is put on top of layers of no higher precedence.
proof fn lemma_on_top(layers: Seq<ConfigLayer>, layer: ConfigLayer)
    requires
        layers.len() > 0 ==> precedence(layers[layers.len() - 1].source) <= precedence(
            layer.source,
        ),
    ensures
        with_layer(layers, layer) == layers.push(layer),
{
    assert(insert_point(layers, layer.source) == layers.len());
    assert(with_layer(layers, layer) =~= layers.push(layer));
}

/// Adds layers, one after the other.
fn add_layers(config: &mut RawConfig, added: Vec<ConfigLayer>)
    requires
        old(config).well_formed(),
    ensures
        final(config).well_formed(),
        final(config)@ == with_layers(old(config)@, added@),
{
    let ghost all = added@;
    let ghost before = config@;
    let mut remaining: Vec<ConfigLayer> = added;
    let len: usize = remaining.len();
    let mut i: usize = 0;
    assert(all.skip(0) =~= all);
    while i < len
        invariant
            i <= len,
            len == all.len(),
            config.well_formed(),
            remaining@ == all.skip(i as int),
            config@ == with_layers(before, all.take(i as int)),
        decreases len - i,
    {
        let layer: ConfigLayer = remaining.remove(0);
        proof {
            assert(layer == all[i as int]);
            assert(remaining@ =~= all.skip(i + 1));
            assert(all.take(i + 1).drop_last() =~= all.take(i as int));
            assert(all.take(i + 1).last() == layer);
        }
        config.add_layer(layer);
        i += 1;
    }
    assert(all.take(len as int) =~= all);
}

/// Initializes stacked config with the layers that come with the library, the
/// given default layers and infallible sources: the base environment variables
/// and the override environment variables. Each layer lies where its source
/// puts it.
pub fn config_from_environment(
    library_layers: Vec<ConfigLayer>,
    default_layers: Vec<ConfigLayer>,
    env_base_layer: ConfigLayer,
    env_overrides_layer: ConfigLayer,
) -> (config: RawConfig)
    ensures
        config.well_formed(),
        config@ == with_layer(
            with_layer(
                with_layers(with_layers(Seq::empty(), library_layers@), default_layers@),
                env_base_layer,
            ),
            env_overrides_layer,
        ),
        all_of(library_layers@, ConfigSource::Default) && all_of(
            default_layers@,
            ConfigSource::Default,
        ) && env_base_layer.source == ConfigSource::EnvBase && env_overrides_layer.source
            == ConfigSource::EnvOverrides ==> config@ == (library_layers@ + default_layers@).push(
            env_base_layer,
        ).push(env_overrides_layer),
{
    let ghost library = library_layers@;
    let ghost defaults = default_layers@;
    let none: Vec<ConfigLayer> = Vec::new();
    assert(none@ =~= Seq::<ConfigLayer>::empty());
    let mut config: RawConfig = RawConfig { layers: none };
    add_layers(&mut config, library_layers);
    add_layers(&mut config, default_layers);
    proof {
        if all_of(library, ConfigSource::Default) && all_of(defaults, ConfigSource::Default)
            && env_base_layer.source == ConfigSource::EnvBase && env_overrides_layer.source
            == ConfigSource::EnvOverrides {
            lemma_with_defaults(Seq::empty(), library);
            assert(Seq::<ConfigLayer>::empty() + library =~= library);
            lemma_with_defaults(library, defaults);
            lemma_on_top(library + defaults, env_base_layer);
            lemma_on_top((library + defaults).push(env_base_layer), env_overrides_layer);
        }
    }
    config.add_layer(env_base_layer);
    config.add_layer(env_overrides_layer);
    config
}

/// An ordered stack is known by the layers of one source and by those of all
/// others. So reloading a source leaves behind one stack only, and nothing
/// changes if the same layers are loaded again.
pub proof fn lemma_order_is_unique(
    a: Seq<ConfigLayer>,
    b: Seq<ConfigLayer>,
    source: ConfigSource,
)
    requires
        is_ordered(a),
        is_ordered(b),
        layers_for(a, source) == layers_for(b, source),
        layers_without(a, source) == layers_without(b, source),
    ensures
        a == b,
    decreases a.len() + b.len(),
{
    lemma_lengths(a, source);
    lemma_lengths(b, source);
    if a.len() == 0 {
        assert(a =~= b);
    } else {
        let a_front = a.drop_last();
        let b_front = b.drop_last();
        assert(forall|i: int| 0 <= i < a_front.len() ==> a_front[i] == #[trigger] a[i]);
        assert(forall|i: int| 0 <= i < b_front.len() ==> b_front[i] == #[trigger] b[i]);
        let a_ours = a.last().source == source;
        let b_ours = b.last().source == source;
        if a_ours {
            lemma_top_agrees(a, b, source);
        } else if b_ours {
            lemma_top_agrees(b, a, source);
        }
        assert(a.last() == b.last()) by {
            if a_ours {
                assert(layers_for(a, source).last() == a.last());
                assert(layers_for(b, source).last() == b.last());
            } else {
                assert(layers_without(a, source).last() == a.last());
                assert(layers_without(b, source).last() == b.last());
            }
        }
        if a_ours {
            assert(layers_for(a_front, source) =~= layers_for(a, source).drop_last());
            assert(layers_for(b_front, source) =~= layers_for(b, source).drop_last());
        } else {
            assert(layers_without(a_front, source) =~= layers_without(a, source).drop_last());
            assert(layers_without(b_front, source) =~= layers_without(b, source).drop_last());
        }
        lemma_order_is_unique(a_front, b_front, source);
        assert(a =~= a_front.push(a.last()));
        assert(b =~= b_front.push(b.last()));
    }
}

proof fn lemma_top_agrees(a: Seq<ConfigLayer>, b: Seq<ConfigLayer>, source: ConfigSource)
    requires
        a.len() > 0,
        b.len() > 0,
        is_ordered(a),
        is_ordered(b),
        layers_for(a, source) == layers_for(b, source),
        layers_without(a, source) == layers_without(b, source),
        a.last().source == source,
    ensures
        b.last().source == source,
{
    if b.last().source != source {
        // The top of `b` is in `a`, below a layer of the source.
        lemma_without(a, source);
        let other = layers_without(b, source).last();
        assert(layers_without(a, source)[layers_without(a, source).len() - 1] == other);
        let i = choose|i: int| 0 <= i < a.len() && a[i] == other;
        assert(precedence(a[i].source) <= precedence(a[a.len() - 1].source));
        // The top of `a` is in `b`, below the top of `b`.
        lemma_for(b, source);
        let ours = layers_for(a, source).last();
        assert(layers_for(b, source)[layers_for(b, source).len() - 1] == ours);
        let j = choose|j: int| 0 <= j < b.len() && b[j] == ours;
        assert(precedence(b[j].source) <= precedence(b[b.len() - 1].source));
    }
}

proof fn lemma_for(layers: Seq<ConfigLayer>, source: ConfigSource)
    ensures
        forall|i: int|
            0 <= i < layers_for(layers, source).len() ==> layers.contains(
                #[trigger] layers_for(layers, source)[i],
            ),
    decreases layers.len(),
{
    if layers.len() > 0 {
        let front = layers.drop_last();
        let rest = layers_for(front, source);
        let all = layers_for(layers, source);
        lemma_for(front, source);
        assert forall|i: int| 0 <= i < all.len() implies layers.contains(#[trigger] all[i]) by {
            if i < rest.len() {
                assert(all[i] == rest[i]);
                let k = choose|k: int| 0 <= k < front.len() && front[k] == rest[i];
                assert(layers[k] == all[i]);
            } else {
                assert(all[i] == layers[layers.len() - 1]);
            }
        }
    }
}

proof fn lemma_lengths(layers: Seq<ConfigLayer>, source: ConfigSource)
    ensures
        layers_for(layers, source).len() + layers_without(layers, source).len() == layers.len(),
    decreases layers.len(),
{
    if layers.len() > 0 {
        lemma_lengths(layers.drop_last(), source);
    }
}

/// Sources from the lowest precedence to the highest.
pub proof fn lemma_precedence()
    ensures
        precedence(ConfigSource::Default) < precedence(ConfigSource::System) < precedence(
            ConfigSource::EnvBase,
        ) < precedence(ConfigSource::User) < precedence(ConfigSource::Repo) < precedence(
            ConfigSource::Workspace,
        ) < precedence(ConfigSource::EnvOverrides) < precedence(ConfigSource::CommandArg),
{
}

/// The layers of a source and the others are all layers, each one once, and in
/// the order in which they were: whatever is on one side of a place stays on that
/// side.
pub proof fn lemma_layers_parted(
    a: Seq<ConfigLayer>,
    layer: ConfigLayer,
    b: Seq<ConfigLayer>,
    source: ConfigSource,
)
    ensures
        layer.source == source ==> {
            &&& layers_for(a.push(layer) + b, source) == layers_for(a, source).push(layer)
                + layers_for(b, source)
            &&& layers_without(a.push(layer) + b, source) == layers_without(a, source)
                + layers_without(b, source)
        },
        layer.source != source ==> {
            &&& layers_for(a.push(layer) + b, source) == layers_for(a, source) + layers_for(
                b,
                source,
            )
            &&& layers_without(a.push(layer) + b, source) == layers_without(a, source).push(layer)
                + layers_without(b, source)
        },
    decreases b.len(),
{
    let all = a.push(layer) + b;
    if b.len() == 0 {
        assert(all =~= a.push(layer));
        assert(all.drop_last() =~= a);
        assert(layers_for(all, source) + layers_for(b, source) =~= layers_for(all, source));
        assert(layers_for(a, source) + layers_for(b, source) =~= layers_for(a, source));
        assert(layers_for(a, source).push(layer) + layers_for(b, source) =~= layers_for(
            a,
            source,
        ).push(layer));
        assert(layers_without(a, source) + layers_without(b, source) =~= layers_without(
            a,
            source,
        ));
        assert(layers_without(a, source).push(layer) + layers_without(b, source)
            =~= layers_without(a, source).push(layer));
    } else {
        let fewer = b.drop_last();
        lemma_layers_parted(a, layer, fewer, source);
        assert(all.drop_last() =~= a.push(layer) + fewer);
        assert(all.last() == b.last());
        if layer.source == source {
            assert(layers_for(all, source) =~= layers_for(a, source).push(layer) + layers_for(
                b,
                source,
            ));
            assert(layers_without(all, source) =~= layers_without(a, source) + layers_without(
                b,
                source,
            ));
        } else {
            assert(layers_for(all, source) =~= layers_for(a, source) + layers_for(b, source));
            assert(layers_without(all, source) =~= layers_without(a, source).push(layer)
                + layers_without(b, source));
        }
    }
}

/// A layer that is added goes above all layers of the same or of a lower
/// precedence and below all others. The other layers stay in their order.
pub proof fn lemma_layer_added(layers: Seq<ConfigLayer>, layer: ConfigLayer) -> (place: int)
    requires
        is_ordered(layers),
    ensures
        0 <= place <= layers.len(),
        with_layer(layers, layer) == layers.take(place).push(layer) + layers.skip(place),
        forall|i: int|
            0 <= i < place ==> precedence((#[trigger] layers[i]).source) <= precedence(
                layer.source,
            ),
        forall|i: int|
            place <= i < layers.len() ==> precedence((#[trigger] layers[i]).source) > precedence(
                layer.source,
            ),
        is_ordered(with_layer(layers, layer)),
{
    let place = insert_point(layers, layer.source) as int;
    lemma_insert_point(layers, layer.source);
    let new = with_layer(layers, layer);
    assert(new =~= layers.take(place).push(layer) + layers.skip(place));
    assert forall|i: int, j: int| 0 <= i < j < new.len() implies precedence(
        (#[trigger] new[i]).source,
    ) <= precedence((#[trigger] new[j]).source) by {
        let a = if i < place {
            i
        } else {
            i - 1
        };
        let b = if j < place {
            j
        } else {
            j - 1
        };
        if i != place {
            assert(new[i] == layers[a]);
        }
        if j != place {
            assert(new[j] == layers[b]);
        }
    }
    place
}

} // verus!
