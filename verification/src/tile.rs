use vstd::prelude::*;
use crate::commands::{encodable, encode_geometry, geometry_commands};
use crate::error::TileError;
use crate::feature::{attrs_of, Attr, AttrValue, Feature, FeatureAttr, FeatureAttrValType};
use crate::geom::Shape;
use crate::grid::{Bounds, Extent};
use crate::screen::{draw, drawn, GeomType};

verus! {

/// A feature of a tile layer: its id if it has one, its attributes as pairs
/// of an index into the layer's keys and an index into the layer's values,
/// and its drawing as a command stream.
#[derive(Clone, Debug, PartialEq, Eq)]
pub struct TileFeature {
    pub id: Option<u64>,
    pub tags: Vec<(u32, u32)>,
    pub geom_type: GeomType,
    pub geometry: Vec<u32>,
}

/// A layer of a tile: its name, the side of the tile in tile units, the
/// keys and the values of its features' attributes, and its features.
#[derive(Clone, Debug, PartialEq, Eq)]
pub struct TileLayer {
    pub name: String,
    pub extent: u32,
    pub keys: Vec<String>,
    pub values: Vec<FeatureAttrValType>,
    pub features: Vec<TileFeature>,
}

/// A tile: its layers, in the order in which they are drawn.
#[derive(Clone, Debug, PartialEq, Eq)]
pub struct Tile {
    pub layers: Vec<TileLayer>,
}

/// What a `TileFeature` holds.
pub ghost struct FeatureModel {
    pub id: Option<u64>,
    pub tags: Seq<(u32, u32)>,
    pub geom_type: GeomType,
    pub geometry: Seq<u32>,
}

/// What a `TileLayer` holds.
pub ghost struct LayerModel {
    pub name: Seq<char>,
    pub extent: u32,
    pub keys: Seq<Seq<char>>,
    pub values: Seq<AttrValue>,
    pub features: Seq<FeatureModel>,
}

/// What a `Tile` holds.
pub ghost struct TileModel {
    pub layers: Seq<LayerModel>,
}

/// The keys as texts.
pub open spec fn key_seq(keys: Seq<String>) -> Seq<Seq<char>> {
    Seq::new(keys.len(), |i: int| keys[i]@)
}

/// What each of the values holds.
pub open spec fn value_seq(values: Seq<FeatureAttrValType>) -> Seq<AttrValue> {
    Seq::new(values.len(), |i: int| values[i]@)
}

/// What each of the features holds.
pub open spec fn feature_seq(features: Seq<TileFeature>) -> Seq<FeatureModel> {
    Seq::new(features.len(), |i: int| features[i]@)
}

/// What each of the layers holds.
pub open spec fn layer_seq(layers: Seq<TileLayer>) -> Seq<LayerModel> {
    Seq::new(layers.len(), |i: int| layers[i]@)
}

impl View for TileFeature {
    type V = FeatureModel;

    open spec fn view(&self) -> FeatureModel {
        FeatureModel {
            id: self.id,
            tags: self.tags@,
            geom_type: self.geom_type,
            geometry: self.geometry@,
        }
    }
}

impl View for TileLayer {
    type V = LayerModel;

    open spec fn view(&self) -> LayerModel {
        LayerModel {
            name: self.name@,
            extent: self.extent,
            keys: key_seq(self.keys@),
            values: value_seq(self.values@),
            features: feature_seq(self.features@),
        }
    }
}

impl View for Tile {
    type V = TileModel;

    open spec fn view(&self) -> TileModel {
        TileModel { layers: layer_seq(self.layers@) }
    }
}

/// The first index from `from` on at which `dict` holds `x`, or the length
/// of `dict` where it holds `x` at none.
pub open spec fn first_index<T>(dict: Seq<T>, x: T, from: int) -> int
    decreases dict.len() - from,
{
    if from >= dict.len() {
        dict.len() as int
    } else if dict[from] == x {
        from
    } else {
        first_index(dict, x, from + 1)
    }
}

/// The index of `x` in the dictionary `dict` once `x` has been entered: that
/// of its first occurrence, or the next free index.
pub open spec fn slot<T>(dict: Seq<T>, x: T) -> int {
    first_index(dict, x, 0)
}

/// The dictionary `dict` with `x` entered: unchanged where it holds `x`, and
/// with `x` at its end where it does not.
pub open spec fn with_entry<T>(dict: Seq<T>, x: T) -> Seq<T> {
    if slot(dict, x) == dict.len() {
        dict.push(x)
    } else {
        dict
    }
}

/// The keys and values of a layer and the index pairs of a feature.
pub ghost struct Tagging {
    pub keys: Seq<Seq<char>>,
    pub values: Seq<AttrValue>,
    pub tags: Seq<(u32, u32)>,
}

/// The dictionaries `keys` and `values` with the first `n` of `attrs`
/// entered in their order, and the index pair of each. An attribute whose
/// key or value would get an index beyond 32 bits is left out.
pub open spec fn tagging(
    keys: Seq<Seq<char>>,
    values: Seq<AttrValue>,
    attrs: Seq<Attr>,
    n: nat,
) -> Tagging
    decreases n,
{
    if n == 0 {
        Tagging { keys, values, tags: Seq::empty() }
    } else {
        let t = tagging(keys, values, attrs, (n - 1) as nat);
        let k = slot(t.keys, attrs[n - 1].0);
        let v = slot(t.values, attrs[n - 1].1);
        if k <= u32::MAX && v <= u32::MAX {
            Tagging {
                keys: with_entry(t.keys, attrs[n - 1].0),
                values: with_entry(t.values, attrs[n - 1].1),
                tags: t.tags.push((k as u32, v as u32)),
            }
        } else {
            t
        }
    }
}

/// What a layer takes from a feature: its id, its attributes, and the shape
/// of its geometry where the geometry model holds it.
pub ghost struct Record {
    pub id: Option<u64>,
    pub attrs: Seq<Attr>,
    pub shape: Option<Shape>,
}

/// What a layer takes from the feature `f`.
pub open spec fn record<F: Feature>(f: F) -> Record {
    Record { id: f.id(), attrs: f.attrs(), shape: f.shape() }
}

/// What a layer takes from each of the features.
pub open spec fn records<F: Feature>(features: Seq<F>) -> Seq<Record> {
    Seq::new(features.len(), |i: int| record(features[i]))
}

/// A layer without features.
pub open spec fn empty_layer(name: Seq<char>, extent: u32) -> LayerModel {
    LayerModel {
        name,
        extent,
        keys: Seq::empty(),
        values: Seq::empty(),
        features: Seq::empty(),
    }
}

/// What a feature with the given shape draws on a tile of `extent` units
/// over the box `ext`, where it draws anything that can be written as
/// commands.
pub open spec fn shown(shape: Option<Shape>, ext: Bounds, extent: u32) -> Option<
    crate::screen::Sketch,
> {
    match shape {
        Some(s) => match drawn(s, ext, extent as int) {
            Some(d) => if encodable(d) {
                Some(d)
            } else {
                None
            },
            None => None,
        },
        None => None,
    }
}

/// The layer with the feature `r` on the tile over the box `ext`: unchanged
/// where the feature shows nothing, and else with the feature at the end of
/// its features and the feature's attributes entered in its dictionaries.
pub open spec fn with_record(layer: LayerModel, r: Record, ext: Bounds) -> LayerModel {
    match shown(r.shape, ext, layer.extent) {
        Some(d) => {
            let t = tagging(layer.keys, layer.values, r.attrs, r.attrs.len());
            LayerModel {
                name: layer.name,
                extent: layer.extent,
                keys: t.keys,
                values: t.values,
                features: layer.features.push(
                    FeatureModel {
                        id: r.id,
                        tags: t.tags,
                        geom_type: d.kind,
                        geometry: geometry_commands(d),
                    },
                ),
            }
        },
        None => layer,
    }
}

/// The layer called `name` with the first `n` of the features `rs`, in their
/// order, on the tile of `extent` units over the box `ext`.
pub open spec fn layer_of(name: Seq<char>, extent: u32, rs: Seq<Record>, ext: Bounds, n: nat) -> LayerModel
    decreases n,
{
    if n == 0 {
        empty_layer(name, extent)
    } else {
        with_record(layer_of(name, extent, rs, ext, (n - 1) as nat), rs[n - 1], ext)
    }
}

/// The index of `key` among `keys`, or their number.
fn key_slot(keys: &Vec<String>, key: &String) -> (i: usize)
    ensures
        i == slot(key_seq(keys@), key@),
{
    let mut i: usize = 0;
    while i < keys.len()
        invariant
            i <= keys.len(),
            slot(key_seq(keys@), key@) == first_index(key_seq(keys@), key@, i as int),
        decreases keys.len() - i,
    {
        if keys[i] == *key {
            return i;
        }
        i += 1;
    }
    i
}

/// The index of `value` among `values`, or their number.
fn value_slot(values: &Vec<FeatureAttrValType>, value: &FeatureAttrValType) -> (i: usize)
    ensures
        i == slot(value_seq(values@), value@),
{
    let mut i: usize = 0;
    while i < values.len()
        invariant
            i <= values.len(),
            slot(value_seq(values@), value@) == first_index(value_seq(values@), value@, i as int),
        decreases values.len() - i,
    {
        if values[i].same(value) {
            return i;
        }
        i += 1;
    }
    i
}

impl TileLayer {
    /// A layer called `name` without features, for a tile of `extent` units.
    pub fn new(name: &str, extent: u32) -> (layer: TileLayer)
        ensures
            layer@ == empty_layer(name@, extent),
    {
        let layer = TileLayer {
            name: name.to_owned(),
            extent,
            keys: Vec::new(),
            values: Vec::new(),
            features: Vec::new(),
        };
        assert(layer@.keys =~= Seq::empty());
        assert(layer@.values =~= Seq::empty());
        assert(layer@.features =~= Seq::empty());
        layer
    }

    /// Enters the attributes in the dictionaries of the layer and gives the
    /// index pair of each.
    fn tag(&mut self, attrs: &Vec<FeatureAttr>) -> (tags: Vec<(u32, u32)>)
        ensures
            final(self).name == old(self).name,
            final(self).extent == old(self).extent,
            final(self).features == old(self).features,
            (Tagging { keys: final(self)@.keys, values: final(self)@.values, tags: tags@ })
                == tagging(old(self)@.keys, old(self)@.values, attrs_of(attrs@), attrs@.len()),
    {
        let mut tags: Vec<(u32, u32)> = Vec::new();
        let mut i: usize = 0;
        while i < attrs.len()
            invariant
                i <= attrs.len(),
                self.name == old(self).name,
                self.extent == old(self).extent,
                self.features == old(self).features,
                (Tagging { keys: self@.keys, values: self@.values, tags: tags@ }) == tagging(
                    old(self)@.keys,
                    old(self)@.values,
                    attrs_of(attrs@),
                    i as nat,
                ),
            decreases attrs.len() - i,
        {
            let ghost keys = self@.keys;
            let ghost values = self@.values;
            let attr = &attrs[i];
            assert(attrs_of(attrs@)[i as int] == (attr.key@, attr.value@));
            let k = key_slot(&self.keys, &attr.key);
            let v = value_slot(&self.values, &attr.value);
            if k <= u32::MAX as usize && v <= u32::MAX as usize {
                if k == self.keys.len() {
                    self.keys.push(attr.key.clone());
                    assert(self@.keys =~= keys.push(attr.key@));
                }
                if v == self.values.len() {
                    self.values.push(attr.value.duplicate());
                    assert(self@.values =~= values.push(attr.value@));
                }
                tags.push((k as u32, v as u32));
            }
            i += 1;
        }
        tags
    }

    /// Adds what `feature` shows on the tile over the box `ext` to the
    /// layer, and says whether the feature shows anything.
    ///
    /// A feature is left out where its geometry fails, where nothing of it
    /// falls on the tile, and where its drawing cannot be written as
    /// commands.
    pub fn add_feature<F: Feature>(&mut self, feature: &F, ext: &Extent) -> (added: bool)
        ensures
            final(self)@ == with_record(old(self)@, record(*feature), ext@),
            added == shown(feature.shape(), ext@, old(self).extent).is_some(),
    {
        let geometry = match feature.geometry() {
            Ok(g) => g,
            Err(_) => {
                return false;
            },
        };
        let drawing = match draw(&geometry, ext, self.extent) {
            Some(d) => d,
            None => {
                return false;
            },
        };
        let words = match encode_geometry(&drawing) {
            Ok(words) => words,
            Err(_) => {
                return false;
            },
        };
        let attrs = feature.attributes();
        let tags = self.tag(&attrs);
        let ghost before = self@.features;
        let added = TileFeature {
            id: feature.fid(),
            tags,
            geom_type: drawing.kind,
            geometry: words,
        };
        let ghost model = added@;
        self.features.push(added);
        assert(self@.features =~= old(self)@.features.push(model));
        true
    }
}

/// The layer called `name` with the given features, in their order, on the
/// tile of `extent` units over the box `ext`.
pub fn encode_layer<F: Feature>(name: &str, extent: u32, features: &Vec<F>, ext: &Extent) -> (layer:
    TileLayer)
    ensures
        layer@ == layer_of(name@, extent, records(features@), ext@, features@.len()),
{
    let mut layer = TileLayer::new(name, extent);
    let mut i: usize = 0;
    while i < features.len()
        invariant
            i <= features.len(),
            layer@ == layer_of(name@, extent, records(features@), ext@, i as nat),
        decreases features.len() - i,
    {
        assert(records(features@)[i as int] == record(features@[i as int]));
        layer.add_feature(&features[i], ext);
        i += 1;
    }
    layer
}

/// The layer that stands for what a datasource gave for a layer: the layer
/// with the features where it gave features, and a layer without features
/// where it failed.
pub open spec fn layer_from<F: Feature>(
    name: Seq<char>,
    extent: u32,
    fetched: Result<Vec<F>, TileError>,
    ext: Bounds,
) -> LayerModel {
    match fetched {
        Ok(features) => layer_of(name, extent, records(features@), ext, features@.len()),
        Err(_) => empty_layer(name, extent),
    }
}

/// The layer called `name` for what a datasource gave: a failed read leaves
/// the layer without features, and touches no other layer.
pub fn encode_fetched<F: Feature>(
    name: &str,
    extent: u32,
    fetched: &Result<Vec<F>, TileError>,
    ext: &Extent,
) -> (layer: TileLayer)
    ensures
        layer@ == layer_from(name@, extent, *fetched, ext@),
{
    match fetched {
        Ok(features) => encode_layer(name, extent, features, ext),
        Err(_) => TileLayer::new(name, extent),
    }
}

/// `short` is the beginning of `long`.
pub open spec fn begins<T>(long: Seq<T>, short: Seq<T>) -> bool {
    short.len() <= long.len() && forall|i: int| 0 <= i < short.len() ==> long[i] == short[i]
}

/// Where `x` is first found among the entries of a dictionary from `from`
/// on: at an index that holds `x`, with no `x` before it, or nowhere.
pub proof fn lemma_first_index<T>(dict: Seq<T>, x: T, from: int)
    requires
        0 <= from <= dict.len(),
    ensures
        from <= first_index(dict, x, from) <= dict.len(),
        first_index(dict, x, from) < dict.len() ==> dict[first_index(dict, x, from)] == x,
        forall|j: int| from <= j < first_index(dict, x, from) ==> dict[j] != x,
    decreases dict.len() - from,
{
    if from < dict.len() && dict[from] != x {
        lemma_first_index(dict, x, from + 1);
    }
}

/// Entering `x` in a dictionary keeps every entry at its index, puts `x` at
/// the index that `slot` gives, and adds no entry twice.
pub proof fn lemma_with_entry<T>(dict: Seq<T>, x: T)
    ensures
        begins(with_entry(dict, x), dict),
        0 <= slot(dict, x) < with_entry(dict, x).len(),
        with_entry(dict, x)[slot(dict, x)] == x,
        with_entry(dict, x).len() <= dict.len() + 1,
        dict.no_duplicates() ==> with_entry(dict, x).no_duplicates(),
{
    lemma_first_index(dict, x, 0);
}

/// The index pairs of a feature lead to the keys and values of its
/// attributes: entering attributes keeps every earlier entry of the
/// dictionaries at its index, every index of a pair lies in its dictionary,
/// and, where the dictionaries stay within 32 bits, attribute `j` has pair
/// `j`, whose indices hold its key and its value.
pub proof fn lemma_tags_lead_to_attributes(
    keys: Seq<Seq<char>>,
    values: Seq<AttrValue>,
    attrs: Seq<Attr>,
    n: nat,
)
    requires
        n <= attrs.len(),
    ensures
        ({
            let t = tagging(keys, values, attrs, n);
            &&& begins(t.keys, keys)
            &&& begins(t.values, values)
            &&& t.tags.len() <= n
            &&& forall|j: int|
                0 <= j < t.tags.len() ==> (#[trigger] t.tags[j]).0 < t.keys.len() && t.tags[j].1
                    < t.values.len()
            &&& keys.no_duplicates() ==> t.keys.no_duplicates()
            &&& values.no_duplicates() ==> t.values.no_duplicates()
            &&& t.keys.len() <= u32::MAX && t.values.len() <= u32::MAX ==> {
                &&& t.tags.len() == n
                &&& forall|j: int|
                    0 <= j < n ==> t.keys[(#[trigger] t.tags[j]).0 as int] == attrs[j].0
                        && t.values[t.tags[j].1 as int] == attrs[j].1
            }
        }),
    decreases n,
{
    if n > 0 {
        lemma_tags_lead_to_attributes(keys, values, attrs, (n - 1) as nat);
        let before = tagging(keys, values, attrs, (n - 1) as nat);
        let after = tagging(keys, values, attrs, n);
        let a = attrs[n - 1];
        lemma_with_entry(before.keys, a.0);
        lemma_with_entry(before.values, a.1);
        lemma_first_index(before.keys, a.0, 0);
        lemma_first_index(before.values, a.1, 0);
        let k = slot(before.keys, a.0);
        let v = slot(before.values, a.1);
        if k <= u32::MAX && v <= u32::MAX {
            assert forall|j: int| 0 <= j < after.tags.len() implies (#[trigger] after.tags[j]).0
                < after.keys.len() && after.tags[j].1 < after.values.len() by {
                if j < before.tags.len() {
                    assert(after.tags[j] == before.tags[j]);
                }
            }
            if after.keys.len() <= u32::MAX && after.values.len() <= u32::MAX {
                assert forall|j: int| 0 <= j < n implies after.keys[(#[trigger] after.tags[j]).0 as int]
                    == attrs[j].0 && after.values[after.tags[j].1 as int] == attrs[j].1 by {
                    if j < n - 1 {
                        assert(after.tags[j] == before.tags[j]);
                        assert(before.tags[j].0 < before.keys.len());
                        assert(before.tags[j].1 < before.values.len());
                    }
                }
            }
        }
    }
}

/// The dictionaries of a layer hold no key twice and no value twice.
pub proof fn lemma_dictionaries_distinct(
    name: Seq<char>,
    extent: u32,
    rs: Seq<Record>,
    ext: Bounds,
    n: nat,
)
    requires
        n <= rs.len(),
    ensures
        layer_of(name, extent, rs, ext, n).keys.no_duplicates(),
        layer_of(name, extent, rs, ext, n).values.no_duplicates(),
    decreases n,
{
    if n > 0 {
        lemma_dictionaries_distinct(name, extent, rs, ext, (n - 1) as nat);
        let before = layer_of(name, extent, rs, ext, (n - 1) as nat);
        let r = rs[n - 1];
        lemma_tags_lead_to_attributes(before.keys, before.values, r.attrs, r.attrs.len());
    }
}

/// Layers made of the same features for the same tile are the same, key for
/// key, value for value and index pair for index pair.
pub proof fn lemma_same_features_same_layer<F: Feature, G: Feature>(
    name: Seq<char>,
    extent: u32,
    first: Seq<F>,
    second: Seq<G>,
    ext: Bounds,
)
    requires
        first.len() == second.len(),
        forall|i: int| 0 <= i < first.len() ==> record(first[i]) == record(second[i]),
    ensures
        layer_of(name, extent, records(first), ext, first.len()) == layer_of(
            name,
            extent,
            records(second),
            ext,
            second.len(),
        ),
{
    assert(records(first) =~= records(second));
}

/// The feature is the command stream of a drawing that lies on a tile of
/// `extent` units.
pub open spec fn lies_on_tile(f: FeatureModel, extent: u32) -> bool {
    exists|d: crate::screen::Sketch|
        {
            &&& #[trigger] geometry_commands(d) == f.geometry
            &&& d.kind == f.geom_type
            &&& encodable(d)
            &&& crate::screen::parts_on_tile(d.parts, extent as int)
        }
}

/// Every feature of a layer lies on the tile: its command stream is that of
/// a drawing whose every position has a column and a row from 0 up to, and
/// not including, the side of the tile.
pub proof fn lemma_layer_on_tile(name: Seq<char>, extent: u32, rs: Seq<Record>, ext: Bounds, n: nat)
    requires
        n <= rs.len(),
    ensures
        layer_of(name, extent, rs, ext, n).name == name,
        layer_of(name, extent, rs, ext, n).extent == extent,
        forall|j: int|
            0 <= j < layer_of(name, extent, rs, ext, n).features.len() ==> lies_on_tile(
                #[trigger] layer_of(name, extent, rs, ext, n).features[j],
                extent,
            ),
    decreases n,
{
    if n > 0 {
        lemma_layer_on_tile(name, extent, rs, ext, (n - 1) as nat);
        let before = layer_of(name, extent, rs, ext, (n - 1) as nat);
        let after = layer_of(name, extent, rs, ext, n);
        let r = rs[n - 1];
        match shown(r.shape, ext, extent) {
            Some(d) => {
                crate::screen::lemma_drawn_on_tile(r.shape.unwrap(), ext, extent as int);
                assert forall|j: int| 0 <= j < after.features.len() implies lies_on_tile(
                    #[trigger] after.features[j],
                    extent,
                ) by {
                    if j < before.features.len() {
                        assert(after.features[j] == before.features[j]);
                    } else {
                        assert(geometry_commands(d) == after.features[j].geometry);
                    }
                }
            },
            None => {},
        }
    }
}

/// Every position that the command stream of a feature of a layer draws is
/// a position of the tile: reading the stream back leads through columns and
/// rows from 0 up to, and not including, the side of the tile.
pub proof fn lemma_encoded_positions_on_tile(
    name: Seq<char>,
    extent: u32,
    rs: Seq<Record>,
    ext: Bounds,
    n: nat,
)
    requires
        n <= rs.len(),
    ensures
        forall|j: int|
            0 <= j < layer_of(name, extent, rs, ext, n).features.len() ==> crate::screen::parts_on_tile(
                crate::commands::decoded(
                    (#[trigger] layer_of(name, extent, rs, ext, n).features[j]).geom_type,
                    layer_of(name, extent, rs, ext, n).features[j].geometry,
                    0,
                    (0, 0),
                ),
                extent as int,
            ),
{
    let layer = layer_of(name, extent, rs, ext, n);
    lemma_layer_on_tile(name, extent, rs, ext, n);
    assert forall|j: int| 0 <= j < layer.features.len() implies crate::screen::parts_on_tile(
        crate::commands::decoded(
            (#[trigger] layer.features[j]).geom_type,
            layer.features[j].geometry,
            0,
            (0, 0),
        ),
        extent as int,
    ) by {
        let f = layer.features[j];
        assert(lies_on_tile(f, extent));
        let d = choose|d: crate::screen::Sketch|
            {
                &&& #[trigger] geometry_commands(d) == f.geometry
                &&& d.kind == f.geom_type
                &&& encodable(d)
                &&& crate::screen::parts_on_tile(d.parts, extent as int)
            };
        crate::commands::lemma_commands_decode(d);
    }
}

} // verus!
