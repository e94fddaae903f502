use vstd::prelude::*;
use vstd::utf8::encode_utf8;
use crate::feature::{as_unsigned, unsigned, AttrValue, FeatureAttrValType};
use crate::screen::GeomType;
use crate::tile::{
    feature_seq, key_seq, value_seq, FeatureModel, LayerModel, Tile, TileFeature, TileLayer,
    TileModel,
};

verus! {

/// The version of the tile format that a layer declares.
pub const FORMAT_VERSION: u32 = 2;

/// A number in base 128, lowest digit first, one digit to a byte, with the
/// top bit of every byte but the last set.
pub open spec fn varint(v: nat) -> Seq<u8>
    decreases v,
{
    if v < 128 {
        seq![v as u8]
    } else {
        seq![(v % 128 + 128) as u8] + varint(v / 128)
    }
}

/// The key of a field: its number and the type of its encoding.
pub open spec fn key(field: nat, wire: nat) -> Seq<u8> {
    varint(field * 8 + wire)
}

/// A field whose value is a run of bytes, preceded by its length.
pub open spec fn delimited(field: nat, bytes: Seq<u8>) -> Seq<u8> {
    key(field, 2) + varint(bytes.len()) + bytes
}

/// The lowest `width` bytes of `v`, lowest first.
pub open spec fn little_endian(v: nat, width: nat) -> Seq<u8>
    decreases width,
{
    if width == 0 {
        Seq::empty()
    } else {
        seq![(v % 256) as u8] + little_endian(v / 256, (width - 1) as nat)
    }
}

/// The first `n` of `words`, each as a number in base 128.
pub open spec fn packed(words: Seq<u32>, n: nat) -> Seq<u8>
    decreases n,
{
    if n == 0 {
        Seq::empty()
    } else {
        packed(words, (n - 1) as nat) + varint(words[n - 1] as nat)
    }
}

/// The first `n` index pairs, key index before value index.
pub open spec fn packed_pairs(tags: Seq<(u32, u32)>, n: nat) -> Seq<u8>
    decreases n,
{
    if n == 0 {
        Seq::empty()
    } else {
        packed_pairs(tags, (n - 1) as nat) + varint(tags[n - 1].0 as nat) + varint(
            tags[n - 1].1 as nat,
        )
    }
}

/// A signed number as an unsigned one: non-negative numbers become even,
/// negative numbers odd.
pub open spec fn zigzag64(v: int) -> nat {
    if v >= 0 {
        (2 * v) as nat
    } else {
        (-2 * v - 1) as nat
    }
}

/// An attribute value as a message with the one field of its type.
pub open spec fn value_bytes(v: AttrValue) -> Seq<u8> {
    match v {
        AttrValue::String(s) => delimited(1, encode_utf8(s)),
        AttrValue::Float(bits) => key(2, 5) + little_endian(bits as nat, 4),
        AttrValue::Double(bits) => key(3, 1) + little_endian(bits as nat, 8),
        AttrValue::Int(i) => key(4, 0) + varint(as_unsigned(i as int) as nat),
        AttrValue::UInt(u) => key(5, 0) + varint(u as nat),
        AttrValue::SInt(i) => key(6, 0) + varint(zigzag64(i as int)),
        AttrValue::Bool(b) => key(7, 0) + varint(
            if b {
                1
            } else {
                0
            },
        ),
    }
}

/// The number that stands for a kind of drawing.
pub open spec fn geom_code(kind: GeomType) -> nat {
    match kind {
        GeomType::Point => 1,
        GeomType::LineString => 2,
        GeomType::Polygon => 3,
    }
}

/// A feature as a message: its id where it has one, its index pairs where
/// it has any, the kind of its drawing, and its command stream.
pub open spec fn feature_bytes(f: FeatureModel) -> Seq<u8> {
    id_bytes(f.id) + packed_field(2, packed_pairs(f.tags, f.tags.len()), f.tags.len()) + key(3, 0)
        + varint(geom_code(f.geom_type)) + packed_field(
        4,
        packed(f.geometry, f.geometry.len()),
        f.geometry.len(),
    )
}

/// The first `n` features, each as a field of its layer.
pub open spec fn features_bytes(features: Seq<FeatureModel>, n: nat) -> Seq<u8>
    decreases n,
{
    if n == 0 {
        Seq::empty()
    } else {
        features_bytes(features, (n - 1) as nat) + delimited(2, feature_bytes(features[n - 1]))
    }
}

/// The first `n` keys, each as a field of its layer.
pub open spec fn keys_bytes(keys: Seq<Seq<char>>, n: nat) -> Seq<u8>
    decreases n,
{
    if n == 0 {
        Seq::empty()
    } else {
        keys_bytes(keys, (n - 1) as nat) + delimited(3, encode_utf8(keys[n - 1]))
    }
}

/// The first `n` values, each as a field of its layer.
pub open spec fn values_bytes(values: Seq<AttrValue>, n: nat) -> Seq<u8>
    decreases n,
{
    if n == 0 {
        Seq::empty()
    } else {
        values_bytes(values, (n - 1) as nat) + delimited(4, value_bytes(values[n - 1]))
    }
}

/// A layer as a message: the version of the format, the name of the layer,
/// its features, its keys, its values, and the side of the tile.
pub open spec fn layer_bytes(l: LayerModel) -> Seq<u8> {
    key(15, 0) + varint(FORMAT_VERSION as nat) + delimited(1, encode_utf8(l.name))
        + features_bytes(l.features, l.features.len()) + keys_bytes(l.keys, l.keys.len())
        + values_bytes(l.values, l.values.len()) + key(5, 0) + varint(l.extent as nat)
}

/// The first `n` layers, each as a field of the tile.
pub open spec fn layers_bytes(layers: Seq<LayerModel>, n: nat) -> Seq<u8>
    decreases n,
{
    if n == 0 {
        Seq::empty()
    } else {
        layers_bytes(layers, (n - 1) as nat) + delimited(3, layer_bytes(layers[n - 1]))
    }
}

/// A tile as a message of its layers.
pub open spec fn tile_bytes(t: TileModel) -> Seq<u8> {
    layers_bytes(t.layers, t.layers.len())
}

fn push_varint(out: &mut Vec<u8>, v: u64)
    ensures
        final(out)@ == old(out)@ + varint(v as nat),
{
    let mut rest: u64 = v;
    assert(out@ + varint(rest as nat) =~= old(out)@ + varint(v as nat));
    while rest >= 128
        invariant
            out@ + varint(rest as nat) == old(out)@ + varint(v as nat),
        decreases rest,
    {
        let ghost head = out@;
        out.push((rest % 128 + 128) as u8);
        assert(out@ + varint((rest / 128) as nat) =~= head + varint(rest as nat));
        rest = rest / 128;
    }
    let ghost head = out@;
    out.push(rest as u8);
    assert(out@ =~= head + varint(rest as nat));
}

fn push_key(out: &mut Vec<u8>, field: u32, wire: u32)
    requires
        field < 0x1000_0000,
        wire < 8,
    ensures
        final(out)@ == old(out)@ + key(field as nat, wire as nat),
{
    push_varint(out, (field * 8 + wire) as u64);
}

fn push_little_endian(out: &mut Vec<u8>, v: u64, width: u8)
    ensures
        final(out)@ == old(out)@ + little_endian(v as nat, width as nat),
{
    let mut rest: u64 = v;
    let mut left: u8 = width;
    assert(out@ + little_endian(rest as nat, left as nat) =~= old(out)@ + little_endian(
        v as nat,
        width as nat,
    ));
    while left > 0
        invariant
            out@ + little_endian(rest as nat, left as nat) == old(out)@ + little_endian(
                v as nat,
                width as nat,
            ),
        decreases left,
    {
        let ghost head = out@;
        out.push((rest % 256) as u8);
        assert(out@ + little_endian((rest / 256) as nat, (left - 1) as nat) =~= head
            + little_endian(rest as nat, left as nat));
        rest = rest / 256;
        left = left - 1;
    }
    assert(out@ =~= out@ + little_endian(rest as nat, 0));
}

/// Appends a field whose value is the bytes of `body`.
fn push_delimited(out: &mut Vec<u8>, field: u32, body: &mut Vec<u8>)
    requires
        field < 0x1000_0000,
    ensures
        final(out)@ == old(out)@ + delimited(field as nat, old(body)@),
{
    push_key(out, field, 2);
    push_varint(out, body.len() as u64);
    out.append(body);
    assert(out@ =~= old(out)@ + delimited(field as nat, old(body)@));
}

/// Appends a field whose value is the text `s`.
fn push_text(out: &mut Vec<u8>, field: u32, s: &str)
    requires
        field < 0x1000_0000,
    ensures
        final(out)@ == old(out)@ + delimited(field as nat, encode_utf8(s@)),
{
    let bytes = s.as_bytes();
    let mut body: Vec<u8> = Vec::new();
    let mut i: usize = 0;
    while i < bytes.len()
        invariant
            i <= bytes.len(),
            body@ == bytes@.subrange(0, i as int),
        decreases bytes.len() - i,
    {
        body.push(bytes[i]);
        assert(body@ =~= bytes@.subrange(0, i + 1));
        i += 1;
    }
    assert(body@ =~= bytes@);
    push_delimited(out, field, &mut body);
}

fn zigzag64_of(v: i64) -> (r: u64)
    ensures
        r == zigzag64(v as int),
{
    if v >= 0 {
        2 * (v as u64)
    } else {
        2 * ((-(v + 1)) as u64) + 1
    }
}

fn push_value(out: &mut Vec<u8>, value: &FeatureAttrValType)
    ensures
        final(out)@ == old(out)@ + value_bytes(value@),
{
    match value {
        FeatureAttrValType::String(s) => {
            push_text(out, 1, s.as_str());
        },
        FeatureAttrValType::Float(bits) => {
            push_key(out, 2, 5);
            push_little_endian(out, *bits as u64, 4);
        },
        FeatureAttrValType::Double(bits) => {
            push_key(out, 3, 1);
            push_little_endian(out, *bits, 8);
        },
        FeatureAttrValType::Int(i) => {
            push_key(out, 4, 0);
            push_varint(out, unsigned(*i));
        },
        FeatureAttrValType::UInt(u) => {
            push_key(out, 5, 0);
            push_varint(out, *u);
        },
        FeatureAttrValType::SInt(i) => {
            push_key(out, 6, 0);
            push_varint(out, zigzag64_of(*i));
        },
        FeatureAttrValType::Bool(b) => {
            push_key(out, 7, 0);
            push_varint(
                out,
                if *b {
                    1
                } else {
                    0
                },
            );
        },
    }
    assert(out@ =~= old(out)@ + value_bytes(value@));
}

/// The index pairs, one number after the other.
fn pairs_body(tags: &Vec<(u32, u32)>) -> (body: Vec<u8>)
    ensures
        body@ == packed_pairs(tags@, tags@.len()),
{
    let mut body: Vec<u8> = Vec::new();
    let mut i: usize = 0;
    assert(body@ =~= packed_pairs(tags@, 0));
    while i < tags.len()
        invariant
            i <= tags.len(),
            body@ == packed_pairs(tags@, i as nat),
        decreases tags.len() - i,
    {
        push_varint(&mut body, tags[i].0 as u64);
        push_varint(&mut body, tags[i].1 as u64);
        i += 1;
    }
    body
}

/// The words, one number after the other.
fn words_body(words: &Vec<u32>) -> (body: Vec<u8>)
    ensures
        body@ == packed(words@, words@.len()),
{
    let mut body: Vec<u8> = Vec::new();
    let mut i: usize = 0;
    assert(body@ =~= packed(words@, 0));
    while i < words.len()
        invariant
            i <= words.len(),
            body@ == packed(words@, i as nat),
        decreases words.len() - i,
    {
        push_varint(&mut body, words[i] as u64);
        i += 1;
    }
    body
}

/// The id of a feature as a field, where the feature has one.
pub open spec fn id_bytes(id: Option<u64>) -> Seq<u8> {
    match id {
        Some(id) => key(1, 0) + varint(id as nat),
        None => Seq::empty(),
    }
}

/// A run of numbers as a field, where there is any number.
pub open spec fn packed_field(field: nat, body: Seq<u8>, count: nat) -> Seq<u8> {
    if count > 0 {
        delimited(field, body)
    } else {
        Seq::empty()
    }
}

fn push_id(out: &mut Vec<u8>, id: Option<u64>)
    ensures
        final(out)@ == old(out)@ + id_bytes(id),
{
    if let Some(id) = id {
        push_key(out, 1, 0);
        push_varint(out, id);
        assert(out@ =~= old(out)@ + id_bytes(Some(id)));
    } else {
        assert(out@ =~= old(out)@ + id_bytes(None));
    }
}

fn push_packed(out: &mut Vec<u8>, field: u32, body: &mut Vec<u8>, count: usize)
    requires
        field < 0x1000_0000,
    ensures
        final(out)@ == old(out)@ + packed_field(field as nat, old(body)@, count as nat),
{
    if count > 0 {
        push_delimited(out, field, body);
    } else {
        assert(out@ =~= old(out)@ + Seq::<u8>::empty());
    }
}

fn push_kind(out: &mut Vec<u8>, kind: GeomType)
    ensures
        final(out)@ == old(out)@ + (key(3, 0) + varint(geom_code(kind))),
{
    push_key(out, 3, 0);
    push_varint(
        out,
        match kind {
            GeomType::Point => 1,
            GeomType::LineString => 2,
            GeomType::Polygon => 3,
        },
    );
    assert(out@ =~= old(out)@ + (key(3, 0) + varint(geom_code(kind))));
}

fn push_feature(out: &mut Vec<u8>, feature: &TileFeature)
    ensures
        final(out)@ == old(out)@ + feature_bytes(feature@),
{
    let ghost f = feature@;
    let ghost a = id_bytes(f.id);
    let ghost b = packed_field(2, packed_pairs(f.tags, f.tags.len()), f.tags.len());
    let ghost c = key(3, 0) + varint(geom_code(f.geom_type));
    let ghost d = packed_field(4, packed(f.geometry, f.geometry.len()), f.geometry.len());
    push_id(out, feature.id);
    let mut pairs = pairs_body(&feature.tags);
    push_packed(out, 2, &mut pairs, feature.tags.len());
    push_kind(out, feature.geom_type);
    let mut words = words_body(&feature.geometry);
    push_packed(out, 4, &mut words, feature.geometry.len());
    assert(out@ == old(out)@ + a + b + c + d);
    assert(feature_bytes(f) =~= a + b + c + d);
    assert(old(out)@ + a + b + c + d =~= old(out)@ + (a + b + c + d));
}

fn push_features(out: &mut Vec<u8>, features: &Vec<TileFeature>)
    ensures
        final(out)@ == old(out)@ + features_bytes(feature_seq(features@), features@.len()),
{
    let ghost model = feature_seq(features@);
    let mut i: usize = 0;
    assert(out@ =~= old(out)@ + features_bytes(model, 0));
    while i < features.len()
        invariant
            i <= features.len(),
            model == feature_seq(features@),
            out@ == old(out)@ + features_bytes(model, i as nat),
        decreases features.len() - i,
    {
        let mut body: Vec<u8> = Vec::new();
        push_feature(&mut body, &features[i]);
        assert(body@ =~= feature_bytes(model[i as int]));
        push_delimited(out, 2, &mut body);
        assert(out@ =~= old(out)@ + features_bytes(model, (i + 1) as nat));
        i += 1;
    }
}

fn push_keys(out: &mut Vec<u8>, keys: &Vec<String>)
    ensures
        final(out)@ == old(out)@ + keys_bytes(key_seq(keys@), keys@.len()),
{
    let ghost model = key_seq(keys@);
    let mut i: usize = 0;
    assert(out@ =~= old(out)@ + keys_bytes(model, 0));
    while i < keys.len()
        invariant
            i <= keys.len(),
            model == key_seq(keys@),
            out@ == old(out)@ + keys_bytes(model, i as nat),
        decreases keys.len() - i,
    {
        assert(model[i as int] == keys@[i as int]@);
        push_text(out, 3, keys[i].as_str());
        assert(out@ =~= old(out)@ + keys_bytes(model, (i + 1) as nat));
        i += 1;
    }
}

fn push_values(out: &mut Vec<u8>, values: &Vec<FeatureAttrValType>)
    ensures
        final(out)@ == old(out)@ + values_bytes(value_seq(values@), values@.len()),
{
    let ghost model = value_seq(values@);
    let mut i: usize = 0;
    assert(out@ =~= old(out)@ + values_bytes(model, 0));
    while i < values.len()
        invariant
            i <= values.len(),
            model == value_seq(values@),
            out@ == old(out)@ + values_bytes(model, i as nat),
        decreases values.len() - i,
    {
        let mut body: Vec<u8> = Vec::new();
        push_value(&mut body, &values[i]);
        assert(body@ =~= value_bytes(model[i as int]));
        push_delimited(out, 4, &mut body);
        assert(out@ =~= old(out)@ + values_bytes(model, (i + 1) as nat));
        i += 1;
    }
}

fn push_version(out: &mut Vec<u8>)
    ensures
        final(out)@ == old(out)@ + (key(15, 0) + varint(FORMAT_VERSION as nat)),
{
    push_key(out, 15, 0);
    push_varint(out, FORMAT_VERSION as u64);
    assert(out@ =~= old(out)@ + (key(15, 0) + varint(FORMAT_VERSION as nat)));
}

fn push_extent(out: &mut Vec<u8>, extent: u32)
    ensures
        final(out)@ == old(out)@ + (key(5, 0) + varint(extent as nat)),
{
    push_key(out, 5, 0);
    push_varint(out, extent as u64);
    assert(out@ =~= old(out)@ + (key(5, 0) + varint(extent as nat)));
}

fn push_layer(out: &mut Vec<u8>, layer: &TileLayer)
    ensures
        final(out)@ == old(out)@ + layer_bytes(layer@),
{
    let ghost l = layer@;
    let ghost a = key(15, 0) + varint(FORMAT_VERSION as nat);
    let ghost b = delimited(1, encode_utf8(l.name));
    let ghost c = features_bytes(l.features, l.features.len());
    let ghost d = keys_bytes(l.keys, l.keys.len());
    let ghost e = values_bytes(l.values, l.values.len());
    let ghost f = key(5, 0) + varint(l.extent as nat);
    push_version(out);
    push_text(out, 1, layer.name.as_str());
    push_features(out, &layer.features);
    push_keys(out, &layer.keys);
    push_values(out, &layer.values);
    push_extent(out, layer.extent);
    assert(out@ == old(out)@ + a + b + c + d + e + f);
    assert(layer_bytes(l) =~= a + b + c + d + e + f);
    assert(old(out)@ + a + b + c + d + e + f =~= old(out)@ + (a + b + c + d + e + f));
}

impl Tile {
    /// The tile as the bytes that are sent: a message of layers, each a
    /// message of features, keys and values.
    pub fn binary_tile(&self) -> (bytes: Vec<u8>)
        ensures
            bytes@ == tile_bytes(self@),
    {
        let mut out: Vec<u8> = Vec::new();
        let mut i: usize = 0;
        while i < self.layers.len()
            invariant
                i <= self.layers.len(),
                out@ == layers_bytes(self@.layers, i as nat),
            decreases self.layers.len() - i,
        {
            let mut body: Vec<u8> = Vec::new();
            push_layer(&mut body, &self.layers[i]);
            assert(body@ =~= layer_bytes(self@.layers[i as int]));
            push_delimited(&mut out, 3, &mut body);
            i += 1;
        }
        out
    }
}

} // verus!
