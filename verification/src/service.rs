use vstd::prelude::*;
use crate::datasource::DatasourceInput;
use crate::error::TileError;
use crate::grid::{Bounds, Grid};
use crate::layer::Layer;
use crate::tile::{empty_layer, encode_fetched, layer_from, LayerModel, Tile, TileLayer};

verus! {

/// The side of every tile in tile units.
pub const TILE_EXTENT: u32 = 4096;

/// A named group of layers.
#[derive(Clone, Debug, PartialEq, Eq)]
pub struct Topic {
    pub name: String,
    pub layers: Vec<String>,
}

/// Makes tiles from the layers of a datasource on a grid.
pub struct MvtService<D: DatasourceInput> {
    pub input: D,
    pub grid: Grid,
    pub layers: Vec<Layer>,
    pub topics: Vec<Topic>,
}

/// The name of the topic that every layer belongs to.
pub open spec fn every_layer() -> Seq<char> {
    "all"@
}

/// The topic lists a layer called `layer`.
pub open spec fn lists(topic: Topic, layer: Seq<char>) -> bool {
    exists|i: int| 0 <= i < topic.layers@.len() && (#[trigger] topic.layers@[i])@ == layer
}

/// The layer called `layer` belongs to the topic called `topic`: every
/// layer belongs to the topic "all", and a layer belongs to any other topic
/// where a topic of that name lists it.
pub open spec fn belongs(topics: Seq<Topic>, topic: Seq<char>, layer: Seq<char>) -> bool {
    topic == every_layer() || exists|i: int|
        0 <= i < topics.len() && (#[trigger] topics[i]).name@ == topic && lists(topics[i], layer)
}

/// The indices of those of the first `n` layers that belong to the topic
/// called `topic`, in the order of the layers.
pub open spec fn chosen(layers: Seq<Layer>, topics: Seq<Topic>, topic: Seq<char>, n: nat) -> Seq<
    int,
>
    decreases n,
{
    if n == 0 {
        Seq::empty()
    } else if belongs(topics, topic, layers[n - 1].name@) {
        chosen(layers, topics, topic, (n - 1) as nat).push(n - 1)
    } else {
        chosen(layers, topics, topic, (n - 1) as nat)
    }
}

/// `model` is what `layer` shows at zoom `z` on the tile over the box `ext`
/// for something that the datasource may have given: a layer without
/// features where the layer is not shown at that zoom, and else the layer
/// made of the features that the datasource gave, or without features where
/// the datasource failed.
pub open spec fn renders<D: DatasourceInput>(model: LayerModel, layer: Layer, z: u16, ext: Bounds) -> bool {
    if layer.shown_at(z as int) {
        exists|fetched: Result<Vec<D::Feat>, TileError>| #[trigger]
            layer_from(layer.name@, TILE_EXTENT, fetched, ext) == model
    } else {
        model == empty_layer(layer.name@, TILE_EXTENT)
    }
}

/// Whether `topic` lists a layer called `layer`.
fn topic_lists(topic: &Topic, layer: &String) -> (r: bool)
    ensures
        r == lists(*topic, layer@),
{
    let mut i: usize = 0;
    while i < topic.layers.len()
        invariant
            i <= topic.layers.len(),
            forall|j: int| 0 <= j < i ==> (#[trigger] topic.layers@[j])@ != layer@,
        decreases topic.layers.len() - i,
    {
        if topic.layers[i] == *layer {
            return true;
        }
        i += 1;
    }
    false
}

impl<D: DatasourceInput> MvtService<D> {
    /// A service for the given datasource, grid, layers and topics.
    pub fn new(input: D, grid: Grid, layers: Vec<Layer>, topics: Vec<Topic>) -> (service: Self)
        ensures
            service.input == input,
            service.grid == grid,
            service.layers == layers,
            service.topics == topics,
    {
        MvtService { input, grid, layers, topics }
    }

    /// Whether the layer called `layer` belongs to the topic called `topic`.
    pub fn in_topic(&self, topic: &str, layer: &String) -> (r: bool)
        ensures
            r == belongs(self.topics@, topic@, layer@),
    {
        let wanted = topic.to_owned();
        if wanted == "all".to_owned() {
            return true;
        }
        let mut i: usize = 0;
        while i < self.topics.len()
            invariant
                i <= self.topics.len(),
                wanted@ == topic@,
                forall|j: int|
                    0 <= j < i ==> !((#[trigger] self.topics@[j]).name@ == topic@ && lists(
                        self.topics@[j],
                        layer@,
                    )),
            decreases self.topics.len() - i,
        {
            if self.topics[i].name == wanted && topic_lists(&self.topics[i], layer) {
                return true;
            }
            i += 1;
        }
        false
    }

    /// The indices of the layers of the topic called `topic`, in the order
    /// of the layers. A topic that is neither "all" nor the name of a topic
    /// has no layers.
    pub fn resolve_layers(&self, topic: &str) -> (r: Vec<usize>)
        ensures
            r@.len() == chosen(self.layers@, self.topics@, topic@, self.layers@.len()).len(),
            forall|i: int|
                0 <= i < r@.len() ==> #[trigger] r@[i] == chosen(
                    self.layers@,
                    self.topics@,
                    topic@,
                    self.layers@.len(),
                )[i],
            forall|i: int| 0 <= i < r@.len() ==> #[trigger] r@[i] < self.layers@.len(),
    {
        let mut r: Vec<usize> = Vec::new();
        let mut i: usize = 0;
        while i < self.layers.len()
            invariant
                i <= self.layers.len(),
                r@.len() == chosen(self.layers@, self.topics@, topic@, i as nat).len(),
                forall|j: int|
                    0 <= j < r@.len() ==> #[trigger] r@[j] == chosen(
                        self.layers@,
                        self.topics@,
                        topic@,
                        i as nat,
                    )[j],
                forall|j: int| 0 <= j < r@.len() ==> #[trigger] r@[j] < i,
            decreases self.layers.len() - i,
        {
            if self.in_topic(topic, &self.layers[i].name) {
                r.push(i);
            }
            i += 1;
        }
        r
    }

    /// The tile at column `x`, row `y` of zoom `z` with the layers of the
    /// topic called `topic`.
    ///
    /// The tile has no layers where the grid has no such tile. Else it has
    /// one layer for each layer of the topic, in their order and under their
    /// names. What the datasource gives for one layer decides that layer and
    /// no other: a layer that the datasource fails on has no features.
    pub fn tile(&self, topic: &str, x: u16, y: u16, z: u16) -> (tile: Tile)
        ensures
            !Grid::valid_address(z, x, y) ==> tile@.layers.len() == 0,
            Grid::valid_address(z, x, y) ==> {
                let picked = chosen(self.layers@, self.topics@, topic@, self.layers@.len());
                let ext = self.grid.extent_of(z as nat, x as int, y as int);
                &&& tile@.layers.len() == picked.len()
                &&& forall|i: int|
                    0 <= i < picked.len() ==> renders::<D>(
                        #[trigger] tile@.layers[i],
                        self.layers@[picked[i]],
                        z,
                        ext,
                    )
            },
    {
        let mut layers: Vec<TileLayer> = Vec::new();
        let ext = match self.grid.extent(z, x, y) {
            Ok(ext) => ext,
            Err(_) => {
                return Tile { layers };
            },
        };
        let picked = self.resolve_layers(topic);
        let ghost wanted = chosen(self.layers@, self.topics@, topic@, self.layers@.len());
        let mut i: usize = 0;
        while i < picked.len()
            invariant
                i <= picked.len(),
                picked@.len() == wanted.len(),
                forall|j: int| 0 <= j < picked@.len() ==> #[trigger] picked@[j] == wanted[j],
                forall|j: int| 0 <= j < picked@.len() ==> #[trigger] picked@[j] < self.layers@.len(),
                layers@.len() == i,
                forall|j: int|
                    0 <= j < i ==> renders::<D>(
                        (#[trigger] layers@[j])@,
                        self.layers@[wanted[j]],
                        z,
                        ext@,
                    ),
            decreases picked.len() - i,
        {
            let layer = &self.layers[picked[i]];
            let made = if layer.applies_at(z) {
                let fetched = self.input.retrieve_features(layer, &ext, z as u8, &self.grid);
                let made = encode_fetched(layer.name.as_str(), TILE_EXTENT, &fetched, &ext);
                assert(layer_from(layer.name@, TILE_EXTENT, fetched, ext@) == made@);
                made
            } else {
                TileLayer::new(layer.name.as_str(), TILE_EXTENT)
            };
            assert(renders::<D>(made@, self.layers@[wanted[i as int]], z, ext@));
            layers.push(made);
            i += 1;
        }
        let tile = Tile { layers };
        assert forall|j: int| 0 <= j < wanted.len() implies renders::<D>(
            #[trigger] tile@.layers[j],
            self.layers@[wanted[j]],
            z,
            ext@,
        ) by {
            assert(tile@.layers[j] == layers@[j]@);
        }
        tile
    }
}

} // verus!
