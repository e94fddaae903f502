use vstd::prelude::*;
use crate::error::TileError;
use crate::feature::Feature;
use crate::grid::{Extent, Grid};
use crate::layer::Layer;

verus! {

/// A source of features. Each kind of source has its own implementation,
/// with the state that it needs and no more.
///
/// No method promises anything of what it returns: a source reads from
/// outside the program, and a caller has to work with whatever comes back.
pub trait DatasourceInput {
    /// The records that the source hands out.
    type Feat: Feature;

    /// The layers that the source holds, for listing them.
    fn detect_layers(&self) -> Vec<Layer>;

    /// The features of `layer` that may touch the box `extent`, in the order
    /// of the source, or none where the layer is not shown at `zoom`. A
    /// source that cannot be opened or read fails with
    /// `DatasourceUnavailable`.
    fn retrieve_features(&self, layer: &Layer, extent: &Extent, zoom: u8, grid: &Grid) -> Result<
        Vec<Self::Feat>,
        TileError,
    >;
}

/// A vector-file datasource, identified by the path of the dataset it reads.
#[derive(Clone, Debug, PartialEq, Eq)]
pub struct GdalDatasource {
    pub path: String,
}

impl GdalDatasource {
    /// A datasource for the dataset at `path`.
    pub fn new(path: &str) -> (ds: GdalDatasource)
        ensures
            ds.path@ == path@,
    {
        GdalDatasource { path: path.to_owned() }
    }

    /// What of the dataset is to be read for `layer` at `zoom`.
    pub open spec fn table_of(layer: Layer, zoom: u8) -> Result<Option<Seq<char>>, TileError> {
        if !layer.shown_at(zoom as int) {
            Ok(None)
        } else {
            match layer.table_name {
                Some(name) => Ok(Some(name@)),
                None => Err(TileError::DatasourceUnavailable),
            }
        }
    }

    /// The name of the table of the dataset that holds the features of
    /// `layer`, or `None` where the layer is not shown at `zoom` and nothing
    /// is to be read.
    ///
    /// Fails with `DatasourceUnavailable` exactly where the layer is shown at
    /// `zoom` and names no table.
    pub fn table(&self, layer: &Layer, zoom: u8) -> (r: Result<Option<String>, TileError>)
        ensures
            match r {
                Ok(Some(name)) => Self::table_of(*layer, zoom) == Ok::<_, TileError>(Some(name@)),
                Ok(None) => Self::table_of(*layer, zoom) == Ok::<Option<Seq<char>>, TileError>(None),
                Err(e) => Self::table_of(*layer, zoom) == Err::<Option<Seq<char>>, _>(e),
            },
    {
        if !layer.applies_at(zoom as u16) {
            return Ok(None);
        }
        match &layer.table_name {
            Some(name) => Ok(Some(name.clone())),
            None => Err(TileError::DatasourceUnavailable),
        }
    }
}

} // verus!
