use vstd::prelude::*;

verus! {

/// A configured feature collection: which object of the datasource to read,
/// how to find a feature's id, and at which zooms the layer is shown.
#[derive(Clone, Debug, PartialEq, Eq)]
pub struct Layer {
    pub name: String,
    pub table_name: Option<String>,
    pub geometry_type: Option<String>,
    pub srid: Option<i32>,
    pub fid_field: Option<String>,
    pub minzoom: u8,
    pub maxzoom: u8,
    pub query: Option<String>,
}

impl Layer {
    /// A layer called `name` that reads the object of the same name, with no
    /// id field, no spatial reference, and shown at every zoom.
    pub fn new(name: &str) -> (layer: Layer)
        ensures
            layer.name@ == name@,
            layer.table_name matches Some(t) && t@ == name@,
            layer.geometry_type.is_none(),
            layer.srid.is_none(),
            layer.fid_field.is_none(),
            layer.minzoom == 0,
            layer.maxzoom == 255,
            layer.query.is_none(),
    {
        Layer {
            name: name.to_owned(),
            table_name: Some(name.to_owned()),
            geometry_type: None,
            srid: None,
            fid_field: None,
            minzoom: 0,
            maxzoom: 255,
            query: None,
        }
    }

    /// The layer is shown at `zoom`.
    pub open spec fn shown_at(&self, zoom: int) -> bool {
        self.minzoom <= zoom <= self.maxzoom
    }

    /// Whether the layer is shown at `zoom`.
    pub fn applies_at(&self, zoom: u16) -> (r: bool)
        ensures
            r == self.shown_at(zoom as int),
    {
        self.minzoom as u16 <= zoom && zoom <= self.maxzoom as u16
    }
}

} // verus!
