//! Geographic data: coordinates, point and polygon geometries, and the
//! feature collections that country outlines come in.
use crate::select::{lemma_select_step, selects_exactly};
use std::collections::HashMap;
use vstd::prelude::*;

verus! {

/// A position on the globe, longitude first. Each component is kept as the
/// IEEE-754 bit pattern of its `f64` value: the library only carries
/// positions from one place to another and never computes with them.
#[derive(Clone, Copy, Debug, PartialEq, Eq, Structural)]
pub struct Coordinate {
    pub lon_bits: u64,
    pub lat_bits: u64,
}

/// A single position.
#[derive(Clone, Debug)]
pub struct GeoPoint {
    pub coordinates: Coordinate,
}

/// A set of polygons, each a list of rings, each ring a list of positions.
#[derive(Clone, Debug)]
pub struct GeoMultiPolygon {
    pub coordinates: Vec<Vec<Vec<Coordinate>>>,
}

/// The shape attached to a city or a country.
#[derive(Clone, Debug)]
pub enum Geometry {
    Point(GeoPoint),
    MultiPolygon(GeoMultiPolygon),
}

/// One shape with its named properties.
#[derive(Clone, Debug)]
pub struct Feature {
    pub geometry: Geometry,
    pub properties: HashMap<String, String>,
}

/// A list of features, as country outlines come in.
#[derive(Clone, Debug)]
pub struct FeatureCollection {
    pub features: Vec<Feature>,
}

/// The positions, in order, of the features whose shape is a set of
/// polygons (the outlines to draw); point features are skipped.
pub fn outline_positions(countries: &FeatureCollection) -> (sel: Vec<usize>)
    ensures
        selects_exactly(
            sel@,
            countries.features@.len() as int,
            |i: int| countries.features@[i].geometry is MultiPolygon,
        ),
{
    let ghost p = |i: int| countries.features@[i].geometry is MultiPolygon;
    let mut sel: Vec<usize> = Vec::new();
    for i in 0..countries.features.len()
        invariant
            selects_exactly(sel@, i as int, p),
            p == (|i: int| countries.features@[i].geometry is MultiPolygon),
    {
        let keep = match &countries.features[i].geometry {
            Geometry::MultiPolygon(_) => true,
            Geometry::Point(_) => false,
        };
        proof {
            lemma_select_step(sel@, i, p, keep);
        }
        if keep {
            sel.push(i);
        }
    }
    sel
}

} // verus!
