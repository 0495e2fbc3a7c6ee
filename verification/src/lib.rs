use vstd::prelude::*;

pub mod geometries;
pub mod nodes;
pub mod split;
pub mod utils;

verus! {

pub type Coordinates = (i64, i64);

pub type Geometry = Vec<Coordinates>;

} // verus!
