//! Overpass Turbo exports of OpenStreetMap data, and their resolution into a
//! form where every relation and way embeds the nodes it refers to.
pub mod model;
pub mod simplified;
