//! Verified building blocks for turning map features into a single route.
//!
//! A route is gathered in one of two ways. Where the map comes as a grid of
//! vector tiles, [`grid`] walks the tiles, [`feature`] keeps the features of
//! one layer of a decoded tile, [`coordinates`] flattens their nested
//! coordinates, and [`route`] merges what each tile adds into one sequence
//! per feature without repeating the vertices that neighbouring tiles share;
//! [`pipeline`] puts these steps together for one tile. Where the map comes
//! as loose path segments, [`assembly`] stitches them into one run of points
//! by a list of instructions.
//!
//! Fetching, decoding, reprojecting and writing files are left to the caller.

pub mod assembly;
pub mod coordinates;
pub mod feature;
pub mod grid;
pub mod pipeline;
pub mod route;
