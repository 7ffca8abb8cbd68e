//! A two-dimensional point index, an adaptive quadtree that splits full leaves and
//! merges sparse subtrees, together with a dense id store that pairs each live id
//! with a geometric key and an optional payload looked up by identity.
pub mod geom;
pub mod obj_store;
pub mod quadtree;

pub use crate::geom::{dist_sq_point_to_rect, dist_sq_points, Point, Rect};
pub use crate::obj_store::{Entry, ObjStore, Payload, StoreError};
pub use crate::quadtree::{Item, QuadTree};
