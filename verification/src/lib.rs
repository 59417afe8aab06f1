//! Grid path generation for laser-cut drawings: boundary grids, shortest
//! and "longest" (greedy, non-self-intersecting) paths, and the small pieces
//! of drawing logic that do not involve floating point.

pub mod kinds;
pub mod grid;
pub mod moves;
pub mod route;
pub mod line;
pub mod explore;
pub mod longest;
pub mod scene;
pub mod polyline;
pub mod walls;
pub mod controls;
