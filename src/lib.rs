//! Signed distance fields over fixed-point coordinates, a sphere-tracing
//! marcher, and the multi-dimensional index arithmetic used to walk pixel grids.
pub mod multi_dims;
pub mod multi_range;
pub mod fixed;
pub mod vector;
pub mod sdf;
pub mod items;
pub mod shapes;
pub mod combinators;
pub mod interpolate;
pub mod smooth_union;
pub mod transforms;
pub mod info;
pub mod marcher;
pub mod renderer;
