pub mod canvas;
pub mod color;
pub mod graph;
pub mod math;
pub mod raster;

pub use canvas::{Ctx, DrawError};
pub use color::{Hex, Rgba};
pub use graph::{GraphAction, GraphCtx};
pub use math::Vec2D;
