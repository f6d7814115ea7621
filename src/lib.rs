//! Renders a tree of structured values as bordered tables laid out by
//! nesting depth, joined by routed connector lines.

mod cells;
mod connections;
mod display;
mod layer;
mod map;
mod text;
mod value;

pub use cells::VidereCell;
pub use connections::{Glyph, LayerConnector};
pub use display::Display;
pub use layer::VidereLayer;
pub use map::VidereMap;
pub use value::{JsonValue, NumberText, VidereValue};
