pub mod area_object;
pub mod line_object;
pub mod merge;
pub mod symbol;
pub mod tag;
pub mod text;

pub use symbol::{AreaSymbol, LineSymbol, PointSymbol, Symbol};
