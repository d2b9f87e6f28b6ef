pub mod polygon;
pub mod rays;
