pub mod image;
pub mod polygon_label;
pub mod raster;
