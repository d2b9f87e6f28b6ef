pub mod detections;
pub mod nms;
pub mod order;
pub mod select;
