pub mod axes;
pub mod border;
