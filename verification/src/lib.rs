pub mod images;
pub mod laws;
pub mod model;
pub mod packer;
