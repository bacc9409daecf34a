pub mod bounded_rect;
pub mod geometry;
pub mod layer;
pub mod layer_json_exporter;
pub mod processor;
pub mod segmentation;
pub mod triangulator;
pub mod vertex;
