//! String-art path synthesis: peg ring generation, chord rasterization,
//! greedy thread-path selection, and preview rendering.

pub mod args;
pub mod artifact;
pub mod engine;
pub mod geometry;
pub mod lines;
pub mod render;
pub mod select;

pub use args::get_argument_value;
pub use artifact::path_text;
pub use engine::generate;
pub use geometry::constrain;
pub use geometry::Point;
pub use geometry::circle_coords;
pub use lines::LineID;
pub use lines::LineTable;
pub use lines::bresenham;
pub use lines::get_line_id;
pub use lines::map_of_lines;
