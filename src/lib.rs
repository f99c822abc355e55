//! Expands a template holding `EACH<a, b, ...>` markers into every combination
//! of the markers' values: the markers are found, every combination of
//! their values is listed with the first marker varying slowest, and each
//! combination gives one output text with each marker replaced by its value.
pub mod scan;
pub mod combine;
pub mod render;
pub mod naming;
pub mod template;
pub mod laws;

pub use scan::{parse_each_blocks, trim_whitespace, EachBlock};
pub use combine::generate_combinations;
pub use render::replace_each_blocks;
pub use naming::{log_line, output_file_name, strip_nnn_bytes};
pub use template::Template;
