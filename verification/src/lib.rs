//! Prose reflow engine: wraps a paragraph of text to a maximum line width.
//!
//! The engine tokenizes text into whitespace-separated words and packs them
//! into lines, either greedily (each line as full as the left-to-right scan
//! allows) or balanced (least total squared shortfall from the target width
//! over the same number of lines the greedy scan uses), optionally exempting
//! the paragraph's final line from the balancing objective.
pub mod balanced;
pub mod engine;
pub mod greedy;
pub mod model;
pub mod render;
pub mod words;

pub use balanced::pack_balanced;
pub use engine::reformat;
pub use engine::FormatOpts;
pub use greedy::pack_greedy;
pub use render::render;
pub use words::tokenize;
