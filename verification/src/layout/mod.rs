//! Laid-out text: shaped runs, lines and line breaking.

pub mod advances;
pub mod assemble;
pub mod box_lines;
pub mod box_rows;
pub mod break_lines;
pub mod char_scan;
pub mod commit;
pub mod content_widths;
pub mod counted;
pub mod counted_units;
pub mod coverage;
pub mod data;
pub mod edges;
pub mod extent;
pub mod finish_line;
pub mod flow;
pub mod greedy;
pub mod heights;
pub mod input;
pub mod item_extents;
pub mod item_texts;
pub mod laws;
pub mod lengths;
pub mod line_ends;
pub mod line_items;
pub mod measured;
pub mod plain_lines;
pub mod reorder;
pub mod run_laws;
pub mod scan;
pub mod scanner;
pub mod shaped;
pub mod sizes;
pub mod stacking;
pub mod state;
pub mod text_order;
pub mod text_widths;
pub mod trailing;
pub mod visual;
