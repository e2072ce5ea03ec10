//! Document model, tree steppers, span writers and the caret walker of a
//! collaborative rich-text editor.

pub mod text;
pub mod doc;
pub mod schema;
pub mod order;
pub mod stepper;
pub mod writer;
pub mod validate;
pub mod scan;
pub mod finds;
pub mod walkers;
pub mod laws;
pub mod cursor_path;
