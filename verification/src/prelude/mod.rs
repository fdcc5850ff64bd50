//! What the library keeps of the prelude: the decisions its builtins make
//! on plain values.

pub mod collections;
pub mod builtins;
pub mod meta;
pub mod numbers;

pub use collections::clamp_range;
pub use meta::special_form_doc;
