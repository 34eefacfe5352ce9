pub mod model;
pub mod rules;
pub mod sanitizer;

pub use model::{Action, EngineChange, Mode, Severity};
pub use rules::classify;
pub use sanitizer::{canonical_projection, is_clean_for_mode, sanitize};
