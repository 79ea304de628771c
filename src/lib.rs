pub mod catalog;
pub mod launcher;
pub mod query;
pub mod selection;
pub mod text;

pub use catalog::{default_exclusions, default_extensions, discover, hits_exclusion, split_file_name, AppInfo, FoundFile};
pub use launcher::{FerroApp, Frame, Keys};
pub use query::{filter, filter_folded};
pub use selection::{Action, Effect, Selection};
pub use text::{equal_ignoring_ascii_case, is_substring, name_less};
