//! The monitor side of Unison's file watching protocol: what it answers to the
//! commands of the synchroniser, which paths it has watched, and how it turns
//! changes in the file system into reports.

pub mod command_laws;
pub mod fields;
pub mod history;
pub mod laws;
pub mod model;
pub mod monitor;
pub mod path;
pub mod path_laws;
pub mod path_set;
pub mod prefix;
pub mod protocol;
pub mod protocol_laws;
pub mod replica;
pub mod validity;
pub mod watchman;

pub use monitor::{FsEvent, Monitor, MonitorEvent};
pub use path::{FilePath, Syntax};
