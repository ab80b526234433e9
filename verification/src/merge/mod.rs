//! Multi-manager merge and apply: conflicts and the updater.

pub mod conflict;
pub mod updater;

pub use conflict::{conflicts_from_managers, Conflict, ConflictView, Conflicts};
pub use updater::{
    ApplyError, ConversionError, Converter, ExcludeSetFilter, Filter, UpdateError, Updater, UpdaterBuilder,
};
