//! Live awareness of a set of watched directories: the watch table with its
//! symlink aliases, the classification and debouncing of native events, and
//! the notifications that a batch of changed paths gives rise to.

pub mod path;
pub mod table;
pub mod classify;
pub mod debounce;
pub mod dispatch;
pub mod watcher;
pub mod exec;
pub mod tab;
pub mod create;
