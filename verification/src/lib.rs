//! Disk usage model, navigation history, settings and on-disk format
//! parsing for a disk space analyzer.
pub mod format;
pub mod history;
pub mod icon;
pub mod model;
pub mod paths;
pub mod render;
pub mod scan;
pub mod session;
pub mod settings;
pub mod sums;
pub mod text;
pub mod utf16;
pub mod ui;
