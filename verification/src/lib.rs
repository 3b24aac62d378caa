//! Verified core of a terminal picker for workspaces, agents and
//! directories: the rows each source yields, filtering and ordering,
//! selection, key handling, visit history, refresh scheduling and preview
//! arbitration.

pub mod history;
pub mod input;
pub mod model;
pub mod preview;
pub mod provider;
pub mod reader;
pub mod runtime;
pub mod text;
pub mod ui;
