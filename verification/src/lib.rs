//! Verified core of a small local web viewer for `git status`.
pub mod dynerror;
pub mod git;
pub mod http;
pub mod router;
pub mod text;
pub mod ui_assets;
pub mod util;
pub mod watch;
