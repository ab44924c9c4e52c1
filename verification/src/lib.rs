//! Selection of applications to install from application and dependency
//! lists, with interactive menu groups, and the texts written out for the
//! installation.
pub mod cli;
pub mod conf;
pub mod installer;
pub mod menu;
pub mod text;
pub mod utils;
