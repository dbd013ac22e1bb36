//! Organise and browse 3D print files: the decisions, formats and texts behind a
//! model gallery, verified.

pub mod archive;
pub mod autogroup;
pub mod bounds;
pub mod db;
pub mod extract;
pub mod formats;
pub mod json;
pub mod lists;
pub mod numbers;
pub mod paths;
pub mod rename;
pub mod scanner;
pub mod server;
pub mod settings;
pub mod text;
pub mod unicode;
pub mod updater;
pub mod xml;
