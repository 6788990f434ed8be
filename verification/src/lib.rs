//! Font handling for ASS subtitles: analysis of the fonts a script uses,
//! matching of requests to indexed fonts, extraction of faces from font
//! collections, CFF charstring repair, subsetting, and embedding of the
//! subset fonts back into the script.

pub mod bytes;
pub mod text;
pub mod ass;
pub mod embed;
pub mod cff_fix;
pub mod sfnt;
pub mod font;
pub mod subset;
pub mod error;
pub mod cli;
pub mod db;
pub mod commands;
pub mod gui_backend;
pub mod ui_state;
