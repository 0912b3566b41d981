//! Simplified to Traditional Chinese (Taiwan) conversion of SiglusEngine game
//! files: the phrase-table converter, the scene script string table, the
//! scene pack and the Gameexe container and settings text.

pub mod bytes;
pub mod chars;
pub mod cipher;
pub mod converter;
pub mod dict;
pub mod gameexe;
pub mod scene;
pub mod script;
pub mod text;
pub mod utf16;
