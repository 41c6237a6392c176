//! Reading Rusted Warfare unit files (INI) and obfuscating them.
pub mod text;
pub mod maps;
pub mod ini;
pub mod names;
pub mod code;
pub mod coder;
pub mod inherit;
pub mod reread;
