pub mod text;
pub mod toml_lite;
pub mod md;
pub mod tree;
pub mod meta;
pub mod gen;
pub mod lint;
pub mod scaffold;
pub mod prep;
pub mod serve;
pub mod regen;
pub mod sidebar;
