//! Building blocks of a Nintendo DS decompilation toolkit: the section,
//! symbol and relocation model of a ROM's modules, the assembly emitter that
//! rewrites references as symbols, and the linker script writer.
pub mod text;
pub mod section;
pub mod symbol;
pub mod relocation;
pub mod lookup;
pub mod data;
pub mod dis;
pub mod overlay_groups;
pub mod lcf;
pub mod delinks;
pub mod symbols_file;
pub mod relocations_file;
