//! Offset recovery for 64-bit Windows game binaries: PE loading, MSVC RTTI,
//! per-function data flow, class layouts and byte signatures.

pub mod allocs;
pub mod analysis;
pub mod archive;
pub mod bindings;
pub mod captures;
pub mod declared;
pub mod disasm;
pub mod discovery;
pub mod dump;
pub mod generate;
pub mod grammar;
pub mod heirs;
pub mod images;
pub mod insn;
pub mod interp;
pub mod layout;
pub mod listing;
pub mod members;
pub mod model;
pub mod names;
pub mod naming;
pub mod num;
pub mod objects;
pub mod ownership;
pub mod pe;
pub mod placement;
pub mod records;
pub mod rtti;
pub mod search;
pub mod signing;
pub mod sigs;
pub mod slots;
pub mod sources;
pub mod steam;
pub mod structors;
pub mod table;
pub mod text;
pub mod tracking;
pub mod words;
pub mod world;
