//! Archives values into a flat byte region whose layout is also the form
//! that readers use in place: plain scalars as their own little-endian
//! bytes, unsized runs and text behind self-relative pointers, and maps as
//! open-addressing tables that lookups probe directly in the bytes.

pub mod bytes;
pub mod plain;
pub mod buffer;
pub mod read;
pub mod containers;
pub mod tuple;
pub mod hash;
pub mod table;
pub mod map;
pub mod map_build;
