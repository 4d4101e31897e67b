//! Building blocks of a source-control service.
//!
//! The larger part is a query engine for sets of vertices of a commit graph:
//! compact range sets of integer ids (`spanset`), a two-way map between
//! vertex names and ids (`idmap`), sets that pair the two (`dagset`), and
//! sets of any kind that are combined on their ranges whenever both operands
//! stand on one identity map (`nameset`). What holds of all of them is
//! proved in `span_laws` and `name_laws`.
//!
//! Beside it stand two checks on what is pushed (`hooks`, on the compiled
//! patterns of `pattern`) and a store of
//! configuration values that remembers who set what (`config`, on the byte
//! strings and the ordered map of `bytes_map`).

pub mod bytes_map;
pub mod config;
pub mod dagset;
pub mod error;
mod handle;
pub mod hooks;
pub mod idmap;
pub mod name_laws;
pub mod nameset;
pub mod pattern;
pub mod render;
pub mod span_laws;
pub mod spanset;
