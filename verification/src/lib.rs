//! Verified core of the `psolve` command-line tool: argument scanning, the
//! ASTAP-compatible argument grammar, the `.ini`/`.wcs` sidecar text, and the
//! byte-exact FITS header rewrite used by `-update`.

pub mod text;
pub mod cli;
pub mod cards;
pub mod sidecar;
pub mod fits_update;
pub mod astap;
pub mod merge_laws;
pub mod json;
pub mod catalog;
pub mod solve;
pub mod ladder;
pub mod blind;
