//! Parsing and interpreting sequence fragment geometry specifications in the
//! fragment geometry description language (FGDL).
//!
//! The FGDL describes how the two reads of a sequenced fragment are laid out:
//! which parts are cell barcode, UMI, discarded sequence, biological read or
//! fixed anchor. This crate parses such a description into a `FragmentGeomDesc`
//! and turns it into the geometry arguments that piscem and salmon take.
use vstd::prelude::*;

pub mod geom;
pub mod parser;
pub mod piscem;
pub mod salmon;
pub mod text;

pub use geom::{FragmentGeomDesc, GeomError, GeomLen, GeomPiece, NucStr};
pub use parser::{FragGeomParser, parse_segment};
pub use piscem::PiscemGeomDesc;
pub use salmon::SalmonSeparateGeomDesc;

verus! {

} // verus!
