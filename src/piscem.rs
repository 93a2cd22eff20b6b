//! The geometry in the compact positional form that piscem takes.
use vstd::prelude::*;
use vstd::string::*;

use crate::geom::{GeomPiece, push_pieces, render_pieces};
use crate::text::push_str;

verus! {

/// The piscem form of one read: its pieces in canonical text, in braces.
pub open spec fn piscem_read(ps: Seq<GeomPiece>) -> Seq<char> {
    seq!['{'] + render_pieces(ps) + seq!['}']
}

/// This struct holds a [`piscem`](https://github.com/COMBINE-lab/piscem)
/// compatible description of the fragment geometry specification.
#[derive(Debug, PartialEq, Eq)]
pub struct PiscemGeomDesc {
    /// The `piscem` format specification for read 1.
    pub read1_desc: String,
    /// The `piscem` format specification for read 2.
    pub read2_desc: String,
}

fn as_piscem_geom_desc_single_read(geom_pieces: &[GeomPiece]) -> (r: String)
    ensures
        r@ == piscem_read(geom_pieces@),
{
    proof {
        reveal_strlit("{");
        reveal_strlit("}");
    }
    let mut out = String::new();
    push_str(&mut out, "{");
    push_pieces(&mut out, geom_pieces);
    push_str(&mut out, "}");
    assert(out@ =~= piscem_read(geom_pieces@));
    out
}

impl PiscemGeomDesc {
    /// This constructor builds the `piscem` format descriptor for this
    /// fragment library from the `GeomPiece`s of read 1 (`geom_pieces_r1`)
    /// and those of read 2 (`geom_pieces_r2`). Every geometry, simple or
    /// complex, has one.
    pub fn from_geom_pieces(geom_pieces_r1: &[GeomPiece], geom_pieces_r2: &[GeomPiece]) -> (r:
        Self)
        ensures
            r.read1_desc@ == piscem_read(geom_pieces_r1@),
            r.read2_desc@ == piscem_read(geom_pieces_r2@),
    {
        let read1_desc = as_piscem_geom_desc_single_read(geom_pieces_r1);
        let read2_desc = as_piscem_geom_desc_single_read(geom_pieces_r2);
        Self { read1_desc, read2_desc }
    }

    /// The value of piscem's `--geometry` flag: `1{...}2{...}`.
    pub fn geometry_arg(&self) -> (r: String)
        ensures
            r@ == seq!['1'] + self.read1_desc@ + seq!['2'] + self.read2_desc@,
    {
        proof {
            reveal_strlit("1");
            reveal_strlit("2");
        }
        let mut out = String::new();
        push_str(&mut out, "1");
        push_str(&mut out, self.read1_desc.as_str());
        push_str(&mut out, "2");
        push_str(&mut out, self.read2_desc.as_str());
        assert(out@ =~= seq!['1'] + self.read1_desc@ + seq!['2'] + self.read2_desc@);
        out
    }
}

} // verus!
