//! The in-memory model of a fragment geometry: the pieces of each read,
//! their classification, and their canonical text.
use vstd::prelude::*;
use vstd::string::*;

use crate::text::{dec, push_dec, push_str};

verus! {

/// The types of lengths that a piece of geometry can have.
#[derive(Debug, Copy, Clone, PartialEq, Eq)]
pub enum GeomLen {
    /// This piece of geometry has a single fixed length.
    FixedLen(u32),
    /// This piece of geometry has some length between a lower and an upper
    /// bound, both inclusive.
    LenRange(u32, u32),
    /// This piece of geometry runs to the end of the read.
    Unbounded,
}

/// The sequence held by a fixed sequence anchor.
#[derive(Debug, Clone, PartialEq, Eq)]
pub enum NucStr {
    Bases(String),
}

/// The pieces of geometry (types) that a read can be made of.
#[derive(Debug, Clone, PartialEq, Eq)]
pub enum GeomPiece {
    /// A cellular barcode
    Barcode(GeomLen),
    /// A unique molecular identifier
    Umi(GeomLen),
    /// Sequence that will be discarded
    Discard(GeomLen),
    /// Biological read sequence
    ReadSeq(GeomLen),
    /// A fixed sequence anchor / motif
    Fixed(NucStr),
}

/// Why a geometry could not be read or converted.
#[derive(Debug, Clone, Copy, PartialEq, Eq)]
pub enum GeomError {
    /// The text is not a fragment geometry description; the value is the
    /// character index at which reading stopped.
    Syntax(usize),
    /// The geometry holds a piece (a ranged length or a fixed anchor) that the
    /// requested format cannot express as an offset interval.
    UnsupportedGeometry,
}

/// The characters a fixed anchor may hold.
pub open spec fn is_nucleotide(c: char) -> bool {
    c == 'A' || c == 'C' || c == 'G' || c == 'T'
}

/// The payload of a fixed anchor: one or more nucleotides.
pub open spec fn is_nucstr(s: Seq<char>) -> bool {
    &&& s.len() > 0
    &&& forall|i: int| 0 <= i < s.len() ==> is_nucleotide(#[trigger] s[i])
}

impl GeomLen {
    /// A length is well formed when a fixed length is at least one and a
    /// range is non-empty and starts at one or more.
    pub open spec fn wf(self) -> bool {
        match self {
            GeomLen::FixedLen(n) => n >= 1,
            GeomLen::LenRange(lo, hi) => 1 <= lo && lo <= hi,
            GeomLen::Unbounded => true,
        }
    }

    /// The text of a length after the role letter: `[n]`, `[lo-hi]` or `:`.
    pub open spec fn spec_render(self) -> Seq<char> {
        match self {
            GeomLen::FixedLen(n) => seq!['['] + dec(n as nat) + seq![']'],
            GeomLen::LenRange(lo, hi) => seq!['['] + dec(lo as nat) + seq!['-'] + dec(hi as nat)
                + seq![']'],
            GeomLen::Unbounded => seq![':'],
        }
    }

    /// Appends the text of this length to `out`.
    pub fn push_canonical(&self, out: &mut String)
        ensures
            final(out)@ == old(out)@ + self.spec_render(),
    {
        proof {
            reveal_strlit("[");
            reveal_strlit("]");
            reveal_strlit("-");
            reveal_strlit(":");
        }
        let ghost start = out@;
        match self {
            GeomLen::FixedLen(n) => {
                push_str(out, "[");
                push_dec(out, *n as u128);
                push_str(out, "]");
                assert(out@ =~= start + self.spec_render());
            },
            GeomLen::LenRange(lo, hi) => {
                push_str(out, "[");
                push_dec(out, *lo as u128);
                push_str(out, "-");
                push_dec(out, *hi as u128);
                push_str(out, "]");
                assert(out@ =~= start + self.spec_render());
            },
            GeomLen::Unbounded => {
                push_str(out, ":");
            },
        }
    }
}

impl GeomPiece {
    /// The length of a barcode, UMI, discard or read piece; `None` for an
    /// anchor.
    pub open spec fn geom_len(self) -> Option<GeomLen> {
        match self {
            GeomPiece::Barcode(l) => Some(l),
            GeomPiece::Umi(l) => Some(l),
            GeomPiece::Discard(l) => Some(l),
            GeomPiece::ReadSeq(l) => Some(l),
            GeomPiece::Fixed(_) => None,
        }
    }

    /// The letter that names the role of the piece.
    pub open spec fn role_char(self) -> char {
        match self {
            GeomPiece::Barcode(_) => 'b',
            GeomPiece::Umi(_) => 'u',
            GeomPiece::Discard(_) => 'x',
            GeomPiece::ReadSeq(_) => 'r',
            GeomPiece::Fixed(_) => 'f',
        }
    }

    /// A piece is well formed when its length is, or, for an anchor, when it
    /// holds one or more nucleotides.
    pub open spec fn wf(self) -> bool {
        match self {
            GeomPiece::Fixed(NucStr::Bases(s)) => is_nucstr(s@),
            _ => self.geom_len().unwrap().wf(),
        }
    }

    /// The canonical text of the piece: `b[16]`, `u[9-10]`, `r:`, `f[ACGT]`.
    pub open spec fn spec_render(self) -> Seq<char> {
        match self {
            GeomPiece::Fixed(NucStr::Bases(s)) => seq!['f', '['] + s@ + seq![']'],
            _ => seq![self.role_char()] + self.geom_len().unwrap().spec_render(),
        }
    }

    /// A fixed length, or an anchor (whose length is that of its sequence).
    pub open spec fn spec_is_fixed_len(self) -> bool {
        match self {
            GeomPiece::Fixed(_) => true,
            _ => self.geom_len().unwrap() is FixedLen,
        }
    }

    /// Anything but an unbounded length.
    pub open spec fn spec_is_bounded(self) -> bool {
        match self {
            GeomPiece::Fixed(_) => true,
            _ => !(self.geom_len().unwrap() is Unbounded),
        }
    }

    /// A ranged length or an anchor: a piece whose start and end cannot be
    /// found from a running fixed offset alone.
    pub open spec fn spec_is_complex(self) -> bool {
        match self {
            GeomPiece::Fixed(_) => true,
            _ => self.geom_len().unwrap() is LenRange,
        }
    }

    /// A piece whose width is not known in advance: a ranged or an
    /// unbounded length.
    pub open spec fn is_variable(self) -> bool {
        match self.geom_len() {
            Some(l) => !(l is FixedLen),
            None => false,
        }
    }

    /// A fixed sequence anchor.
    pub open spec fn is_anchor(self) -> bool {
        self is Fixed
    }

    /// This method returns true if the current GeomPiece has a fixed length
    /// (either FixedLen or a Fixed(NucStr)), and false otherwise.
    pub fn is_fixed_len(&self) -> (r: bool)
        ensures
            r == self.spec_is_fixed_len(),
    {
        match self {
            GeomPiece::Umi(GeomLen::FixedLen(_))
            | GeomPiece::Barcode(GeomLen::FixedLen(_))
            | GeomPiece::ReadSeq(GeomLen::FixedLen(_))
            | GeomPiece::Discard(GeomLen::FixedLen(_))
            | GeomPiece::Fixed(_) => true,
            _ => false,
        }
    }

    /// This method returns true if the current GeomPiece has a bounded length
    /// (a fixed length, a ranged length, or a Fixed(NucStr)), and false
    /// otherwise.
    pub fn is_bounded(&self) -> (r: bool)
        ensures
            r == self.spec_is_bounded(),
    {
        match self {
            GeomPiece::Umi(GeomLen::Unbounded)
            | GeomPiece::Barcode(GeomLen::Unbounded)
            | GeomPiece::ReadSeq(GeomLen::Unbounded)
            | GeomPiece::Discard(GeomLen::Unbounded) => false,
            _ => true,
        }
    }

    /// This method returns true if the current GeomPiece is "complex"
    /// (a ranged length, or a Fixed(NucStr)), and false otherwise.
    pub fn is_complex(&self) -> (r: bool)
        ensures
            r == self.spec_is_complex(),
    {
        match self {
            GeomPiece::Fixed(_)
            | GeomPiece::Umi(GeomLen::LenRange(_, _))
            | GeomPiece::Barcode(GeomLen::LenRange(_, _))
            | GeomPiece::ReadSeq(GeomLen::LenRange(_, _))
            | GeomPiece::Discard(GeomLen::LenRange(_, _)) => true,
            _ => false,
        }
    }

    /// Appends the canonical text of this piece to `out`.
    pub fn push_canonical(&self, out: &mut String)
        ensures
            final(out)@ == old(out)@ + self.spec_render(),
    {
        proof {
            reveal_strlit("b");
            reveal_strlit("u");
            reveal_strlit("x");
            reveal_strlit("r");
            reveal_strlit("f[");
            reveal_strlit("]");
        }
        let ghost start = out@;
        match self {
            GeomPiece::Barcode(l) => {
                push_str(out, "b");
                l.push_canonical(out);
            },
            GeomPiece::Umi(l) => {
                push_str(out, "u");
                l.push_canonical(out);
            },
            GeomPiece::Discard(l) => {
                push_str(out, "x");
                l.push_canonical(out);
            },
            GeomPiece::ReadSeq(l) => {
                push_str(out, "r");
                l.push_canonical(out);
            },
            GeomPiece::Fixed(NucStr::Bases(s)) => {
                push_str(out, "f[");
                push_str(out, s.as_str());
                push_str(out, "]");
            },
        }
        assert(out@ =~= start + self.spec_render());
    }

    /// The canonical text of this piece, as the parser accepts it.
    pub fn to_canonical_string(&self) -> (r: String)
        ensures
            r@ == self.spec_render(),
    {
        let mut out = String::new();
        self.push_canonical(&mut out);
        assert(out@ =~= self.spec_render());
        out
    }
}

/// The text of a sequence of pieces: their canonical texts, in order.
pub open spec fn render_pieces(ps: Seq<GeomPiece>) -> Seq<char>
    decreases ps.len(),
{
    if ps.len() == 0 {
        Seq::empty()
    } else {
        render_pieces(ps.drop_last()) + ps.last().spec_render()
    }
}

/// Whether any piece of `ps` is complex.
pub open spec fn any_complex(ps: Seq<GeomPiece>) -> bool {
    exists|i: int| 0 <= i < ps.len() && (#[trigger] ps[i]).spec_is_complex()
}

/// A geometry is complex exactly when one of its pieces, taking read 1 then
/// read 2, is complex; it is simple exactly when it is not complex.
pub proof fn lemma_complex_iff_complex_piece(d: FragmentGeomDesc)
    ensures
        d.spec_is_complex_geometry() <==> any_complex(d.read1_desc@ + d.read2_desc@),
{
    let a = d.read1_desc@;
    let b = d.read2_desc@;
    let ab = a + b;
    if any_complex(a) {
        let i = choose|i: int| 0 <= i < a.len() && (#[trigger] a[i]).spec_is_complex();
        assert(ab[i] == a[i]);
    }
    if any_complex(b) {
        let i = choose|i: int| 0 <= i < b.len() && (#[trigger] b[i]).spec_is_complex();
        assert(ab[a.len() + i] == b[i]);
    }
    if any_complex(ab) {
        let i = choose|i: int| 0 <= i < ab.len() && (#[trigger] ab[i]).spec_is_complex();
        if i < a.len() {
            assert(ab[i] == a[i]);
        } else {
            assert(ab[i] == b[i - a.len()]);
        }
    }
}

/// A read description is well formed when each piece is and when any two
/// pieces of variable width (ranged or unbounded) have an anchor between
/// them, so that the boundary between them can be found.
///
/// This adjacency rule is the one this crate adopts. It rejects a ranged
/// piece followed by an unbounded one (`u[12-13]x:`) and accepts variable
/// pieces that an anchor or the end of the read resolves (`b[9-10]f[ACCGT]`,
/// `x:r[20]f[GTTT]x:`, a trailing `x:`); other rules would draw the line
/// elsewhere for inputs outside these forms.
pub open spec fn wf_read(ps: Seq<GeomPiece>) -> bool {
    &&& forall|i: int| 0 <= i < ps.len() ==> (#[trigger] ps[i]).wf()
    &&& forall|i: int, j: int|
        0 <= i < j < ps.len() && (#[trigger] ps[i]).is_variable() && (#[trigger] ps[j]).is_variable()
            ==> exists|k: int| i < k < j && (#[trigger] ps[k]).is_anchor()
}

/// Appends the canonical texts of `ps` to `out`, in order.
pub fn push_pieces(out: &mut String, ps: &[GeomPiece])
    ensures
        final(out)@ == old(out)@ + render_pieces(ps@),
{
    let ghost start = out@;
    let mut i: usize = 0;
    assert(ps@.subrange(0, 0) =~= Seq::<GeomPiece>::empty());
    while i < ps.len()
        invariant
            i <= ps@.len(),
            out@ == start + render_pieces(ps@.subrange(0, i as int)),
        decreases ps.len() - i,
    {
        ps[i].push_canonical(out);
        assert(ps@.subrange(0, i + 1).drop_last() =~= ps@.subrange(0, i as int));
        assert(out@ =~= start + render_pieces(ps@.subrange(0, i + 1)));
        i += 1;
    }
    assert(ps@.subrange(0, i as int) =~= ps@);
}

/// This structure holds the parsed fragment geometry description.
#[derive(Debug, PartialEq, Eq)]
pub struct FragmentGeomDesc {
    /// The `GeomPiece`s describing read 1 of this fragment in left-to-right order.
    pub read1_desc: Vec<GeomPiece>,
    /// The `GeomPiece`s describing read 2 of this fragment in left-to-right order.
    pub read2_desc: Vec<GeomPiece>,
}

impl FragmentGeomDesc {
    /// Both reads are well formed.
    pub open spec fn wf(&self) -> bool {
        wf_read(self.read1_desc@) && wf_read(self.read2_desc@)
    }

    /// The canonical text of the geometry: `1{...}2{...}`.
    pub open spec fn spec_render(&self) -> Seq<char> {
        seq!['1', '{'] + render_pieces(self.read1_desc@) + seq!['}', '2', '{'] + render_pieces(
            self.read2_desc@,
        ) + seq!['}']
    }

    /// Some piece of either read is complex.
    pub open spec fn spec_is_complex_geometry(&self) -> bool {
        any_complex(self.read1_desc@) || any_complex(self.read2_desc@)
    }

    /// A "complex" geometry is one that contains a fixed anchor and/or a
    /// piece with a ranged length.
    pub fn is_complex_geometry(&self) -> (r: bool)
        ensures
            r == self.spec_is_complex_geometry(),
    {
        let mut i: usize = 0;
        while i < self.read1_desc.len()
            invariant
                i <= self.read1_desc@.len(),
                forall|k: int| 0 <= k < i ==> !(#[trigger] self.read1_desc@[k]).spec_is_complex(),
            decreases self.read1_desc.len() - i,
        {
            if self.read1_desc[i].is_complex() {
                return true;
            }
            i += 1;
        }
        let mut j: usize = 0;
        while j < self.read2_desc.len()
            invariant
                j <= self.read2_desc@.len(),
                !any_complex(self.read1_desc@),
                forall|k: int| 0 <= k < j ==> !(#[trigger] self.read2_desc@[k]).spec_is_complex(),
            decreases self.read2_desc.len() - j,
        {
            if self.read2_desc[j].is_complex() {
                return true;
            }
            j += 1;
        }
        false
    }

    /// A "simple" geometry is one that contains only fixed length pieces
    /// (but no fixed anchor) and unbounded pieces.
    pub fn is_simple_geometry(&self) -> (r: bool)
        ensures
            r == !self.spec_is_complex_geometry(),
    {
        !self.is_complex_geometry()
    }

    /// The canonical text of the geometry, exactly the form the parser
    /// accepts.
    pub fn to_canonical_string(&self) -> (r: String)
        ensures
            r@ == self.spec_render(),
    {
        proof {
            reveal_strlit("1{");
            reveal_strlit("}2{");
            reveal_strlit("}");
        }
        let mut out = String::new();
        push_str(&mut out, "1{");
        push_pieces(&mut out, self.read1_desc.as_slice());
        push_str(&mut out, "}2{");
        push_pieces(&mut out, self.read2_desc.as_slice());
        push_str(&mut out, "}");
        assert(out@ =~= self.spec_render());
        out
    }
}

} // verus!
