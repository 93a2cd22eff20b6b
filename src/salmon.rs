//! The geometry in salmon's "separate" form: for barcodes, UMIs and read
//! sequence, the intervals each occupies within each read.
use vstd::prelude::*;
use vstd::string::*;

use crate::geom::{GeomError, GeomLen, GeomPiece, any_complex};
use crate::text::{dec, lemma_dec_digits, push_dec, push_str};

verus! {

/// The number of bases a piece takes when its length is fixed; zero for an
/// unbounded piece, which runs to the end of the read.
pub open spec fn fixed_width(p: GeomPiece) -> nat {
    match p.geom_len() {
        Some(GeomLen::FixedLen(n)) => n as nat,
        _ => 0,
    }
}

/// The offset reached after the pieces `ps`: the sum of their fixed widths.
pub open spec fn fixed_offset(ps: Seq<GeomPiece>) -> nat
    decreases ps.len(),
{
    if ps.len() == 0 {
        0
    } else {
        fixed_offset(ps.drop_last()) + fixed_width(ps.last())
    }
}

/// The intervals, in order, that the pieces of role `role` (`b`, `u` or `r`)
/// occupy in a read made of `ps`: a 1-based start and an inclusive end, where
/// `None` stands for the end of the read.
pub open spec fn role_intervals(ps: Seq<GeomPiece>, role: char) -> Seq<(nat, Option<nat>)>
    decreases ps.len(),
{
    if ps.len() == 0 {
        Seq::empty()
    } else {
        let prev = role_intervals(ps.drop_last(), role);
        let p = ps.last();
        let off = fixed_offset(ps.drop_last());
        if p.role_char() != role {
            prev
        } else {
            match p.geom_len() {
                Some(GeomLen::FixedLen(n)) => prev.push((off + 1, Some((off + n) as nat))),
                Some(GeomLen::Unbounded) => prev.push((off + 1, None)),
                _ => prev,
            }
        }
    }
}

/// `lo-hi`, or `lo-end` for an interval that runs to the end of the read.
pub open spec fn render_interval(iv: (nat, Option<nat>)) -> Seq<char> {
    dec(iv.0) + seq!['-'] + match iv.1 {
        Some(e) => dec(e),
        None => seq!['e', 'n', 'd'],
    }
}

/// The intervals, comma-separated.
pub open spec fn join_intervals(ivs: Seq<(nat, Option<nat>)>) -> Seq<char>
    decreases ivs.len(),
{
    if ivs.len() == 0 {
        Seq::empty()
    } else if ivs.len() == 1 {
        render_interval(ivs[0])
    } else {
        join_intervals(ivs.drop_last()) + seq![','] + render_interval(ivs.last())
    }
}

/// The intervals in brackets: `[1-16]`, `[1-4,9-end]`, or `[]`.
pub open spec fn bracketed(ivs: Seq<(nat, Option<nat>)>) -> Seq<char> {
    seq!['['] + join_intervals(ivs) + seq![']']
}

/// What one read adds to a flag value: its number and its intervals, or
/// nothing where it has none.
pub open spec fn read_part(read: char, ivs: Seq<(nat, Option<nat>)>) -> Seq<char> {
    if ivs.len() == 0 {
        Seq::empty()
    } else {
        seq![read] + bracketed(ivs)
    }
}

/// The flag value for role `role` over both reads.
pub open spec fn salmon_desc(r1: Seq<GeomPiece>, r2: Seq<GeomPiece>, role: char) -> Seq<char> {
    read_part('1', role_intervals(r1, role)) + read_part('2', role_intervals(r2, role))
}

proof fn lemma_join_push(ivs: Seq<(nat, Option<nat>)>, iv: (nat, Option<nat>))
    ensures
        join_intervals(ivs.push(iv)) == if ivs.len() == 0 {
            render_interval(iv)
        } else {
            join_intervals(ivs) + seq![','] + render_interval(iv)
        },
{
    assert(ivs.push(iv).drop_last() =~= ivs);
    assert(ivs.push(iv).last() == iv);
    if ivs.len() == 0 {
        assert(ivs.push(iv)[0] == iv);
    }
}

proof fn lemma_bracketed_len(ivs: Seq<(nat, Option<nat>)>)
    ensures
        bracketed(ivs).len() == 2 <==> ivs.len() == 0,
{
    if ivs.len() > 0 {
        let iv = ivs.last();
        lemma_dec_digits(iv.0);
        if ivs.len() == 1 {
            assert(ivs[0] == iv);
        }
        assert(render_interval(iv).len() > 0);
        assert(join_intervals(ivs).len() > 0);
    }
}

/// Appends an interval with a numeric end to `out`, after a comma unless it
/// is the first.
fn push_bounded(out: &mut String, first: bool, start: u128, end: u128)
    ensures
        final(out)@ == old(out)@ + (if first {
            Seq::empty()
        } else {
            seq![',']
        }) + render_interval((start as nat, Some(end as nat))),
{
    proof {
        reveal_strlit(",");
        reveal_strlit("-");
    }
    let ghost start_text = out@;
    if !first {
        push_str(out, ",");
    }
    push_dec(out, start);
    push_str(out, "-");
    push_dec(out, end);
    assert(out@ =~= start_text + (if first {
        Seq::empty()
    } else {
        seq![',']
    }) + render_interval((start as nat, Some(end as nat))));
}

/// Appends an interval that runs to the end of the read to `out`, after a
/// comma unless it is the first.
fn push_unbounded(out: &mut String, first: bool, start: u128)
    ensures
        final(out)@ == old(out)@ + (if first {
            Seq::empty()
        } else {
            seq![',']
        }) + render_interval((start as nat, None)),
{
    proof {
        reveal_strlit(",");
        reveal_strlit("-end");
    }
    let ghost start_text = out@;
    if !first {
        push_str(out, ",");
    }
    push_dec(out, start);
    push_str(out, "-end");
    assert(out@ =~= start_text + (if first {
        Seq::empty()
    } else {
        seq![',']
    }) + render_interval((start as nat, None)));
}

fn bracket(s: &String) -> (r: String)
    ensures
        r@ == seq!['['] + s@ + seq![']'],
{
    proof {
        reveal_strlit("[");
        reveal_strlit("]");
    }
    let mut out = String::new();
    push_str(&mut out, "[");
    push_str(&mut out, s.as_str());
    push_str(&mut out, "]");
    assert(out@ =~= seq!['['] + s@ + seq![']']);
    out
}

/// The bracketed barcode, UMI and read intervals of one read, in one
/// left-to-right scan with a running offset. A piece with a ranged length
/// or a fixed anchor has no offset interval: the result is then an error.
fn as_salmon_desc_separate_helper(geom_pieces: &[GeomPiece]) -> (r: Result<
    (String, String, String),
    GeomError,
>)
    ensures
        r is Ok <==> !any_complex(geom_pieces@),
        r matches Ok((b, u, rd)) ==> {
            &&& b@ == bracketed(role_intervals(geom_pieces@, 'b'))
            &&& u@ == bracketed(role_intervals(geom_pieces@, 'u'))
            &&& rd@ == bracketed(role_intervals(geom_pieces@, 'r'))
        },
        r matches Err(e) ==> e == GeomError::UnsupportedGeometry,
{
    let ghost ps = geom_pieces@;
    let mut offset: u128 = 0;
    let mut bc = String::new();
    let mut umi = String::new();
    let mut rd = String::new();
    let mut bc_first = true;
    let mut umi_first = true;
    let mut rd_first = true;
    let mut i: usize = 0;
    proof {
        assert(ps.subrange(0, 0) =~= Seq::<GeomPiece>::empty());
    }
    while i < geom_pieces.len()
        invariant
            ps == geom_pieces@,
            i <= ps.len(),
            offset == fixed_offset(ps.subrange(0, i as int)),
            offset <= i * 0xffff_ffffnat,
            !any_complex(ps.subrange(0, i as int)),
            bc@ == join_intervals(role_intervals(ps.subrange(0, i as int), 'b')),
            umi@ == join_intervals(role_intervals(ps.subrange(0, i as int), 'u')),
            rd@ == join_intervals(role_intervals(ps.subrange(0, i as int), 'r')),
            bc_first == (role_intervals(ps.subrange(0, i as int), 'b').len() == 0),
            umi_first == (role_intervals(ps.subrange(0, i as int), 'u').len() == 0),
            rd_first == (role_intervals(ps.subrange(0, i as int), 'r').len() == 0),
        decreases ps.len() - i,
    {
        let ghost pre = ps.subrange(0, i as int);
        let ghost cur = ps.subrange(0, i + 1);
        proof {
            assert(cur.drop_last() =~= pre);
            assert(cur.last() == ps[i as int]);
            assert(i + 1 <= 0x1_0000_0000_0000_0000nat);
            assert((i + 1) * 0xffff_ffffnat <= 0x1_0000_0000_0000_0000nat * 0xffff_ffffnat)
                by (nonlinear_arith)
                requires
                    i + 1 <= 0x1_0000_0000_0000_0000nat,
            ;
        }
        match &geom_pieces[i] {
            GeomPiece::Barcode(GeomLen::FixedLen(x)) => {
                let x = *x as u128;
                proof {
                    lemma_join_push(role_intervals(pre, 'b'), ((offset + 1) as nat, Some((offset + x) as nat)));
                }
                push_bounded(&mut bc, bc_first, offset + 1, offset + x);
                bc_first = false;
                offset = offset + x;
            },
            GeomPiece::Umi(GeomLen::FixedLen(x)) => {
                let x = *x as u128;
                proof {
                    lemma_join_push(role_intervals(pre, 'u'), ((offset + 1) as nat, Some((offset + x) as nat)));
                }
                push_bounded(&mut umi, umi_first, offset + 1, offset + x);
                umi_first = false;
                offset = offset + x;
            },
            GeomPiece::ReadSeq(GeomLen::FixedLen(x)) => {
                let x = *x as u128;
                proof {
                    lemma_join_push(role_intervals(pre, 'r'), ((offset + 1) as nat, Some((offset + x) as nat)));
                }
                push_bounded(&mut rd, rd_first, offset + 1, offset + x);
                rd_first = false;
                offset = offset + x;
            },
            GeomPiece::Discard(GeomLen::FixedLen(x)) => {
                offset = offset + *x as u128;
            },
            GeomPiece::Barcode(GeomLen::Unbounded) => {
                proof {
                    lemma_join_push(role_intervals(pre, 'b'), ((offset + 1) as nat, None));
                }
                push_unbounded(&mut bc, bc_first, offset + 1);
                bc_first = false;
            },
            GeomPiece::Umi(GeomLen::Unbounded) => {
                proof {
                    lemma_join_push(role_intervals(pre, 'u'), ((offset + 1) as nat, None));
                }
                push_unbounded(&mut umi, umi_first, offset + 1);
                umi_first = false;
            },
            GeomPiece::ReadSeq(GeomLen::Unbounded) => {
                proof {
                    lemma_join_push(role_intervals(pre, 'r'), ((offset + 1) as nat, None));
                }
                push_unbounded(&mut rd, rd_first, offset + 1);
                rd_first = false;
            },
            GeomPiece::Discard(GeomLen::Unbounded) => {},
            _ => {
                proof {
                    assert(ps[i as int].spec_is_complex());
                }
                return Err(GeomError::UnsupportedGeometry);
            },
        }
        proof {
            assert(!ps[i as int].spec_is_complex());
            assert forall|k: int| 0 <= k < cur.len() implies !(#[trigger] cur[k]).spec_is_complex() by {
                if k < i {
                    assert(cur[k] == pre[k]);
                }
            }
        }
        i += 1;
    }
    proof {
        assert(ps.subrange(0, i as int) =~= ps);
    }
    Ok((bracket(&bc), bracket(&umi), bracket(&rd)))
}

/// This struct holds a [`salmon`](https://github.com/COMBINE-lab/salmon)
/// compatible description of the fragment geometry specification.
#[derive(Debug, PartialEq, Eq)]
pub struct SalmonSeparateGeomDesc {
    pub barcode_desc: String,
    pub umi_desc: String,
    pub read_desc: String,
}

/// Appends `read` and `part` to `out` unless `part` is `[]`.
fn push_read_part(out: &mut String, read: &str, part: &String)
    requires
        read@.len() == 1,
        part@.len() >= 2,
    ensures
        final(out)@ == old(out)@ + if part@.len() == 2 {
            Seq::empty()
        } else {
            read@ + part@
        },
{
    if part.as_str().unicode_len() != 2 {
        push_str(out, read);
        push_str(out, part.as_str());
    } else {
        assert(old(out)@ + Seq::<char>::empty() =~= old(out)@);
    }
}

impl SalmonSeparateGeomDesc {
    /// Builds the salmon "separate" description from the `GeomPiece`s of read
    /// 1 and of read 2. Only a simple geometry has one: a piece with a ranged
    /// length or a fixed anchor anywhere gives `UnsupportedGeometry`.
    pub fn from_geom_pieces(geom_pieces_r1: &[GeomPiece], geom_pieces_r2: &[GeomPiece]) -> (r:
        Result<Self, GeomError>)
        ensures
            r is Ok <==> !any_complex(geom_pieces_r1@) && !any_complex(geom_pieces_r2@),
            r matches Ok(d) ==> {
                &&& d.barcode_desc@ == salmon_desc(geom_pieces_r1@, geom_pieces_r2@, 'b')
                &&& d.umi_desc@ == salmon_desc(geom_pieces_r1@, geom_pieces_r2@, 'u')
                &&& d.read_desc@ == salmon_desc(geom_pieces_r1@, geom_pieces_r2@, 'r')
            },
            r matches Err(e) ==> e == GeomError::UnsupportedGeometry,
    {
        proof {
            reveal_strlit("1");
            reveal_strlit("2");
        }
        let (bc1, umi1, rd1) = match as_salmon_desc_separate_helper(geom_pieces_r1) {
            Ok(x) => x,
            Err(e) => {
                return Err(e);
            },
        };
        let (bc2, umi2, rd2) = match as_salmon_desc_separate_helper(geom_pieces_r2) {
            Ok(x) => x,
            Err(e) => {
                return Err(e);
            },
        };
        let ghost r1 = geom_pieces_r1@;
        let ghost r2 = geom_pieces_r2@;
        proof {
            lemma_bracketed_len(role_intervals(r1, 'b'));
            lemma_bracketed_len(role_intervals(r1, 'u'));
            lemma_bracketed_len(role_intervals(r1, 'r'));
            lemma_bracketed_len(role_intervals(r2, 'b'));
            lemma_bracketed_len(role_intervals(r2, 'u'));
            lemma_bracketed_len(role_intervals(r2, 'r'));
        }
        let mut barcode_desc = String::new();
        push_read_part(&mut barcode_desc, "1", &bc1);
        push_read_part(&mut barcode_desc, "2", &bc2);
        let mut umi_desc = String::new();
        push_read_part(&mut umi_desc, "1", &umi1);
        push_read_part(&mut umi_desc, "2", &umi2);
        let mut read_desc = String::new();
        push_read_part(&mut read_desc, "1", &rd1);
        push_read_part(&mut read_desc, "2", &rd2);
        proof {
            assert(barcode_desc@ =~= salmon_desc(r1, r2, 'b'));
            assert(umi_desc@ =~= salmon_desc(r1, r2, 'u'));
            assert(read_desc@ =~= salmon_desc(r1, r2, 'r'));
        }
        Ok(Self { barcode_desc, umi_desc, read_desc })
    }
}

} // verus!
