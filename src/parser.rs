//! The parser of the fragment geometry description language.
//!
//! A description is `1{<read>}2{<read>}`, a read is a sequence of pieces in
//! canonical form (see `GeomPiece::spec_render`), and the whole input must be
//! consumed. Numbers are decimal without a leading zero and fit in a `u32`;
//! a range `[lo-hi]` has `lo <= hi`; an anchor holds one or more of `A`, `C`,
//! `G`, `T`; within a read, two pieces of variable width need an anchor
//! between them (see `wf_read`). The parser accepts exactly the texts of
//! well-formed geometries, and each text it accepts is the canonical text of
//! what it returns.
use vstd::prelude::*;
use vstd::string::*;

use crate::geom::{FragmentGeomDesc, GeomError, GeomLen, GeomPiece, NucStr, is_nucleotide, render_pieces, wf_read};
use crate::text::{dec, digits_value, is_digit, lemma_dec_digits, lemma_numeral_dec, push_str};

verus! {

/// `t` occurs in `cs` at position `pos`.
pub open spec fn has_at(cs: Seq<char>, pos: int, t: Seq<char>) -> bool {
    &&& 0 <= pos
    &&& pos + t.len() <= cs.len()
    &&& cs.subrange(pos, pos + t.len()) == t
}

/// Position `pos` of `cs` ends a run of digits: the input ends there or holds
/// something other than a digit.
pub open spec fn digits_end(cs: Seq<char>, pos: int) -> bool {
    pos >= cs.len() || !is_digit(cs[pos])
}

proof fn lemma_has_at_index(cs: Seq<char>, pos: int, t: Seq<char>, k: int)
    requires
        has_at(cs, pos, t),
        0 <= k < t.len(),
    ensures
        cs[pos + k] == t[k],
{
    assert(cs.subrange(pos, pos + t.len())[k] == t[k]);
}

proof fn lemma_has_at_concat(cs: Seq<char>, pos: int, a: Seq<char>, b: Seq<char>)
    ensures
        has_at(cs, pos, a + b) <==> has_at(cs, pos, a) && has_at(cs, pos + a.len(), b),
{
    if has_at(cs, pos, a + b) {
        let w = cs.subrange(pos, pos + (a + b).len());
        assert(w == a + b);
        assert(cs.subrange(pos, pos + a.len()) =~= w.subrange(0, a.len() as int));
        assert(w.subrange(0, a.len() as int) =~= a);
        assert(cs.subrange(pos + a.len(), pos + a.len() + b.len()) =~= w.subrange(
            a.len() as int,
            (a.len() + b.len()) as int,
        ));
        assert(w.subrange(a.len() as int, (a.len() + b.len()) as int) =~= b);
    }
    if has_at(cs, pos, a) && has_at(cs, pos + a.len(), b) {
        assert(cs.subrange(pos, pos + (a + b).len()) =~= cs.subrange(pos, pos + a.len())
            + cs.subrange(pos + a.len(), pos + a.len() + b.len()));
    }
}

proof fn lemma_has_at_single(cs: Seq<char>, pos: int, c: char)
    ensures
        has_at(cs, pos, seq![c]) <==> 0 <= pos < cs.len() && cs[pos] == c,
{
    if 0 <= pos < cs.len() && cs[pos] == c {
        assert(cs.subrange(pos, pos + 1) =~= seq![c]);
    }
    if has_at(cs, pos, seq![c]) {
        lemma_has_at_index(cs, pos, seq![c], 0);
    }
}

/// A value of digits grows as digits are appended.
proof fn lemma_digits_value_prefix(ds: Seq<char>, n: int)
    requires
        0 <= n <= ds.len(),
    ensures
        digits_value(ds.subrange(0, n)) <= digits_value(ds),
    decreases ds.len(),
{
    if n < ds.len() {
        lemma_digits_value_prefix(ds.drop_last(), n);
        assert(ds.drop_last().subrange(0, n) =~= ds.subrange(0, n));
    } else {
        assert(ds.subrange(0, n) =~= ds);
    }
}

/// At most one canonical numeral that ends a run of digits starts at `pos`.
proof fn lemma_dec_at_unique(cs: Seq<char>, pos: int, a: nat, b: nat)
    requires
        has_at(cs, pos, dec(a)),
        has_at(cs, pos, dec(b)),
        digits_end(cs, pos + dec(a).len()),
        digits_end(cs, pos + dec(b).len()),
    ensures
        a == b,
{
    lemma_dec_digits(a);
    lemma_dec_digits(b);
    if dec(a).len() < dec(b).len() {
        lemma_has_at_index(cs, pos, dec(b), dec(a).len() as int);
    } else if dec(b).len() < dec(a).len() {
        lemma_has_at_index(cs, pos, dec(a), dec(b).len() as int);
    } else {
        assert(dec(a) == dec(b));
    }
}

/// Reads the numeral that starts at `pos`: one or more digits without a
/// leading zero, whose value fits in a `u32`, ending a run of digits.
fn parse_numeral(cs: &[char], pos: usize) -> (r: Option<(u32, usize)>)
    requires
        pos <= cs@.len(),
    ensures
        match r {
            Some((v, e)) => {
                &&& v >= 1
                &&& has_at(cs@, pos as int, dec(v as nat))
                &&& e == pos + dec(v as nat).len()
                &&& digits_end(cs@, e as int)
            },
            None => forall|n: u32|
                n >= 1 && #[trigger] has_at(cs@, pos as int, dec(n as nat)) ==> !digits_end(
                    cs@,
                    pos + dec(n as nat).len(),
                ),
        },
{
    let mut i: usize = pos;
    let mut acc: u64 = 0;
    while i < cs.len() && '0' <= cs[i] && cs[i] <= '9'
        invariant
            pos <= i <= cs@.len(),
            acc <= u32::MAX,
            acc == digits_value(cs@.subrange(pos as int, i as int)),
            forall|k: int| pos <= k < i ==> is_digit(#[trigger] cs@[k]),
        decreases cs.len() - i,
    {
        let d = (cs[i] as u32 - '0' as u32) as u64;
        let ghost run = cs@.subrange(pos as int, i + 1);
        assert(run.drop_last() =~= cs@.subrange(pos as int, i as int));
        let next = acc * 10 + d;
        if next > u32::MAX as u64 {
            proof {
                assert(digits_value(run) == next);
                assert forall|n: u32|
                    n >= 1 && #[trigger] has_at(cs@, pos as int, dec(n as nat)) implies !digits_end(
                    cs@,
                    pos + dec(n as nat).len(),
                ) by {
                    lemma_dec_digits(n as nat);
                    let l = dec(n as nat).len() as int;
                    if digits_end(cs@, pos + l) {
                        if pos + l <= i {
                            lemma_has_at_index(cs@, pos as int, dec(n as nat), l - 1);
                            assert(is_digit(cs@[pos + l]));
                        }
                        assert(dec(n as nat) == cs@.subrange(pos as int, pos + l));
                        assert(run =~= dec(n as nat).subrange(0, i + 1 - pos));
                        lemma_digits_value_prefix(dec(n as nat), i + 1 - pos);
                    }
                }
            }
            return None;
        }
        acc = next;
        i += 1;
    }
    let ghost run = cs@.subrange(pos as int, i as int);
    if i == pos || cs[pos] == '0' {
        proof {
            assert forall|n: u32|
                n >= 1 && #[trigger] has_at(cs@, pos as int, dec(n as nat)) implies !digits_end(
                cs@,
                pos + dec(n as nat).len(),
            ) by {
                lemma_dec_digits(n as nat);
                lemma_has_at_index(cs@, pos as int, dec(n as nat), 0);
            }
        }
        return None;
    }
    proof {
        assert(run[0] == cs@[pos as int]);
        assert forall|k: int| 0 <= k < run.len() implies is_digit(#[trigger] run[k]) by {
            assert(run[k] == cs@[pos + k]);
        }
        lemma_numeral_dec(run);
    }
    Some((acc as u32, i))
}

/// Where the text of a length occurs, character by character.
proof fn lemma_len_at(cs: Seq<char>, pos: int, m: GeomLen)
    requires
        0 <= pos,
    ensures
        m is Unbounded ==> (has_at(cs, pos, m.spec_render()) <==> pos < cs.len() && cs[pos] == ':'),
        m is FixedLen ==> (has_at(cs, pos, m.spec_render()) <==> {
            let close = pos + 1 + dec(m->FixedLen_0 as nat).len();
            &&& pos < cs.len() && cs[pos] == '['
            &&& has_at(cs, pos + 1, dec(m->FixedLen_0 as nat))
            &&& close < cs.len() && cs[close] == ']'
        }),
        m is LenRange ==> (has_at(cs, pos, m.spec_render()) <==> {
            let dash = pos + 1 + dec(m->LenRange_0 as nat).len();
            let close = dash + 1 + dec(m->LenRange_1 as nat).len();
            &&& pos < cs.len() && cs[pos] == '['
            &&& has_at(cs, pos + 1, dec(m->LenRange_0 as nat))
            &&& dash < cs.len() && cs[dash] == '-'
            &&& has_at(cs, dash + 1, dec(m->LenRange_1 as nat))
            &&& close < cs.len() && cs[close] == ']'
        }),
{
    match m {
        GeomLen::Unbounded => {
            lemma_has_at_single(cs, pos, ':');
        },
        GeomLen::FixedLen(n) => {
            let d = dec(n as nat);
            lemma_has_at_concat(cs, pos, seq!['['] + d, seq![']']);
            lemma_has_at_concat(cs, pos, seq!['['], d);
            lemma_has_at_single(cs, pos, '[');
            lemma_has_at_single(cs, pos + 1 + d.len(), ']');
        },
        GeomLen::LenRange(lo, hi) => {
            let a = dec(lo as nat);
            let b = dec(hi as nat);
            let dash = pos + 1 + a.len();
            lemma_has_at_concat(cs, pos, seq!['['] + a + seq!['-'] + b, seq![']']);
            lemma_has_at_concat(cs, pos, seq!['['] + a + seq!['-'], b);
            lemma_has_at_concat(cs, pos, seq!['['] + a, seq!['-']);
            lemma_has_at_concat(cs, pos, seq!['['], a);
            lemma_has_at_single(cs, pos, '[');
            lemma_has_at_single(cs, dash, '-');
            lemma_has_at_single(cs, dash + 1 + b.len(), ']');
        },
    }
}

/// Reads the length that starts at `pos`: `:`, `[n]` or `[lo-hi]`.
fn parse_len(cs: &[char], pos: usize) -> (r: Option<(GeomLen, usize)>)
    requires
        pos <= cs@.len(),
    ensures
        match r {
            Some((l, e)) => {
                &&& l.wf()
                &&& has_at(cs@, pos as int, l.spec_render())
                &&& e == pos + l.spec_render().len()
                &&& forall|m: GeomLen|
                    m.wf() && has_at(cs@, pos as int, #[trigger] m.spec_render()) ==> m == l
            },
            None => forall|m: GeomLen|
                m.wf() ==> !has_at(cs@, pos as int, #[trigger] m.spec_render()),
        },
{
    if pos < cs.len() && cs[pos] == ':' {
        proof {
            assert forall|m: GeomLen|
                m.wf() && has_at(cs@, pos as int, #[trigger] m.spec_render()) implies m
                == GeomLen::Unbounded by {
                lemma_len_at(cs@, pos as int, m);
            }
            lemma_len_at(cs@, pos as int, GeomLen::Unbounded);
        }
        return Some((GeomLen::Unbounded, pos + 1));
    }
    if !(pos < cs.len() && cs[pos] == '[') {
        proof {
            assert forall|m: GeomLen| m.wf() implies !has_at(
                cs@,
                pos as int,
                #[trigger] m.spec_render(),
            ) by {
                lemma_len_at(cs@, pos as int, m);
            }
        }
        return None;
    }
    let (lo, e1) = match parse_numeral(cs, pos + 1) {
        Some(x) => x,
        None => {
            proof {
                assert forall|m: GeomLen| m.wf() implies !has_at(
                    cs@,
                    pos as int,
                    #[trigger] m.spec_render(),
                ) by {
                    lemma_len_at(cs@, pos as int, m);
                    match m {
                        GeomLen::FixedLen(n) => {
                            if has_at(cs@, pos as int, m.spec_render()) {
                                assert(has_at(cs@, pos + 1, dec(n as nat)));
                            }
                        },
                        GeomLen::LenRange(a, b) => {
                            if has_at(cs@, pos as int, m.spec_render()) {
                                assert(has_at(cs@, pos + 1, dec(a as nat)));
                            }
                        },
                        GeomLen::Unbounded => {},
                    }
                }
            }
            return None;
        },
    };
    if e1 < cs.len() && cs[e1] == ']' {
        let l = GeomLen::FixedLen(lo);
        proof {
            lemma_len_at(cs@, pos as int, l);
            assert forall|m: GeomLen|
                m.wf() && has_at(cs@, pos as int, #[trigger] m.spec_render()) implies m == l by {
                lemma_len_at(cs@, pos as int, m);
                match m {
                    GeomLen::FixedLen(n) => {
                        lemma_dec_at_unique(cs@, pos + 1, n as nat, lo as nat);
                    },
                    GeomLen::LenRange(a, b) => {
                        lemma_dec_at_unique(cs@, pos + 1, a as nat, lo as nat);
                    },
                    GeomLen::Unbounded => {},
                }
            }
        }
        return Some((l, e1 + 1));
    }
    if !(e1 < cs.len() && cs[e1] == '-') {
        proof {
            assert forall|m: GeomLen| m.wf() implies !has_at(
                cs@,
                pos as int,
                #[trigger] m.spec_render(),
            ) by {
                lemma_len_at(cs@, pos as int, m);
                if has_at(cs@, pos as int, m.spec_render()) {
                    match m {
                        GeomLen::FixedLen(n) => {
                            lemma_dec_at_unique(cs@, pos + 1, n as nat, lo as nat);
                        },
                        GeomLen::LenRange(a, b) => {
                            lemma_dec_at_unique(cs@, pos + 1, a as nat, lo as nat);
                        },
                        GeomLen::Unbounded => {},
                    }
                }
            }
        }
        return None;
    }
    let r2 = parse_numeral(cs, e1 + 1);
    match r2 {
        Some((hi, e2)) => {
            if e2 < cs.len() && cs[e2] == ']' && lo <= hi {
                let l = GeomLen::LenRange(lo, hi);
                proof {
                    lemma_len_at(cs@, pos as int, l);
                    assert forall|m: GeomLen|
                        m.wf() && has_at(cs@, pos as int, #[trigger] m.spec_render()) implies m
                        == l by {
                        lemma_len_at(cs@, pos as int, m);
                        match m {
                            GeomLen::FixedLen(n) => {
                                lemma_dec_at_unique(cs@, pos + 1, n as nat, lo as nat);
                            },
                            GeomLen::LenRange(a, b) => {
                                lemma_dec_at_unique(cs@, pos + 1, a as nat, lo as nat);
                                lemma_dec_at_unique(cs@, e1 + 1, b as nat, hi as nat);
                            },
                            GeomLen::Unbounded => {},
                        }
                    }
                }
                return Some((l, e2 + 1));
            }
        },
        None => {},
    }
    proof {
        assert forall|m: GeomLen| m.wf() implies !has_at(
            cs@,
            pos as int,
            #[trigger] m.spec_render(),
        ) by {
            lemma_len_at(cs@, pos as int, m);
            if has_at(cs@, pos as int, m.spec_render()) {
                match m {
                    GeomLen::FixedLen(n) => {
                        lemma_dec_at_unique(cs@, pos + 1, n as nat, lo as nat);
                    },
                    GeomLen::LenRange(a, b) => {
                        lemma_dec_at_unique(cs@, pos + 1, a as nat, lo as nat);
                        if let Some((hi, e2)) = r2 {
                            lemma_dec_at_unique(cs@, e1 + 1, b as nat, hi as nat);
                        }
                    },
                    GeomLen::Unbounded => {},
                }
            }
        }
    }
    None
}

/// Two pieces have the same role and the same length; for anchors, only the
/// role is compared.
pub open spec fn same_shape(p: GeomPiece, q: GeomPiece) -> bool {
    p.role_char() == q.role_char() && p.geom_len() == q.geom_len()
}

/// Where the text of a piece occurs, split into its role letter and the rest.
proof fn lemma_piece_at(cs: Seq<char>, pos: int, q: GeomPiece)
    requires
        0 <= pos,
    ensures
        !(q is Fixed) ==> (has_at(cs, pos, q.spec_render()) <==> {
            &&& pos < cs.len() && cs[pos] == q.role_char()
            &&& has_at(cs, pos + 1, q.geom_len().unwrap().spec_render())
        }),
        q is Fixed ==> (has_at(cs, pos, q.spec_render()) <==> {
            let t = q->Fixed_0->Bases_0@;
            &&& pos + 1 < cs.len() && cs[pos] == 'f' && cs[pos + 1] == '['
            &&& has_at(cs, pos + 2, t)
            &&& pos + 2 + t.len() < cs.len() && cs[pos + 2 + t.len()] == ']'
        }),
{
    match q {
        GeomPiece::Fixed(NucStr::Bases(t)) => {
            let t = t@;
            lemma_has_at_concat(cs, pos, seq!['f', '['] + t, seq![']']);
            lemma_has_at_concat(cs, pos, seq!['f', '['], t);
            lemma_has_at_concat(cs, pos, seq!['f'], seq!['[']);
            assert(seq!['f'] + seq!['['] =~= seq!['f', '[']);
            lemma_has_at_single(cs, pos, 'f');
            lemma_has_at_single(cs, pos + 1, '[');
            lemma_has_at_single(cs, pos + 2 + t.len(), ']');
        },
        _ => {
            lemma_has_at_concat(cs, pos, seq![q.role_char()], q.geom_len().unwrap().spec_render());
            lemma_has_at_single(cs, pos, q.role_char());
        },
    }
}

fn nucleotide_str(c: char) -> (r: &'static str)
    requires
        is_nucleotide(c),
    ensures
        r@ == seq![c],
{
    proof {
        reveal_strlit("A");
        reveal_strlit("C");
        reveal_strlit("G");
        reveal_strlit("T");
    }
    if c == 'A' {
        "A"
    } else if c == 'C' {
        "C"
    } else if c == 'G' {
        "G"
    } else {
        "T"
    }
}

/// Reads the longest run of nucleotides that starts at `pos`.
fn parse_nucleotides(cs: &[char], pos: usize) -> (r: (String, usize))
    requires
        pos <= cs@.len(),
    ensures
        pos <= r.1 <= cs@.len(),
        r.0@ == cs@.subrange(pos as int, r.1 as int),
        forall|k: int| pos <= k < r.1 ==> is_nucleotide(#[trigger] cs@[k]),
        r.1 == cs@.len() || !is_nucleotide(cs@[r.1 as int]),
{
    let mut out = String::new();
    let mut i: usize = pos;
    while i < cs.len() && (cs[i] == 'A' || cs[i] == 'C' || cs[i] == 'G' || cs[i] == 'T')
        invariant
            pos <= i <= cs@.len(),
            out@ == cs@.subrange(pos as int, i as int),
            forall|k: int| pos <= k < i ==> is_nucleotide(#[trigger] cs@[k]),
        decreases cs.len() - i,
    {
        push_str(&mut out, nucleotide_str(cs[i]));
        assert(out@ =~= cs@.subrange(pos as int, i + 1));
        i += 1;
    }
    (out, i)
}

/// Reads the piece that starts at `pos`.
pub fn parse_segment(cs: &[char], pos: usize) -> (r: Option<(GeomPiece, usize)>)
    requires
        pos <= cs@.len(),
    ensures
        match r {
            Some((p, e)) => {
                &&& p.wf()
                &&& has_at(cs@, pos as int, p.spec_render())
                &&& e == pos + p.spec_render().len()
                &&& forall|q: GeomPiece|
                    q.wf() && has_at(cs@, pos as int, #[trigger] q.spec_render()) ==> same_shape(q, p)
                        && q.spec_render() == p.spec_render()
            },
            None => forall|q: GeomPiece|
                q.wf() ==> !has_at(cs@, pos as int, #[trigger] q.spec_render()),
        },
{
    if pos >= cs.len() {
        proof {
            assert forall|q: GeomPiece| q.wf() implies !has_at(
                cs@,
                pos as int,
                #[trigger] q.spec_render(),
            ) by {
                lemma_piece_at(cs@, pos as int, q);
            }
        }
        return None;
    }
    let c = cs[pos];
    if c == 'f' {
        if !(pos + 1 < cs.len() && cs[pos + 1] == '[') {
            proof {
                assert forall|q: GeomPiece| q.wf() implies !has_at(
                    cs@,
                    pos as int,
                    #[trigger] q.spec_render(),
                ) by {
                    lemma_piece_at(cs@, pos as int, q);
                }
            }
            return None;
        }
        let (nucs, e) = parse_nucleotides(cs, pos + 2);
        proof {
            assert forall|q: GeomPiece|
                q.wf() && has_at(cs@, pos as int, #[trigger] q.spec_render()) implies (q is Fixed
                && q->Fixed_0->Bases_0@.len() == e - (pos + 2)) by {
                lemma_piece_at(cs@, pos as int, q);
                let t = q->Fixed_0->Bases_0@;
                let l = t.len() as int;
                if l < e - (pos + 2) {
                    assert(is_nucleotide(cs@[pos + 2 + l]));
                } else if l > e - (pos + 2) {
                    lemma_has_at_index(cs@, pos + 2, t, e - (pos + 2));
                    assert(is_nucleotide(t[e - (pos + 2)]));
                }
            }
        }
        if e > pos + 2 && e < cs.len() && cs[e] == ']' {
            let p = GeomPiece::Fixed(NucStr::Bases(nucs));
            proof {
                let t = nucs@;
                assert forall|k: int| 0 <= k < t.len() implies is_nucleotide(#[trigger] t[k]) by {
                    assert(t[k] == cs@[pos + 2 + k]);
                }
                lemma_piece_at(cs@, pos as int, p);
                assert forall|q: GeomPiece|
                    q.wf() && has_at(cs@, pos as int, #[trigger] q.spec_render()) implies same_shape(q, p)
                    && q.spec_render() == p.spec_render() by {
                    lemma_piece_at(cs@, pos as int, q);
                    let tq = q->Fixed_0->Bases_0@;
                    assert(tq == cs@.subrange(pos + 2, pos + 2 + tq.len()));
                }
            }
            return Some((p, e + 1));
        }
        proof {
            assert forall|q: GeomPiece| q.wf() implies !has_at(
                cs@,
                pos as int,
                #[trigger] q.spec_render(),
            ) by {
                lemma_piece_at(cs@, pos as int, q);
            }
        }
        return None;
    }
    if !(c == 'b' || c == 'u' || c == 'x' || c == 'r') {
        proof {
            assert forall|q: GeomPiece| q.wf() implies !has_at(
                cs@,
                pos as int,
                #[trigger] q.spec_render(),
            ) by {
                lemma_piece_at(cs@, pos as int, q);
            }
        }
        return None;
    }
    match parse_len(cs, pos + 1) {
        Some((l, e)) => {
            let p = if c == 'b' {
                GeomPiece::Barcode(l)
            } else if c == 'u' {
                GeomPiece::Umi(l)
            } else if c == 'x' {
                GeomPiece::Discard(l)
            } else {
                GeomPiece::ReadSeq(l)
            };
            proof {
                lemma_piece_at(cs@, pos as int, p);
                assert forall|q: GeomPiece|
                    q.wf() && has_at(cs@, pos as int, #[trigger] q.spec_render()) implies same_shape(q, p)
                    && q.spec_render() == p.spec_render() by {
                    lemma_piece_at(cs@, pos as int, q);
                    let m = q.geom_len().unwrap();
                    assert(m.wf() && has_at(cs@, pos + 1, m.spec_render()));
                }
            }
            Some((p, e))
        },
        None => {
            proof {
                assert forall|q: GeomPiece| q.wf() implies !has_at(
                    cs@,
                    pos as int,
                    #[trigger] q.spec_render(),
                ) by {
                    lemma_piece_at(cs@, pos as int, q);
                    if !(q is Fixed) {
                        let m = q.geom_len().unwrap();
                        assert(m.wf());
                    }
                }
            }
            None
        },
    }
}

/// The last piece of variable width in `ps` has no anchor after it.
pub open spec fn open_variable(ps: Seq<GeomPiece>) -> bool
    decreases ps.len(),
{
    if ps.len() == 0 {
        false
    } else if ps.last().is_anchor() {
        false
    } else if ps.last().is_variable() {
        true
    } else {
        open_variable(ps.drop_last())
    }
}

/// `ps` agrees, piece by piece, with the start of `qs`.
pub open spec fn aligned(qs: Seq<GeomPiece>, ps: Seq<GeomPiece>) -> bool {
    &&& ps.len() <= qs.len()
    &&& forall|k: int|
        0 <= k < ps.len() ==> same_shape(#[trigger] qs[k], ps[k]) && qs[k].spec_render()
            == ps[k].spec_render()
}

proof fn lemma_open_variable_closed(ps: Seq<GeomPiece>, j: int)
    requires
        !open_variable(ps),
        0 <= j < ps.len(),
        ps[j].is_variable(),
    ensures
        exists|k: int| j < k < ps.len() && (#[trigger] ps[k]).is_anchor(),
    decreases ps.len(),
{
    let n = ps.len() - 1;
    if ps.last().is_anchor() {
        assert(ps[n].is_anchor());
    } else {
        assert(j < n);
        lemma_open_variable_closed(ps.drop_last(), j);
        let k = choose|k: int| j < k < n && (#[trigger] ps.drop_last()[k]).is_anchor();
        assert(ps[k].is_anchor());
    }
}

proof fn lemma_open_variable_open(ps: Seq<GeomPiece>)
    requires
        open_variable(ps),
    ensures
        exists|j: int|
            0 <= j < ps.len() && (#[trigger] ps[j]).is_variable() && forall|k: int|
                j < k < ps.len() ==> !(#[trigger] ps[k]).is_anchor(),
    decreases ps.len(),
{
    let n = ps.len() - 1;
    if ps.last().is_variable() {
        assert(ps[n].is_variable());
    } else {
        lemma_open_variable_open(ps.drop_last());
        let j = choose|j: int|
            0 <= j < n && (#[trigger] ps.drop_last()[j]).is_variable() && forall|k: int|
                j < k < n ==> !(#[trigger] ps.drop_last()[k]).is_anchor();
        assert(ps[j].is_variable());
        assert forall|k: int| j < k < ps.len() implies !(#[trigger] ps[k]).is_anchor() by {
            if k < n {
                assert(ps[k] == ps.drop_last()[k]);
            }
        }
    }
}

proof fn lemma_render_concat(a: Seq<GeomPiece>, b: Seq<GeomPiece>)
    ensures
        render_pieces(a + b) == render_pieces(a) + render_pieces(b),
    decreases b.len(),
{
    if b.len() == 0 {
        assert(a + b =~= a);
        assert(render_pieces(a) + render_pieces(b) =~= render_pieces(a));
    } else {
        lemma_render_concat(a, b.drop_last());
        assert((a + b).drop_last() =~= a + b.drop_last());
        assert(render_pieces(a + b) =~= render_pieces(a) + render_pieces(b));
    }
}

proof fn lemma_render_same(ps: Seq<GeomPiece>, qs: Seq<GeomPiece>)
    requires
        ps.len() == qs.len(),
        forall|k: int| 0 <= k < ps.len() ==> (#[trigger] ps[k]).spec_render() == qs[k].spec_render(),
    ensures
        render_pieces(ps) == render_pieces(qs),
    decreases ps.len(),
{
    if ps.len() > 0 {
        lemma_render_same(ps.drop_last(), qs.drop_last());
        assert(ps.last().spec_render() == qs.last().spec_render());
    }
}

proof fn lemma_render_single(p: GeomPiece)
    ensures
        render_pieces(seq![p]) == p.spec_render(),
{
    let one = seq![p];
    assert(one.drop_last() =~= Seq::<GeomPiece>::empty());
    assert(render_pieces(one.drop_last()) == Seq::<char>::empty());
    assert(one.last() == p);
    assert(Seq::<char>::empty() + p.spec_render() =~= p.spec_render());
}

proof fn lemma_render_first(p: GeomPiece)
    ensures
        p.spec_render().len() > 0,
        p.spec_render()[0] == p.role_char(),
{
}

/// Where `qs` is the read found at `pos`, what follows the pieces `ps` that
/// agree with its start: the closing brace, or its next piece.
proof fn lemma_next_at(cs: Seq<char>, pos: int, qs: Seq<GeomPiece>, ps: Seq<GeomPiece>)
    requires
        0 <= pos,
        has_at(cs, pos, render_pieces(qs) + seq!['}']),
        aligned(qs, ps),
    ensures
        ps.len() == qs.len() ==> render_pieces(qs) == render_pieces(ps) && pos + render_pieces(
            ps,
        ).len() < cs.len() && cs[pos + render_pieces(ps).len()] == '}',
        ps.len() < qs.len() ==> has_at(
            cs,
            pos + render_pieces(ps).len(),
            qs[ps.len() as int].spec_render(),
        ),
{
    let n = ps.len() as int;
    let front = qs.subrange(0, n);
    lemma_render_same(front, ps);
    if n == qs.len() {
        assert(front =~= qs);
        lemma_has_at_concat(cs, pos, render_pieces(qs), seq!['}']);
        lemma_has_at_single(cs, pos + render_pieces(ps).len(), '}');
    } else {
        let rest = qs.subrange(n + 1, qs.len() as int);
        assert(qs =~= front + (seq![qs[n]] + rest));
        lemma_render_concat(front, seq![qs[n]] + rest);
        lemma_render_concat(seq![qs[n]], rest);
        lemma_render_single(qs[n]);
        let t = render_pieces(qs) + seq!['}'];
        assert(t =~= render_pieces(ps) + (qs[n].spec_render() + (render_pieces(rest) + seq!['}'])));
        lemma_has_at_concat(
            cs,
            pos,
            render_pieces(ps),
            qs[n].spec_render() + (render_pieces(rest) + seq!['}']),
        );
        lemma_has_at_concat(
            cs,
            pos + render_pieces(ps).len(),
            qs[n].spec_render(),
            render_pieces(rest) + seq!['}'],
        );
    }
}

/// Reads the pieces of one read, from `pos` up to its closing brace.
fn parse_read_description(cs: &[char], pos: usize) -> (r: Result<(Vec<GeomPiece>, usize), usize>)
    requires
        pos <= cs@.len(),
    ensures
        match r {
            Ok((ps, e)) => {
                &&& wf_read(ps@)
                &&& has_at(cs@, pos as int, render_pieces(ps@))
                &&& e == pos + render_pieces(ps@).len()
                &&& e < cs@.len() && cs@[e as int] == '}'
                &&& forall|qs: Seq<GeomPiece>|
                    #[trigger] wf_read(qs) && has_at(cs@, pos as int, render_pieces(qs) + seq!['}'])
                        ==> render_pieces(qs) == render_pieces(ps@)
            },
            Err(k) => {
                &&& pos <= k <= cs@.len()
                &&& forall|qs: Seq<GeomPiece>|
                    #[trigger] wf_read(qs) ==> !has_at(cs@, pos as int, render_pieces(qs) + seq!['}'])
                &&& exists|ps: Seq<GeomPiece>|
                    wf_read(ps) && has_at(cs@, pos as int, #[trigger] render_pieces(ps)) && k == pos
                        + render_pieces(ps).len()
            },
        },
{
    let mut ps: Vec<GeomPiece> = Vec::new();
    let mut i: usize = pos;
    let mut open: bool = false;
    proof {
        assert(cs@.subrange(pos as int, pos as int) =~= Seq::<char>::empty());
    }
    while i < cs.len() && cs[i] != '}'
        invariant
            pos <= i <= cs@.len(),
            wf_read(ps@),
            has_at(cs@, pos as int, render_pieces(ps@)),
            i == pos + render_pieces(ps@).len(),
            open == open_variable(ps@),
            forall|qs: Seq<GeomPiece>|
                #[trigger] wf_read(qs) && has_at(cs@, pos as int, render_pieces(qs) + seq!['}'])
                    ==> aligned(qs, ps@),
        decreases cs.len() - i,
    {
        let ghost n = ps@.len() as int;
        match parse_segment(cs, i) {
            None => {
                proof {
                    assert forall|qs: Seq<GeomPiece>| #[trigger] wf_read(qs) implies !has_at(
                        cs@,
                        pos as int,
                        render_pieces(qs) + seq!['}'],
                    ) by {
                        if has_at(cs@, pos as int, render_pieces(qs) + seq!['}']) {
                            lemma_next_at(cs@, pos as int, qs, ps@);
                            if n < qs.len() {
                                assert(qs[n].wf());
                            }
                        }
                    }
                }
                proof {
                    assert(wf_read(ps@) && has_at(cs@, pos as int, render_pieces(ps@)));
                }
                return Err(i);
            },
            Some((p, e)) => {
                let variable = !p.is_fixed_len();
                let anchor = matches!(p, GeomPiece::Fixed(_));
                if open && variable {
                    proof {
                        assert forall|qs: Seq<GeomPiece>| #[trigger] wf_read(qs) implies !has_at(
                            cs@,
                            pos as int,
                            render_pieces(qs) + seq!['}'],
                        ) by {
                            if has_at(cs@, pos as int, render_pieces(qs) + seq!['}']) {
                                lemma_next_at(cs@, pos as int, qs, ps@);
                                assert(n < qs.len());
                                assert(qs[n].wf());
                                assert(same_shape(qs[n], p));
                                assert(qs[n].is_variable());
                                lemma_open_variable_open(ps@);
                                let j = choose|j: int|
                                    0 <= j < n && (#[trigger] ps@[j]).is_variable() && forall|k: int|
                                        j < k < n ==> !(#[trigger] ps@[k]).is_anchor();
                                assert(same_shape(qs[j], ps@[j]));
                                assert(qs[j].is_variable());
                                let k = choose|k: int| j < k < n && (#[trigger] qs[k]).is_anchor();
                                assert(same_shape(qs[k], ps@[k]));
                            }
                        }
                    }
                    proof {
                    assert(wf_read(ps@) && has_at(cs@, pos as int, render_pieces(ps@)));
                }
                return Err(i);
                }
                let ghost old_ps = ps@;
                proof {
                    assert forall|j: int|
                        0 <= j < n && (#[trigger] old_ps[j]).is_variable() && p.is_variable()
                            implies exists|k: int| j < k < n + 1 && (#[trigger] old_ps.push(p)[k]).is_anchor() by {
                        lemma_open_variable_closed(old_ps, j);
                        let k = choose|k: int| j < k < n && (#[trigger] old_ps[k]).is_anchor();
                        assert(old_ps.push(p)[k] == old_ps[k]);
                    }
                    lemma_render_concat(old_ps, seq![p]);
                    lemma_render_single(p);
                    lemma_has_at_concat(cs@, pos as int, render_pieces(old_ps), p.spec_render());
                    assert(old_ps.push(p) =~= old_ps + seq![p]);
                    assert(old_ps.push(p).drop_last() =~= old_ps);
                    assert forall|qs: Seq<GeomPiece>|
                        #[trigger] wf_read(qs) && has_at(cs@, pos as int, render_pieces(qs) + seq!['}'])
                            implies aligned(qs, old_ps.push(p)) by {
                        lemma_next_at(cs@, pos as int, qs, old_ps);
                        assert(n < qs.len());
                        assert(qs[n].wf());
                        assert forall|k: int| 0 <= k < n + 1 implies same_shape(#[trigger] qs[k], old_ps.push(p)[k])
                            && qs[k].spec_render() == old_ps.push(p)[k].spec_render() by {
                            if k < n {
                                assert(old_ps.push(p)[k] == old_ps[k]);
                            }
                        }
                    }
                }
                ps.push(p);
                if anchor {
                    open = false;
                } else if variable {
                    open = true;
                }
                i = e;
            },
        }
    }
    if i >= cs.len() {
        proof {
            assert forall|qs: Seq<GeomPiece>| #[trigger] wf_read(qs) implies !has_at(
                cs@,
                pos as int,
                render_pieces(qs) + seq!['}'],
            ) by {
                if has_at(cs@, pos as int, render_pieces(qs) + seq!['}']) {
                    lemma_next_at(cs@, pos as int, qs, ps@);
                    if ps@.len() < qs.len() {
                        lemma_render_first(qs[ps@.len() as int]);
                    }
                }
            }
        }
        proof {
                    assert(wf_read(ps@) && has_at(cs@, pos as int, render_pieces(ps@)));
                }
                return Err(i);
    }
    proof {
        assert forall|qs: Seq<GeomPiece>|
            #[trigger] wf_read(qs) && has_at(cs@, pos as int, render_pieces(qs) + seq!['}'])
                implies render_pieces(qs) == render_pieces(ps@) by {
            lemma_next_at(cs@, pos as int, qs, ps@);
            if ps@.len() < qs.len() {
                let q = qs[ps@.len() as int];
                lemma_render_first(q);
                lemma_has_at_index(cs@, i as int, q.spec_render(), 0);
            }
        }
    }
    Ok((ps, i))
}

/// The pieces that make up the text of a geometry, where they stand.
proof fn lemma_frag_at(cs: Seq<char>, d: FragmentGeomDesc)
    requires
        cs == d.spec_render(),
    ensures
        ({
            let a = render_pieces(d.read1_desc@);
            let b = render_pieces(d.read2_desc@);
            let e1 = 2 + a.len() as int;
            &&& cs.len() == e1 + 4 + b.len()
            &&& cs[0] == '1' && cs[1] == '{'
            &&& has_at(cs, 2, a + seq!['}'])
            &&& cs[e1 + 1] == '2' && cs[e1 + 2] == '{'
            &&& has_at(cs, e1 + 3, b + seq!['}'])
        }),
{
    let a = render_pieces(d.read1_desc@);
    let b = render_pieces(d.read2_desc@);
    let e1 = 2 + a.len() as int;
    assert(cs[0] == '1' && cs[1] == '{');
    assert(cs[e1 + 1] == '2' && cs[e1 + 2] == '{');
    assert(cs.subrange(2, e1 + 1) =~= a + seq!['}']);
    assert(cs.subrange(e1 + 3, e1 + 3 + b.len() + 1) =~= b + seq!['}']);
}

/// The character sequence of a string.
fn chars_of(s: &str) -> (r: Vec<char>)
    ensures
        r@ == s@,
{
    broadcast use vstd::string::axiom_spec_iter;

    let mut v: Vec<char> = Vec::new();
    for c in it: s.chars()
        invariant
            it.seq() == s@,
            v@ == it.seq().take(it.index() as int),
    {
        v.push(c);
        assert(v@ =~= it.seq().take(it.index() + 1));
    }
    assert(v@ =~= s@);
    v
}

/// The texts of the language: those of well-formed geometries.
pub open spec fn is_geometry_text(s: Seq<char>) -> bool {
    exists|d: FragmentGeomDesc| d.wf() && #[trigger] d.spec_render() == s
}

/// The canonical text of every well-formed geometry is in the language. With
/// the contract of `FragGeomParser::parse`, parsing it succeeds and gives a
/// geometry whose canonical text is that same text: rendering, parsing and
/// rendering again is the identity on canonical texts.
pub proof fn lemma_canonical_text_is_accepted(d: FragmentGeomDesc)
    requires
        d.wf(),
    ensures
        is_geometry_text(d.spec_render()),
{
    assert(d.wf() && d.spec_render() == d.spec_render());
}

/// The text of a geometry whose reads are made of `r1` and `r2`.
pub open spec fn frag_text(r1: Seq<GeomPiece>, r2: Seq<GeomPiece>) -> Seq<char> {
    seq!['1', '{'] + render_pieces(r1) + seq!['}', '2', '{'] + render_pieces(r2) + seq!['}']
}

/// `t` is the beginning of the text of some well-formed geometry.
pub open spec fn is_geometry_prefix(t: Seq<char>) -> bool {
    exists|r1: Seq<GeomPiece>, r2: Seq<GeomPiece>|
        wf_read(r1) && wf_read(r2) && t.len() <= (#[trigger] frag_text(r1, r2)).len() && frag_text(
            r1,
            r2,
        ).subrange(0, t.len() as int) == t
}

proof fn lemma_prefix_of(cs: Seq<char>, r1: Seq<GeomPiece>, r2: Seq<GeomPiece>, k: int)
    requires
        wf_read(r1),
        wf_read(r2),
        0 <= k <= cs.len(),
        k <= frag_text(r1, r2).len(),
        forall|j: int| 0 <= j < k ==> cs[j] == #[trigger] frag_text(r1, r2)[j],
    ensures
        is_geometry_prefix(cs.subrange(0, k)),
{
    assert(frag_text(r1, r2).subrange(0, k) =~= cs.subrange(0, k));
}

/// Parses fragment geometry descriptions.
pub struct FragGeomParser;

impl FragGeomParser {
    /// Parses a fragment geometry description `1{<read>}2{<read>}`. The whole
    /// input must be consumed. On success, the geometry's canonical text is
    /// exactly the input. Otherwise the error holds the character index at
    /// which reading stopped: the start of the piece or the part of the frame
    /// that could not be read, or the end of the input. Everything before it
    /// is the beginning of some well-formed description.
    pub fn parse(input: &str) -> (r: Result<FragmentGeomDesc, GeomError>)
        ensures
            r is Ok <==> is_geometry_text(input@),
            r matches Ok(d) ==> d.wf() && d.spec_render() == input@,
            r matches Err(e) ==> e matches GeomError::Syntax(k) && k <= input@.len()
                && is_geometry_prefix(input@.subrange(0, k as int)),
    {
        let v = chars_of(input);
        let cs = v.as_slice();
        let n = cs.len();
        if !(n >= 2 && cs[0] == '1' && cs[1] == '{') {
            proof {
                assert forall|d: FragmentGeomDesc| d.wf() implies #[trigger] d.spec_render()
                    != input@ by {
                    if d.spec_render() == input@ {
                        lemma_frag_at(cs@, d);
                    }
                }
                lemma_prefix_of(cs@, Seq::empty(), Seq::empty(), 0);
            }
            return Err(GeomError::Syntax(0));
        }
        let (r1, e1) = match parse_read_description(cs, 2) {
            Ok(x) => x,
            Err(k) => {
                proof {
                    assert forall|d: FragmentGeomDesc| d.wf() implies #[trigger] d.spec_render()
                        != input@ by {
                        if d.spec_render() == input@ {
                            lemma_frag_at(cs@, d);
                            assert(wf_read(d.read1_desc@));
                        }
                    }
                    let ps = choose|ps: Seq<GeomPiece>|
                        wf_read(ps) && has_at(cs@, 2, #[trigger] render_pieces(ps)) && k == 2
                            + render_pieces(ps).len();
                    let none = Seq::<GeomPiece>::empty();
                    assert forall|j: int| 0 <= j < k implies cs@[j] == #[trigger] frag_text(ps, none)[j] by {
                        if j >= 2 {
                            lemma_has_at_index(cs@, 2, render_pieces(ps), j - 2);
                        }
                    }
                    lemma_prefix_of(cs@, ps, none, k as int);
                }
                return Err(GeomError::Syntax(k));
            },
        };
        if !(n - e1 > 2 && cs[e1 + 1] == '2' && cs[e1 + 2] == '{') {
            proof {
                assert forall|d: FragmentGeomDesc| d.wf() implies #[trigger] d.spec_render()
                    != input@ by {
                    if d.spec_render() == input@ {
                        lemma_frag_at(cs@, d);
                        assert(wf_read(d.read1_desc@));
                    }
                }
                let none = Seq::<GeomPiece>::empty();
                assert forall|j: int| 0 <= j < e1 + 1 implies cs@[j] == #[trigger] frag_text(r1@, none)[j] by {
                    if 2 <= j < e1 {
                        lemma_has_at_index(cs@, 2, render_pieces(r1@), j - 2);
                    }
                }
                lemma_prefix_of(cs@, r1@, none, e1 + 1);
            }
            return Err(GeomError::Syntax(e1 + 1));
        }
        let (r2, e2) = match parse_read_description(cs, e1 + 3) {
            Ok(x) => x,
            Err(k) => {
                proof {
                    assert forall|d: FragmentGeomDesc| d.wf() implies #[trigger] d.spec_render()
                        != input@ by {
                        if d.spec_render() == input@ {
                            lemma_frag_at(cs@, d);
                            assert(wf_read(d.read1_desc@));
                            assert(wf_read(d.read2_desc@));
                        }
                    }
                    let ps = choose|ps: Seq<GeomPiece>|
                        wf_read(ps) && has_at(cs@, e1 + 3, #[trigger] render_pieces(ps)) && k == e1
                            + 3 + render_pieces(ps).len();
                    assert forall|j: int| 0 <= j < k implies cs@[j] == #[trigger] frag_text(r1@, ps)[j] by {
                        if 2 <= j < e1 {
                            lemma_has_at_index(cs@, 2, render_pieces(r1@), j - 2);
                        } else if j >= e1 + 3 {
                            lemma_has_at_index(cs@, e1 + 3, render_pieces(ps), j - (e1 + 3));
                        }
                    }
                    lemma_prefix_of(cs@, r1@, ps, k as int);
                }
                return Err(GeomError::Syntax(k));
            },
        };
        if e2 + 1 != n {
            proof {
                assert forall|d: FragmentGeomDesc| d.wf() implies #[trigger] d.spec_render()
                    != input@ by {
                    if d.spec_render() == input@ {
                        lemma_frag_at(cs@, d);
                        assert(wf_read(d.read1_desc@));
                        assert(wf_read(d.read2_desc@));
                    }
                }
                assert forall|j: int| 0 <= j < e2 + 1 implies cs@[j] == #[trigger] frag_text(r1@, r2@)[j] by {
                    if 2 <= j < e1 {
                        lemma_has_at_index(cs@, 2, render_pieces(r1@), j - 2);
                    } else if e1 + 3 <= j < e2 {
                        lemma_has_at_index(cs@, e1 + 3, render_pieces(r2@), j - (e1 + 3));
                    }
                }
                lemma_prefix_of(cs@, r1@, r2@, e2 + 1);
            }
            return Err(GeomError::Syntax(e2 + 1));
        }
        let d = FragmentGeomDesc { read1_desc: r1, read2_desc: r2 };
        proof {
            let a = render_pieces(d.read1_desc@);
            let b = render_pieces(d.read2_desc@);
            assert forall|k: int| 0 <= k < cs@.len() implies cs@[k] == d.spec_render()[k] by {
                if 2 <= k < e1 {
                    lemma_has_at_index(cs@, 2, a, k - 2);
                } else if e1 + 3 <= k < e2 {
                    lemma_has_at_index(cs@, e1 + 3, b, k - (e1 + 3));
                }
            }
            assert(cs@ =~= d.spec_render());
        }
        Ok(d)
    }
}

impl<'a> TryFrom<&'a str> for FragmentGeomDesc {
    type Error = GeomError;

    /// Parses a fragment geometry description, as `FragGeomParser::parse`
    /// does.
    fn try_from(arg: &'a str) -> (r: Result<Self, Self::Error>)
        ensures
            r is Ok <==> is_geometry_text(arg@),
            r matches Ok(d) ==> d.wf() && d.spec_render() == arg@,
            r matches Err(e) ==> e matches GeomError::Syntax(k) && k <= arg@.len()
                && is_geometry_prefix(arg@.subrange(0, k as int)),
    {
        FragGeomParser::parse(arg)
    }
}

/// The conversion is specified on `try_from` itself, by the contract of
/// `FragGeomParser::parse`, not through a spec function of the trait.
impl<'a> vstd::std_specs::convert::TryFromSpecImpl<&'a str> for FragmentGeomDesc {
    open spec fn obeys_try_from_spec() -> bool {
        false
    }

    open spec fn try_from_spec(v: &'a str) -> Result<Self, GeomError> {
        arbitrary()
    }
}

} // verus!
