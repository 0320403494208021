//! The wire format of programs: fixed-width little-endian integers,
//! length-prefixed sequences and one tag byte per variant. Decoding reads
//! exactly what encoding wrote.

use vstd::prelude::*;
use crate::asset::Asset;
use crate::location::{Junction, Location};
use crate::program::{Instruction, OriginKind, Program, views};
use crate::weight::Weight;

verus! {

/// Why a byte string is not a program.
#[derive(Clone, Copy, Debug, PartialEq, Eq, Structural)]
pub enum DecodeError {
    /// The input ends inside a value, a tag byte names no variant, or a
    /// value is out of range for its type.
    Malformed,
    /// Bytes remain after the program.
    TrailingBytes,
    /// The program is of a version other than the one asked for.
    UnsupportedVersion,
}

pub open spec fn u64_le(x: u64) -> Seq<u8> {
    seq![
        x as u8,
        (x >> 8u64) as u8,
        (x >> 16u64) as u8,
        (x >> 24u64) as u8,
        (x >> 32u64) as u8,
        (x >> 40u64) as u8,
        (x >> 48u64) as u8,
        (x >> 56u64) as u8,
    ]
}

pub open spec fn u64_from_le(b0: u8, b1: u8, b2: u8, b3: u8, b4: u8, b5: u8, b6: u8, b7: u8) -> u64 {
    (b0 as u64) | ((b1 as u64) << 8u64) | ((b2 as u64) << 16u64) | ((b3 as u64) << 24u64) | ((
    b4 as u64) << 32u64) | ((b5 as u64) << 40u64) | ((b6 as u64) << 48u64) | ((b7 as u64)
        << 56u64)
}

pub proof fn lemma_u64_round_trip(x: u64)
    ensures
        u64_from_le(
            x as u8,
            (x >> 8u64) as u8,
            (x >> 16u64) as u8,
            (x >> 24u64) as u8,
            (x >> 32u64) as u8,
            (x >> 40u64) as u8,
            (x >> 48u64) as u8,
            (x >> 56u64) as u8,
        ) == x,
{
    assert((x as u8 as u64) | (((x >> 8u64) as u8 as u64) << 8u64) | (((x >> 16u64) as u8 as u64)
        << 16u64) | (((x >> 24u64) as u8 as u64) << 24u64) | (((x >> 32u64) as u8 as u64)
        << 32u64) | (((x >> 40u64) as u8 as u64) << 40u64) | (((x >> 48u64) as u8 as u64)
        << 48u64) | (((x >> 56u64) as u8 as u64) << 56u64) == x) by (bit_vector);
}

/// Whether `bytes` holds `piece` from `pos` on.
pub open spec fn holds_at(bytes: Seq<u8>, pos: int, piece: Seq<u8>) -> bool {
    0 <= pos && pos + piece.len() <= bytes.len() && bytes.subrange(pos, pos + piece.len()) == piece
}

pub fn put_u64(out: &mut Vec<u8>, x: u64)
    ensures
        final(out)@ == old(out)@ + u64_le(x),
{
    out.push(x as u8);
    out.push((x >> 8u64) as u8);
    out.push((x >> 16u64) as u8);
    out.push((x >> 24u64) as u8);
    out.push((x >> 32u64) as u8);
    out.push((x >> 40u64) as u8);
    out.push((x >> 48u64) as u8);
    out.push((x >> 56u64) as u8);
    proof {
        assert(out@ =~= old(out)@ + u64_le(x));
    }
}

/// Read a `u64` at `pos`; with the end position.
pub fn get_u64(bytes: &Vec<u8>, pos: usize) -> (r: Option<(u64, usize)>)
    ensures
        r is Some <==> pos + 8 <= bytes@.len(),
        r is Some ==> r.unwrap().1 == pos + 8 && holds_at(bytes@, pos as int, u64_le(r.unwrap().0)),
        forall|x: u64| #[trigger] holds_at(bytes@, pos as int, u64_le(x)) ==> r == Some((x, (pos + 8) as usize)),
{
    if pos > bytes.len() || bytes.len() - pos < 8 {
        return None;
    }
    let b0 = bytes[pos];
    let b1 = bytes[pos + 1];
    let b2 = bytes[pos + 2];
    let b3 = bytes[pos + 3];
    let b4 = bytes[pos + 4];
    let b5 = bytes[pos + 5];
    let b6 = bytes[pos + 6];
    let b7 = bytes[pos + 7];
    let x: u64 = (b0 as u64) | ((b1 as u64) << 8u64) | ((b2 as u64) << 16u64) | ((b3 as u64) << 24u64) | ((
    b4 as u64) << 32u64) | ((b5 as u64) << 40u64) | ((b6 as u64) << 48u64) | ((b7 as u64)
        << 56u64);
    proof {
        assert(x as u8 == b0 && (x >> 8u64) as u8 == b1 && (x >> 16u64) as u8 == b2 && (x >> 24u64) as u8 == b3
            && (x >> 32u64) as u8 == b4 && (x >> 40u64) as u8 == b5 && (x >> 48u64) as u8 == b6
            && (x >> 56u64) as u8 == b7) by (bit_vector)
            requires
                x == (b0 as u64) | ((b1 as u64) << 8u64) | ((b2 as u64) << 16u64) | ((b3 as u64) << 24u64) | ((
                b4 as u64) << 32u64) | ((b5 as u64) << 40u64) | ((b6 as u64) << 48u64) | ((b7 as u64)
                    << 56u64);
        assert(bytes@.subrange(pos as int, pos + 8) =~= u64_le(x));
        assert forall|y: u64| #[trigger] holds_at(bytes@, pos as int, u64_le(y)) implies y == x by {
            let s = bytes@.subrange(pos as int, pos + 8);
            assert(s[0] == b0 && s[1] == b1 && s[2] == b2 && s[3] == b3);
            assert(s[4] == b4 && s[5] == b5 && s[6] == b6 && s[7] == b7);
            lemma_u64_round_trip(y);
        }
    }
    Some((x, pos + 8))
}


pub proof fn lemma_holds_split(bytes: Seq<u8>, pos: int, a: Seq<u8>, b: Seq<u8>)
    ensures
        holds_at(bytes, pos, a + b) <==> (holds_at(bytes, pos, a) && holds_at(
            bytes,
            pos + a.len(),
            b,
        )),
{
    if holds_at(bytes, pos, a + b) {
        assert(bytes.subrange(pos, pos + a.len()) =~= (a + b).subrange(0, a.len() as int));
        assert(bytes.subrange(pos + a.len(), pos + a.len() + b.len()) =~= (a + b).subrange(
            a.len() as int,
            (a.len() + b.len()) as int,
        ));
        assert((a + b).subrange(0, a.len() as int) =~= a);
        assert((a + b).subrange(a.len() as int, (a.len() + b.len()) as int) =~= b);
    }
    if holds_at(bytes, pos, a) && holds_at(bytes, pos + a.len(), b) {
        assert(bytes.subrange(pos, pos + a.len() + b.len()) =~= bytes.subrange(pos, pos + a.len())
            + bytes.subrange(pos + a.len(), pos + a.len() + b.len()));
    }
}

/// The concatenated encodings of the elements of `s`.
pub open spec fn concat_enc<T>(s: Seq<T>, f: spec_fn(T) -> Seq<u8>) -> Seq<u8>
    decreases s.len(),
{
    if s.len() == 0 {
        Seq::empty()
    } else {
        concat_enc(s.drop_last(), f) + f(s.last())
    }
}

pub proof fn lemma_concat_step<T>(s: Seq<T>, f: spec_fn(T) -> Seq<u8>, i: int)
    requires
        0 <= i < s.len(),
    ensures
        concat_enc(s.take(i + 1), f) == concat_enc(s.take(i), f) + f(s[i]),
{
    assert(s.take(i + 1).drop_last() =~= s.take(i));
}

/// The encoding of a prefix is a prefix of the encoding.
pub proof fn lemma_concat_prefix<T>(s: Seq<T>, f: spec_fn(T) -> Seq<u8>, i: int)
    requires
        0 <= i <= s.len(),
    ensures
        concat_enc(s.take(i), f).len() <= concat_enc(s, f).len(),
        concat_enc(s, f).subrange(0, concat_enc(s.take(i), f).len() as int) == concat_enc(
            s.take(i),
            f,
        ),
    decreases s.len(),
{
    if i == s.len() {
        assert(s.take(i) =~= s);
        assert(concat_enc(s, f).subrange(0, concat_enc(s, f).len() as int) =~= concat_enc(s, f));
    } else {
        assert(s.take(i) =~= s.drop_last().take(i));
        lemma_concat_prefix(s.drop_last(), f, i);
        let a = concat_enc(s.drop_last(), f);
        let k = concat_enc(s.take(i), f).len() as int;
        assert((a + f(s.last())).subrange(0, k) =~= a.subrange(0, k));
    }
}

/// Where `bytes` holds the encoding of `s` at `pos`, it holds that of
/// element `i` right after that of the first `i` elements.
pub proof fn lemma_concat_element<T>(
    bytes: Seq<u8>,
    pos: int,
    s: Seq<T>,
    f: spec_fn(T) -> Seq<u8>,
    i: int,
)
    requires
        0 <= i < s.len(),
        holds_at(bytes, pos, concat_enc(s, f)),
    ensures
        holds_at(bytes, pos + concat_enc(s.take(i), f).len(), f(s[i])),
        holds_at(bytes, pos, concat_enc(s.take(i + 1), f)),
{
    lemma_concat_step(s, f, i);
    lemma_concat_prefix(s, f, i + 1);
    let whole = concat_enc(s, f);
    let pre = concat_enc(s.take(i + 1), f);
    assert(bytes.subrange(pos, pos + pre.len()) =~= whole.subrange(0, pre.len() as int));
    lemma_holds_split(bytes, pos, concat_enc(s.take(i), f), f(s[i]));
}

pub open spec fn u128_le(a: u128) -> Seq<u8> {
    u64_le(a as u64) + u64_le((a >> 64u128) as u64)
}

pub fn put_u128(out: &mut Vec<u8>, a: u128)
    ensures
        final(out)@ == old(out)@ + u128_le(a),
{
    put_u64(out, a as u64);
    put_u64(out, (a >> 64u128) as u64);
    proof {
        assert(out@ =~= old(out)@ + u128_le(a));
    }
}

pub fn get_u128(bytes: &Vec<u8>, pos: usize) -> (r: Option<(u128, usize)>)
    ensures
        r is Some ==> r.unwrap().1 == pos + 16 && holds_at(bytes@, pos as int, u128_le(r.unwrap().0)),
        forall|x: u128| #[trigger] holds_at(bytes@, pos as int, u128_le(x)) ==> r == Some((x, (pos + 16) as usize)),
{
    let r = match get_u64(bytes, pos) {
        None => None,
        Some((lo, p1)) => match get_u64(bytes, p1) {
            None => None,
            Some((hi, p2)) => {
                let a: u128 = (lo as u128) | ((hi as u128) << 64u128);
                proof {
                    assert(a as u64 == lo && (a >> 64u128) as u64 == hi) by (bit_vector)
                        requires
                            a == (lo as u128) | ((hi as u128) << 64u128);
                    lemma_holds_split(bytes@, pos as int, u64_le(lo), u64_le(hi));
                }
                Some((a, p2))
            },
        },
    };
    proof {
        assert forall|x: u128| #[trigger] holds_at(bytes@, pos as int, u128_le(x)) implies r == Some((x, (pos + 16) as usize)) by {
            lemma_holds_split(bytes@, pos as int, u64_le(x as u64), u64_le((x >> 64u128) as u64));
            assert(((x as u64) as u128) | ((((x >> 64u128) as u64) as u128) << 64u128) == x) by (bit_vector);
        }
    }
    r
}

pub open spec fn weight_enc(w: Weight) -> Seq<u8> {
    u64_le(w.ref_time) + u64_le(w.proof_size)
}

pub fn put_weight(out: &mut Vec<u8>, w: Weight)
    ensures
        final(out)@ == old(out)@ + weight_enc(w),
{
    put_u64(out, w.ref_time);
    put_u64(out, w.proof_size);
    proof {
        assert(out@ =~= old(out)@ + weight_enc(w));
    }
}

pub fn get_weight(bytes: &Vec<u8>, pos: usize) -> (r: Option<(Weight, usize)>)
    ensures
        r is Some ==> r.unwrap().1 == pos + 16 && holds_at(bytes@, pos as int, weight_enc(r.unwrap().0)),
        forall|x: Weight| #[trigger] holds_at(bytes@, pos as int, weight_enc(x)) ==> r == Some((x, (pos + 16) as usize)),
{
    let r = match get_u64(bytes, pos) {
        None => None,
        Some((t, p1)) => match get_u64(bytes, p1) {
            None => None,
            Some((ps, p2)) => {
                proof {
                    lemma_holds_split(bytes@, pos as int, u64_le(t), u64_le(ps));
                }
                Some((Weight { ref_time: t, proof_size: ps }, p2))
            },
        },
    };
    proof {
        assert forall|x: Weight| #[trigger] holds_at(bytes@, pos as int, weight_enc(x)) implies r == Some((x, (pos + 16) as usize)) by {
            lemma_holds_split(bytes@, pos as int, u64_le(x.ref_time), u64_le(x.proof_size));
        }
    }
    r
}

pub open spec fn asset_enc(a: Asset) -> Seq<u8> {
    u64_le(a.id) + u128_le(a.amount)
}

pub fn put_asset(out: &mut Vec<u8>, a: Asset)
    ensures
        final(out)@ == old(out)@ + asset_enc(a),
{
    put_u64(out, a.id);
    put_u128(out, a.amount);
    proof {
        assert(out@ =~= old(out)@ + asset_enc(a));
    }
}

pub fn get_asset(bytes: &Vec<u8>, pos: usize) -> (r: Option<(Asset, usize)>)
    ensures
        r is Some ==> r.unwrap().1 == pos + 24 && holds_at(bytes@, pos as int, asset_enc(r.unwrap().0)),
        forall|x: Asset| #[trigger] holds_at(bytes@, pos as int, asset_enc(x)) ==> r == Some((x, (pos + 24) as usize)),
{
    let r = match get_u64(bytes, pos) {
        None => None,
        Some((id, p1)) => match get_u128(bytes, p1) {
            None => None,
            Some((amount, p2)) => {
                proof {
                    lemma_holds_split(bytes@, pos as int, u64_le(id), u128_le(amount));
                }
                Some((Asset { id, amount }, p2))
            },
        },
    };
    proof {
        assert forall|x: Asset| #[trigger] holds_at(bytes@, pos as int, asset_enc(x)) implies r == Some((x, (pos + 24) as usize)) by {
            lemma_holds_split(bytes@, pos as int, u64_le(x.id), u128_le(x.amount));
        }
    }
    r
}


pub fn get_u8(bytes: &Vec<u8>, pos: usize) -> (r: Option<(u8, usize)>)
    ensures
        r is Some ==> r.unwrap().1 == pos + 1 && holds_at(bytes@, pos as int, seq![r.unwrap().0]),
        forall|x: u8| #[trigger] holds_at(bytes@, pos as int, seq![x]) ==> r == Some((x, (pos + 1) as usize)),
{
    if pos >= bytes.len() {
        return None;
    }
    let b = bytes[pos];
    proof {
        assert(bytes@.subrange(pos as int, pos + 1) =~= seq![b]);
        assert forall|x: u8| #[trigger] holds_at(bytes@, pos as int, seq![x]) implies x == b by {
            assert(bytes@.subrange(pos as int, pos + 1)[0] == b);
        }
    }
    Some((b, pos + 1))
}

pub open spec fn junction_enc(j: Junction) -> Seq<u8> {
    match j {
        Junction::Parachain(id) => seq![0u8] + u64_le(id as u64),
        Junction::AccountIndex64(index) => seq![1u8] + u64_le(index),
        Junction::PalletInstance(index) => seq![2u8] + u64_le(index as u64),
        Junction::GeneralIndex(index) => seq![3u8] + u64_le(index),
    }
}

pub open spec fn junction_f() -> spec_fn(Junction) -> Seq<u8> {
    |j: Junction| junction_enc(j)
}

pub fn put_junction(out: &mut Vec<u8>, j: Junction)
    ensures
        final(out)@ == old(out)@ + junction_enc(j),
{
    match j {
        Junction::Parachain(id) => {
            out.push(0u8);
            put_u64(out, id as u64);
        },
        Junction::AccountIndex64(index) => {
            out.push(1u8);
            put_u64(out, index);
        },
        Junction::PalletInstance(index) => {
            out.push(2u8);
            put_u64(out, index as u64);
        },
        Junction::GeneralIndex(index) => {
            out.push(3u8);
            put_u64(out, index);
        },
    }
    proof {
        assert(out@ =~= old(out)@ + junction_enc(j));
    }
}

pub fn get_junction(bytes: &Vec<u8>, pos: usize) -> (r: Option<(Junction, usize)>)
    ensures
        r is Some ==> r.unwrap().1 == pos + 9 && holds_at(bytes@, pos as int, junction_enc(r.unwrap().0)),
        forall|x: Junction| #[trigger] holds_at(bytes@, pos as int, junction_enc(x)) ==> r == Some((x, (pos + 9) as usize)),
{
    let r = match get_u8(bytes, pos) {
        None => None,
        Some((tag, p1)) => match get_u64(bytes, p1) {
            None => None,
            Some((v, p2)) => {
                proof {
                    lemma_holds_split(bytes@, pos as int, seq![tag], u64_le(v));
                }
                if tag == 0 {
                    if v <= u32::MAX as u64 {
                        Some((Junction::Parachain(v as u32), p2))
                    } else {
                        None
                    }
                } else if tag == 1 {
                    Some((Junction::AccountIndex64(v), p2))
                } else if tag == 2 {
                    if v <= u8::MAX as u64 {
                        Some((Junction::PalletInstance(v as u8), p2))
                    } else {
                        None
                    }
                } else if tag == 3 {
                    Some((Junction::GeneralIndex(v), p2))
                } else {
                    None
                }
            },
        },
    };
    proof {
        assert forall|x: Junction| #[trigger] holds_at(bytes@, pos as int, junction_enc(x)) implies r == Some((x, (pos + 9) as usize)) by {
            match x {
                Junction::Parachain(id) => lemma_holds_split(bytes@, pos as int, seq![0u8], u64_le(id as u64)),
                Junction::AccountIndex64(index) => lemma_holds_split(bytes@, pos as int, seq![1u8], u64_le(index)),
                Junction::PalletInstance(index) => lemma_holds_split(bytes@, pos as int, seq![2u8], u64_le(index as u64)),
                Junction::GeneralIndex(index) => lemma_holds_split(bytes@, pos as int, seq![3u8], u64_le(index)),
            }
        }
    }
    r
}

pub open spec fn location_enc(l: Location) -> Seq<u8> {
    seq![l.parents] + u64_le(l.interior.len() as u64) + concat_enc(l.interior@, junction_f())
}

pub fn put_location(out: &mut Vec<u8>, l: &Location)
    ensures
        final(out)@ == old(out)@ + location_enc(*l),
{
    out.push(l.parents);
    put_u64(out, l.interior.len() as u64);
    let ghost start = out@;
    let mut i: usize = 0;
    while i < l.interior.len()
        invariant
            i <= l.interior.len(),
            out@ == start + concat_enc(l.interior@.take(i as int), junction_f()),
        decreases l.interior.len() - i,
    {
        proof {
            lemma_concat_step(l.interior@, junction_f(), i as int);
        }
        put_junction(out, l.interior[i]);
        proof {
            assert(out@ =~= start + concat_enc(l.interior@.take(i as int + 1), junction_f()));
        }
        i = i + 1;
    }
    proof {
        assert(l.interior@.take(i as int) =~= l.interior@);
        assert(out@ =~= old(out)@ + location_enc(*l));
    }
}

pub fn get_location(bytes: &Vec<u8>, pos: usize) -> (r: Option<(Location, usize)>)
    ensures
        r is Some ==> r.unwrap().1 == pos + location_enc(r.unwrap().0).len() && holds_at(bytes@, pos as int, location_enc(r.unwrap().0)),
        forall|x: Location| #[trigger] holds_at(bytes@, pos as int, location_enc(x)) ==> r is Some && r.unwrap().0@ == x@
            && r.unwrap().1 == pos + location_enc(x).len(),
{
    let (parents, p1) = match get_u8(bytes, pos) {
        Some(v) => v,
        None => {
            proof {
                assert forall|x: Location| !holds_at(bytes@, pos as int, #[trigger] location_enc(x)) by {
                    lemma_holds_split(bytes@, pos as int, seq![x.parents] + u64_le(x.interior.len() as u64), concat_enc(x.interior@, junction_f()));
                    lemma_holds_split(bytes@, pos as int, seq![x.parents], u64_le(x.interior.len() as u64));
                }
            }
            return None;
        },
    };
    let (n, start) = match get_u64(bytes, p1) {
        Some(v) => v,
        None => {
            proof {
                assert forall|x: Location| !holds_at(bytes@, pos as int, #[trigger] location_enc(x)) by {
                    lemma_holds_split(bytes@, pos as int, seq![x.parents] + u64_le(x.interior.len() as u64), concat_enc(x.interior@, junction_f()));
                    lemma_holds_split(bytes@, pos as int, seq![x.parents], u64_le(x.interior.len() as u64));
                }
            }
            return None;
        },
    };
    proof {
        assert forall|x: Location| #[trigger] holds_at(bytes@, pos as int, location_enc(x)) implies x.parents == parents
            && x.interior.len() as u64 == n && holds_at(bytes@, start as int, concat_enc(x.interior@, junction_f())) by {
            lemma_holds_split(bytes@, pos as int, seq![x.parents] + u64_le(x.interior.len() as u64), concat_enc(x.interior@, junction_f()));
            lemma_holds_split(bytes@, pos as int, seq![x.parents], u64_le(x.interior.len() as u64));
        }
        lemma_holds_split(bytes@, pos as int, seq![parents], u64_le(n));
        assert(bytes@.subrange(start as int, start as int) =~= concat_enc(Seq::<Junction>::empty(), junction_f()));
    }
    let mut items: Vec<Junction> = Vec::new();
    let mut cur = start;
    let mut i: u64 = 0;
    while i < n
        invariant
            i <= n,
            start == pos + 9,
            holds_at(bytes@, pos as int, seq![parents] + u64_le(n)),
            holds_at(bytes@, start as int, concat_enc(items@, junction_f())),
            cur == start + concat_enc(items@, junction_f()).len(),
            items@.len() == i,
            forall|x: Location| #[trigger] holds_at(bytes@, pos as int, location_enc(x)) ==> x.parents == parents
                && x.interior.len() as u64 == n && holds_at(bytes@, start as int, concat_enc(x.interior@, junction_f()))
                && items@ == x.interior@.take(i as int),
        decreases n - i,
    {
        let got = get_junction(bytes, cur);
        proof {
            assert forall|x: Location| #[trigger] holds_at(bytes@, pos as int, location_enc(x)) implies got == Some((x.interior@[i as int], (cur + 9) as usize)) by {
                lemma_concat_element(bytes@, start as int, x.interior@, junction_f(), i as int);
            }
        }
        match got {
            None => {
                return None;
            },
            Some((j, next)) => {
                proof {
                    assert(items@.push(j).drop_last() =~= items@);
                    lemma_holds_split(bytes@, start as int, concat_enc(items@, junction_f()), junction_enc(j));
                    assert forall|x: Location| #[trigger] holds_at(bytes@, pos as int, location_enc(x)) implies items@.push(j) == x.interior@.take(i as int + 1) by {
                        assert(x.interior@.take(i as int + 1) =~= x.interior@.take(i as int).push(x.interior@[i as int]));
                    }
                }
                items.push(j);
                cur = next;
                i = i + 1;
            },
        }
    }
    let loc = Location { parents, interior: items };
    proof {
        assert forall|x: Location| #[trigger] holds_at(bytes@, pos as int, location_enc(x)) implies loc@ == x@ by {
            assert(x.interior@.take(i as int) =~= x.interior@);
        }
        lemma_holds_split(bytes@, pos as int, seq![parents] + u64_le(n), concat_enc(items@, junction_f()));
        assert(loc.interior.len() as u64 == n);
    }
    Some((loc, cur))
}


pub open spec fn bytes_enc(b: Vec<u8>) -> Seq<u8> {
    u64_le(b.len() as u64) + b@
}

pub fn put_bytes(out: &mut Vec<u8>, b: &Vec<u8>)
    ensures
        final(out)@ == old(out)@ + bytes_enc(*b),
{
    put_u64(out, b.len() as u64);
    let ghost start = out@;
    let mut i: usize = 0;
    while i < b.len()
        invariant
            i <= b.len(),
            out@ == start + b@.take(i as int),
        decreases b.len() - i,
    {
        out.push(b[i]);
        proof {
            assert(out@ =~= start + b@.take(i as int + 1));
        }
        i = i + 1;
    }
    proof {
        assert(b@.take(i as int) =~= b@);
        assert(out@ =~= old(out)@ + bytes_enc(*b));
    }
}

pub fn get_bytes(bytes: &Vec<u8>, pos: usize) -> (r: Option<(Vec<u8>, usize)>)
    ensures
        r is Some ==> r.unwrap().1 == pos + bytes_enc(r.unwrap().0).len() && holds_at(bytes@, pos as int, bytes_enc(r.unwrap().0)),
        forall|x: Vec<u8>| #[trigger] holds_at(bytes@, pos as int, bytes_enc(x)) ==> r is Some && r.unwrap().0@ == x@
            && r.unwrap().1 == pos + bytes_enc(x).len(),
{
    let (n, start) = match get_u64(bytes, pos) {
        Some(v) => v,
        None => {
            proof {
                assert forall|x: Vec<u8>| !holds_at(bytes@, pos as int, #[trigger] bytes_enc(x)) by {
                    lemma_holds_split(bytes@, pos as int, u64_le(x.len() as u64), x@);
                }
            }
            return None;
        },
    };
    if n > (bytes.len() - start) as u64 {
        proof {
            assert forall|x: Vec<u8>| !holds_at(bytes@, pos as int, #[trigger] bytes_enc(x)) by {
                lemma_holds_split(bytes@, pos as int, u64_le(x.len() as u64), x@);
            }
        }
        return None;
    }
    let end = start + n as usize;
    let mut out: Vec<u8> = Vec::new();
    let mut i: usize = start;
    while i < end
        invariant
            start <= i <= end,
            end <= bytes@.len(),
            out@ == bytes@.subrange(start as int, i as int),
        decreases end - i,
    {
        out.push(bytes[i]);
        proof {
            assert(out@ =~= bytes@.subrange(start as int, i + 1));
        }
        i = i + 1;
    }
    proof {
        lemma_holds_split(bytes@, pos as int, u64_le(n), out@);
        assert forall|x: Vec<u8>| #[trigger] holds_at(bytes@, pos as int, bytes_enc(x)) implies x@ == out@ by {
            lemma_holds_split(bytes@, pos as int, u64_le(x.len() as u64), x@);
        }
    }
    Some((out, end))
}

pub open spec fn asset_f() -> spec_fn(Asset) -> Seq<u8> {
    |a: Asset| asset_enc(a)
}

pub open spec fn assets_enc(s: Vec<Asset>) -> Seq<u8> {
    u64_le(s.len() as u64) + concat_enc(s@, asset_f())
}

pub fn put_assets(out: &mut Vec<u8>, s: &Vec<Asset>)
    ensures
        final(out)@ == old(out)@ + assets_enc(*s),
{
    put_u64(out, s.len() as u64);
    let ghost start = out@;
    let mut i: usize = 0;
    while i < s.len()
        invariant
            i <= s.len(),
            out@ == start + concat_enc(s@.take(i as int), asset_f()),
        decreases s.len() - i,
    {
        proof {
            lemma_concat_step(s@, asset_f(), i as int);
        }
        put_asset(out, s[i]);
        proof {
            assert(out@ =~= start + concat_enc(s@.take(i as int + 1), asset_f()));
        }
        i = i + 1;
    }
    proof {
        assert(s@.take(i as int) =~= s@);
        assert(out@ =~= old(out)@ + assets_enc(*s));
    }
}

pub fn get_assets(bytes: &Vec<u8>, pos: usize) -> (r: Option<(Vec<Asset>, usize)>)
    ensures
        r is Some ==> r.unwrap().1 == pos + assets_enc(r.unwrap().0).len() && holds_at(bytes@, pos as int, assets_enc(r.unwrap().0)),
        forall|x: Vec<Asset>| #[trigger] holds_at(bytes@, pos as int, assets_enc(x)) ==> r is Some && r.unwrap().0@ == x@
            && r.unwrap().1 == pos + assets_enc(x).len(),
{
    let (n, start) = match get_u64(bytes, pos) {
        Some(v) => v,
        None => {
            proof {
                assert forall|x: Vec<Asset>| !holds_at(bytes@, pos as int, #[trigger] assets_enc(x)) by {
                    lemma_holds_split(bytes@, pos as int, u64_le(x.len() as u64), concat_enc(x@, asset_f()));
                }
            }
            return None;
        },
    };
    proof {
        assert forall|x: Vec<Asset>| #[trigger] holds_at(bytes@, pos as int, assets_enc(x)) implies x.len() as u64 == n
            && holds_at(bytes@, start as int, concat_enc(x@, asset_f())) by {
            lemma_holds_split(bytes@, pos as int, u64_le(x.len() as u64), concat_enc(x@, asset_f()));
        }
        assert(bytes@.subrange(start as int, start as int) =~= concat_enc(Seq::<Asset>::empty(), asset_f()));
    }
    let mut items: Vec<Asset> = Vec::new();
    let mut cur = start;
    let mut i: u64 = 0;
    while i < n
        invariant
            i <= n,
            start == pos + 8,
            holds_at(bytes@, pos as int, u64_le(n)),
            holds_at(bytes@, start as int, concat_enc(items@, asset_f())),
            cur == start + concat_enc(items@, asset_f()).len(),
            items@.len() == i,
            forall|x: Vec<Asset>| #[trigger] holds_at(bytes@, pos as int, assets_enc(x)) ==> x.len() as u64 == n
                && holds_at(bytes@, start as int, concat_enc(x@, asset_f())) && items@ == x@.take(i as int),
        decreases n - i,
    {
        let got = get_asset(bytes, cur);
        proof {
            assert forall|x: Vec<Asset>| #[trigger] holds_at(bytes@, pos as int, assets_enc(x)) implies got == Some((x@[i as int], (cur + 24) as usize)) by {
                lemma_concat_element(bytes@, start as int, x@, asset_f(), i as int);
            }
        }
        match got {
            None => {
                return None;
            },
            Some((a, next)) => {
                proof {
                    assert(items@.push(a).drop_last() =~= items@);
                    lemma_holds_split(bytes@, start as int, concat_enc(items@, asset_f()), asset_enc(a));
                    assert forall|x: Vec<Asset>| #[trigger] holds_at(bytes@, pos as int, assets_enc(x)) implies items@.push(a) == x@.take(i as int + 1) by {
                        assert(x@.take(i as int + 1) =~= x@.take(i as int).push(x@[i as int]));
                    }
                }
                items.push(a);
                cur = next;
                i = i + 1;
            },
        }
    }
    proof {
        assert forall|x: Vec<Asset>| #[trigger] holds_at(bytes@, pos as int, assets_enc(x)) implies items@ == x@ by {
            assert(x@.take(i as int) =~= x@);
        }
        lemma_holds_split(bytes@, pos as int, u64_le(n), concat_enc(items@, asset_f()));
        assert(items.len() as u64 == n);
    }
    Some((items, cur))
}


pub open spec fn kind_byte(k: OriginKind) -> u8 {
    match k {
        OriginKind::Native => 0,
        OriginKind::SovereignAccount => 1,
        OriginKind::Superuser => 2,
        OriginKind::Xcm => 3,
    }
}

pub fn kind_to_byte(k: OriginKind) -> (r: u8)
    ensures
        r == kind_byte(k),
{
    match k {
        OriginKind::Native => 0,
        OriginKind::SovereignAccount => 1,
        OriginKind::Superuser => 2,
        OriginKind::Xcm => 3,
    }
}

pub fn kind_from_byte(b: u8) -> (r: Option<OriginKind>)
    ensures
        r is Some ==> kind_byte(r.unwrap()) == b,
        forall|k: OriginKind| #[trigger] kind_byte(k) == b ==> r == Some(k),
{
    if b == 0 {
        Some(OriginKind::Native)
    } else if b == 1 {
        Some(OriginKind::SovereignAccount)
    } else if b == 2 {
        Some(OriginKind::Superuser)
    } else if b == 3 {
        Some(OriginKind::Xcm)
    } else {
        None
    }
}

pub open spec fn instruction_enc(i: Instruction) -> Seq<u8> {
    match i {
        Instruction::WithdrawAsset(a) => seq![0u8] + asset_enc(a),
        Instruction::ReserveAssetDeposited(a) => seq![1u8] + asset_enc(a),
        Instruction::ReceiveTeleportedAsset(a) => seq![2u8] + asset_enc(a),
        Instruction::BuyExecution { fees, weight_limit } => seq![3u8] + asset_enc(fees) + weight_enc(
            weight_limit,
        ),
        Instruction::DepositAsset { id, beneficiary } => seq![4u8] + u64_le(id) + location_enc(
            beneficiary,
        ),
        Instruction::TransferAsset { asset, beneficiary } => seq![5u8] + asset_enc(asset)
            + location_enc(beneficiary),
        Instruction::Transact { origin_kind, require_weight_at_most, call } => seq![6u8] + seq![
            kind_byte(origin_kind),
        ] + weight_enc(require_weight_at_most) + bytes_enc(call),
        Instruction::QueryResponse { query_id, response } => seq![7u8] + u64_le(query_id) + u64_le(
            response,
        ),
        Instruction::ClaimAsset { assets } => seq![8u8] + assets_enc(assets),
        Instruction::ClearOrigin => seq![9u8],
        Instruction::DescendOrigin(j) => seq![10u8] + junction_enc(j),
        Instruction::SubscribeVersion { query_id } => seq![11u8] + u64_le(query_id),
        Instruction::UnsubscribeVersion => seq![12u8],
        Instruction::AliasOrigin(l) => seq![13u8] + location_enc(l),
        Instruction::ReportError { query_id, destination } => seq![15u8] + u64_le(query_id)
            + location_enc(destination),
        Instruction::TransferReserveAsset { asset, dest, beneficiary } => seq![14u8] + asset_enc(
            asset,
        ) + location_enc(dest) + location_enc(beneficiary),
    }
}

pub fn put_instruction(out: &mut Vec<u8>, i: &Instruction)
    ensures
        final(out)@ == old(out)@ + instruction_enc(*i),
{
    match i {
        Instruction::WithdrawAsset(a) => {
            out.push(0u8);
            put_asset(out, *a);
        },
        Instruction::ReserveAssetDeposited(a) => {
            out.push(1u8);
            put_asset(out, *a);
        },
        Instruction::ReceiveTeleportedAsset(a) => {
            out.push(2u8);
            put_asset(out, *a);
        },
        Instruction::BuyExecution { fees, weight_limit } => {
            out.push(3u8);
            put_asset(out, *fees);
            put_weight(out, *weight_limit);
        },
        Instruction::DepositAsset { id, beneficiary } => {
            out.push(4u8);
            put_u64(out, *id);
            put_location(out, beneficiary);
        },
        Instruction::TransferAsset { asset, beneficiary } => {
            out.push(5u8);
            put_asset(out, *asset);
            put_location(out, beneficiary);
        },
        Instruction::Transact { origin_kind, require_weight_at_most, call } => {
            out.push(6u8);
            out.push(kind_to_byte(*origin_kind));
            put_weight(out, *require_weight_at_most);
            put_bytes(out, call);
        },
        Instruction::QueryResponse { query_id, response } => {
            out.push(7u8);
            put_u64(out, *query_id);
            put_u64(out, *response);
        },
        Instruction::ClaimAsset { assets } => {
            out.push(8u8);
            put_assets(out, assets);
        },
        Instruction::ClearOrigin => {
            out.push(9u8);
        },
        Instruction::DescendOrigin(j) => {
            out.push(10u8);
            put_junction(out, *j);
        },
        Instruction::SubscribeVersion { query_id } => {
            out.push(11u8);
            put_u64(out, *query_id);
        },
        Instruction::UnsubscribeVersion => {
            out.push(12u8);
        },
        Instruction::AliasOrigin(l) => {
            out.push(13u8);
            put_location(out, l);
        },
        Instruction::ReportError { query_id, destination } => {
            out.push(15u8);
            put_u64(out, *query_id);
            put_location(out, destination);
        },
        Instruction::TransferReserveAsset { asset, dest, beneficiary } => {
            out.push(14u8);
            put_asset(out, *asset);
            put_location(out, dest);
            put_location(out, beneficiary);
        },
    }
    proof {
        assert(out@ =~= old(out)@ + instruction_enc(*i));
    }
}

/// Split facts for an encoding `[tag] + a + b`.
proof fn lemma_holds3(bytes: Seq<u8>, pos: int, tag: u8, a: Seq<u8>, b: Seq<u8>)
    ensures
        holds_at(bytes, pos, seq![tag] + a + b) <==> (holds_at(bytes, pos, seq![tag]) && holds_at(
            bytes,
            pos + 1,
            a,
        ) && holds_at(bytes, pos + 1 + a.len(), b)),
{
    lemma_holds_split(bytes, pos, seq![tag] + a, b);
    lemma_holds_split(bytes, pos, seq![tag], a);
}

fn get_asset_instruction(bytes: &Vec<u8>, pos: usize, tag: u8) -> (r: Option<(Instruction, usize)>)
    requires
        tag == 0 || tag == 1 || tag == 2,
        pos < bytes.len(),
        holds_at(bytes@, pos as int, seq![tag]),
    ensures
        r is Some ==> r.unwrap().1 == pos + instruction_enc(r.unwrap().0).len() && holds_at(bytes@, pos as int, instruction_enc(r.unwrap().0)),
        forall|x: Instruction| #[trigger] holds_at(bytes@, pos as int, instruction_enc(x)) && tag_of(x) == tag ==> r is Some && r.unwrap().0@ == x@
            && r.unwrap().1 == pos + instruction_enc(x).len(),
{
    let p1 = pos + 1;
    let r: Option<(Instruction, usize)> = match get_asset(bytes, p1) {
        None => None,
        Some((a, e)) => {
            proof {
                lemma_holds_split(bytes@, pos as int, seq![tag], asset_enc(a));
            }
            if tag == 0 {
                Some((Instruction::WithdrawAsset(a), e))
            } else if tag == 1 {
                Some((Instruction::ReserveAssetDeposited(a), e))
            } else {
                Some((Instruction::ReceiveTeleportedAsset(a), e))
            }
        },
    };
    proof {
        assert forall|x: Instruction| #[trigger] holds_at(bytes@, pos as int, instruction_enc(x)) && tag_of(x) == tag implies r is Some
            && r.unwrap().0@ == x@ && r.unwrap().1 == pos + instruction_enc(x).len() by {
            match x {
                Instruction::WithdrawAsset(a) => lemma_holds_split(bytes@, pos as int, seq![0u8], asset_enc(a)),
                Instruction::ReserveAssetDeposited(a) => lemma_holds_split(bytes@, pos as int, seq![1u8], asset_enc(a)),
                Instruction::ReceiveTeleportedAsset(a) => lemma_holds_split(bytes@, pos as int, seq![2u8], asset_enc(a)),
                _ => {},
            }
        }
    }
    r
}

fn get_buy_execution(bytes: &Vec<u8>, pos: usize, tag: u8) -> (r: Option<(Instruction, usize)>)
    requires
        tag == 3,
        pos < bytes.len(),
        holds_at(bytes@, pos as int, seq![tag]),
    ensures
        r is Some ==> r.unwrap().1 == pos + instruction_enc(r.unwrap().0).len() && holds_at(bytes@, pos as int, instruction_enc(r.unwrap().0)),
        forall|x: Instruction| #[trigger] holds_at(bytes@, pos as int, instruction_enc(x)) && tag_of(x) == tag ==> r is Some && r.unwrap().0@ == x@
            && r.unwrap().1 == pos + instruction_enc(x).len(),
{
    let p1 = pos + 1;
    let r: Option<(Instruction, usize)> = match get_asset(bytes, p1) {
        None => None,
        Some((fees, p2)) => match get_weight(bytes, p2) {
            None => None,
            Some((w, e)) => {
                proof {
                    lemma_holds3(bytes@, pos as int, tag, asset_enc(fees), weight_enc(w));
                }
                Some((Instruction::BuyExecution { fees, weight_limit: w }, e))
            },
        },
    };
    proof {
        assert forall|x: Instruction| #[trigger] holds_at(bytes@, pos as int, instruction_enc(x)) && tag_of(x) == tag implies r is Some
            && r.unwrap().0@ == x@ && r.unwrap().1 == pos + instruction_enc(x).len() by {
            match x {
                Instruction::BuyExecution { fees, weight_limit } => lemma_holds3(bytes@, pos as int, 3u8, asset_enc(fees), weight_enc(weight_limit)),
                _ => {},
            }
        }
    }
    r
}

fn get_deposit_asset(bytes: &Vec<u8>, pos: usize, tag: u8) -> (r: Option<(Instruction, usize)>)
    requires
        tag == 4,
        pos < bytes.len(),
        holds_at(bytes@, pos as int, seq![tag]),
    ensures
        r is Some ==> r.unwrap().1 == pos + instruction_enc(r.unwrap().0).len() && holds_at(bytes@, pos as int, instruction_enc(r.unwrap().0)),
        forall|x: Instruction| #[trigger] holds_at(bytes@, pos as int, instruction_enc(x)) && tag_of(x) == tag ==> r is Some && r.unwrap().0@ == x@
            && r.unwrap().1 == pos + instruction_enc(x).len(),
{
    let p1 = pos + 1;
    let r: Option<(Instruction, usize)> = match get_u64(bytes, p1) {
        None => None,
        Some((id, p2)) => match get_location(bytes, p2) {
            None => None,
            Some((beneficiary, e)) => {
                proof {
                    lemma_holds3(bytes@, pos as int, tag, u64_le(id), location_enc(beneficiary));
                }
                Some((Instruction::DepositAsset { id, beneficiary }, e))
            },
        },
    };
    proof {
        assert forall|x: Instruction| #[trigger] holds_at(bytes@, pos as int, instruction_enc(x)) && tag_of(x) == tag implies r is Some
            && r.unwrap().0@ == x@ && r.unwrap().1 == pos + instruction_enc(x).len() by {
            match x {
                Instruction::DepositAsset { id, beneficiary } => lemma_holds3(bytes@, pos as int, 4u8, u64_le(id), location_enc(beneficiary)),
                _ => {},
            }
        }
    }
    r
}

fn get_transfer_asset(bytes: &Vec<u8>, pos: usize, tag: u8) -> (r: Option<(Instruction, usize)>)
    requires
        tag == 5,
        pos < bytes.len(),
        holds_at(bytes@, pos as int, seq![tag]),
    ensures
        r is Some ==> r.unwrap().1 == pos + instruction_enc(r.unwrap().0).len() && holds_at(bytes@, pos as int, instruction_enc(r.unwrap().0)),
        forall|x: Instruction| #[trigger] holds_at(bytes@, pos as int, instruction_enc(x)) && tag_of(x) == tag ==> r is Some && r.unwrap().0@ == x@
            && r.unwrap().1 == pos + instruction_enc(x).len(),
{
    let p1 = pos + 1;
    let r: Option<(Instruction, usize)> = match get_asset(bytes, p1) {
        None => None,
        Some((asset, p2)) => match get_location(bytes, p2) {
            None => None,
            Some((beneficiary, e)) => {
                proof {
                    lemma_holds3(bytes@, pos as int, tag, asset_enc(asset), location_enc(beneficiary));
                }
                Some((Instruction::TransferAsset { asset, beneficiary }, e))
            },
        },
    };
    proof {
        assert forall|x: Instruction| #[trigger] holds_at(bytes@, pos as int, instruction_enc(x)) && tag_of(x) == tag implies r is Some
            && r.unwrap().0@ == x@ && r.unwrap().1 == pos + instruction_enc(x).len() by {
            match x {
                Instruction::TransferAsset { asset, beneficiary } => lemma_holds3(bytes@, pos as int, 5u8, asset_enc(asset), location_enc(beneficiary)),
                _ => {},
            }
        }
    }
    r
}

fn get_transact(bytes: &Vec<u8>, pos: usize, tag: u8) -> (r: Option<(Instruction, usize)>)
    requires
        tag == 6,
        pos < bytes.len(),
        holds_at(bytes@, pos as int, seq![tag]),
    ensures
        r is Some ==> r.unwrap().1 == pos + instruction_enc(r.unwrap().0).len() && holds_at(bytes@, pos as int, instruction_enc(r.unwrap().0)),
        forall|x: Instruction| #[trigger] holds_at(bytes@, pos as int, instruction_enc(x)) && tag_of(x) == tag ==> r is Some && r.unwrap().0@ == x@
            && r.unwrap().1 == pos + instruction_enc(x).len(),
{
    let p1 = pos + 1;
    let r: Option<(Instruction, usize)> = match get_u8(bytes, p1) {
        None => None,
        Some((kb, p2)) => match kind_from_byte(kb) {
            None => None,
            Some(origin_kind) => match get_weight(bytes, p2) {
                None => None,
                Some((w, p3)) => match get_bytes(bytes, p3) {
                    None => None,
                    Some((call, e)) => {
                        proof {
                            lemma_holds4(bytes@, pos as int, tag, seq![kb], weight_enc(w), bytes_enc(call));
                        }
                        Some((Instruction::Transact { origin_kind, require_weight_at_most: w, call }, e))
                    },
                },
            },
        },
    };
    proof {
        assert forall|x: Instruction| #[trigger] holds_at(bytes@, pos as int, instruction_enc(x)) && tag_of(x) == tag implies r is Some
            && r.unwrap().0@ == x@ && r.unwrap().1 == pos + instruction_enc(x).len() by {
            match x {
                Instruction::Transact { origin_kind, require_weight_at_most, call } => lemma_holds4(bytes@, pos as int, 6u8, seq![kind_byte(origin_kind)], weight_enc(require_weight_at_most), bytes_enc(call)),
                _ => {},
            }
        }
    }
    r
}

fn get_query_response(bytes: &Vec<u8>, pos: usize, tag: u8) -> (r: Option<(Instruction, usize)>)
    requires
        tag == 7,
        pos < bytes.len(),
        holds_at(bytes@, pos as int, seq![tag]),
    ensures
        r is Some ==> r.unwrap().1 == pos + instruction_enc(r.unwrap().0).len() && holds_at(bytes@, pos as int, instruction_enc(r.unwrap().0)),
        forall|x: Instruction| #[trigger] holds_at(bytes@, pos as int, instruction_enc(x)) && tag_of(x) == tag ==> r is Some && r.unwrap().0@ == x@
            && r.unwrap().1 == pos + instruction_enc(x).len(),
{
    let p1 = pos + 1;
    let r: Option<(Instruction, usize)> = match get_u64(bytes, p1) {
        None => None,
        Some((query_id, p2)) => match get_u64(bytes, p2) {
            None => None,
            Some((response, e)) => {
                proof {
                    lemma_holds3(bytes@, pos as int, tag, u64_le(query_id), u64_le(response));
                }
                Some((Instruction::QueryResponse { query_id, response }, e))
            },
        },
    };
    proof {
        assert forall|x: Instruction| #[trigger] holds_at(bytes@, pos as int, instruction_enc(x)) && tag_of(x) == tag implies r is Some
            && r.unwrap().0@ == x@ && r.unwrap().1 == pos + instruction_enc(x).len() by {
            match x {
                Instruction::QueryResponse { query_id, response } => lemma_holds3(bytes@, pos as int, 7u8, u64_le(query_id), u64_le(response)),
                _ => {},
            }
        }
    }
    r
}

fn get_claim_asset(bytes: &Vec<u8>, pos: usize, tag: u8) -> (r: Option<(Instruction, usize)>)
    requires
        tag == 8,
        pos < bytes.len(),
        holds_at(bytes@, pos as int, seq![tag]),
    ensures
        r is Some ==> r.unwrap().1 == pos + instruction_enc(r.unwrap().0).len() && holds_at(bytes@, pos as int, instruction_enc(r.unwrap().0)),
        forall|x: Instruction| #[trigger] holds_at(bytes@, pos as int, instruction_enc(x)) && tag_of(x) == tag ==> r is Some && r.unwrap().0@ == x@
            && r.unwrap().1 == pos + instruction_enc(x).len(),
{
    let p1 = pos + 1;
    let r: Option<(Instruction, usize)> = match get_assets(bytes, p1) {
        None => None,
        Some((assets, e)) => {
            proof {
                lemma_holds_split(bytes@, pos as int, seq![tag], assets_enc(assets));
            }
            Some((Instruction::ClaimAsset { assets }, e))
        },
    };
    proof {
        assert forall|x: Instruction| #[trigger] holds_at(bytes@, pos as int, instruction_enc(x)) && tag_of(x) == tag implies r is Some
            && r.unwrap().0@ == x@ && r.unwrap().1 == pos + instruction_enc(x).len() by {
            match x {
                Instruction::ClaimAsset { assets } => lemma_holds_split(bytes@, pos as int, seq![8u8], assets_enc(assets)),
                _ => {},
            }
        }
    }
    r
}

fn get_descend_origin(bytes: &Vec<u8>, pos: usize, tag: u8) -> (r: Option<(Instruction, usize)>)
    requires
        tag == 10,
        pos < bytes.len(),
        holds_at(bytes@, pos as int, seq![tag]),
    ensures
        r is Some ==> r.unwrap().1 == pos + instruction_enc(r.unwrap().0).len() && holds_at(bytes@, pos as int, instruction_enc(r.unwrap().0)),
        forall|x: Instruction| #[trigger] holds_at(bytes@, pos as int, instruction_enc(x)) && tag_of(x) == tag ==> r is Some && r.unwrap().0@ == x@
            && r.unwrap().1 == pos + instruction_enc(x).len(),
{
    let p1 = pos + 1;
    let r: Option<(Instruction, usize)> = match get_junction(bytes, p1) {
        None => None,
        Some((j, e)) => {
            proof {
                lemma_holds_split(bytes@, pos as int, seq![tag], junction_enc(j));
            }
            Some((Instruction::DescendOrigin(j), e))
        },
    };
    proof {
        assert forall|x: Instruction| #[trigger] holds_at(bytes@, pos as int, instruction_enc(x)) && tag_of(x) == tag implies r is Some
            && r.unwrap().0@ == x@ && r.unwrap().1 == pos + instruction_enc(x).len() by {
            match x {
                Instruction::DescendOrigin(j) => lemma_holds_split(bytes@, pos as int, seq![10u8], junction_enc(j)),
                _ => {},
            }
        }
    }
    r
}

fn get_subscribe_version(bytes: &Vec<u8>, pos: usize, tag: u8) -> (r: Option<(Instruction, usize)>)
    requires
        tag == 11,
        pos < bytes.len(),
        holds_at(bytes@, pos as int, seq![tag]),
    ensures
        r is Some ==> r.unwrap().1 == pos + instruction_enc(r.unwrap().0).len() && holds_at(bytes@, pos as int, instruction_enc(r.unwrap().0)),
        forall|x: Instruction| #[trigger] holds_at(bytes@, pos as int, instruction_enc(x)) && tag_of(x) == tag ==> r is Some && r.unwrap().0@ == x@
            && r.unwrap().1 == pos + instruction_enc(x).len(),
{
    let p1 = pos + 1;
    let r: Option<(Instruction, usize)> = match get_u64(bytes, p1) {
        None => None,
        Some((query_id, e)) => {
            proof {
                lemma_holds_split(bytes@, pos as int, seq![tag], u64_le(query_id));
            }
            Some((Instruction::SubscribeVersion { query_id }, e))
        },
    };
    proof {
        assert forall|x: Instruction| #[trigger] holds_at(bytes@, pos as int, instruction_enc(x)) && tag_of(x) == tag implies r is Some
            && r.unwrap().0@ == x@ && r.unwrap().1 == pos + instruction_enc(x).len() by {
            match x {
                Instruction::SubscribeVersion { query_id } => lemma_holds_split(bytes@, pos as int, seq![11u8], u64_le(query_id)),
                _ => {},
            }
        }
    }
    r
}

fn get_alias_origin(bytes: &Vec<u8>, pos: usize, tag: u8) -> (r: Option<(Instruction, usize)>)
    requires
        tag == 13,
        pos < bytes.len(),
        holds_at(bytes@, pos as int, seq![tag]),
    ensures
        r is Some ==> r.unwrap().1 == pos + instruction_enc(r.unwrap().0).len() && holds_at(bytes@, pos as int, instruction_enc(r.unwrap().0)),
        forall|x: Instruction| #[trigger] holds_at(bytes@, pos as int, instruction_enc(x)) && tag_of(x) == tag ==> r is Some && r.unwrap().0@ == x@
            && r.unwrap().1 == pos + instruction_enc(x).len(),
{
    let p1 = pos + 1;
    let r: Option<(Instruction, usize)> = match get_location(bytes, p1) {
        None => None,
        Some((l, e)) => {
            proof {
                lemma_holds_split(bytes@, pos as int, seq![tag], location_enc(l));
            }
            Some((Instruction::AliasOrigin(l), e))
        },
    };
    proof {
        assert forall|x: Instruction| #[trigger] holds_at(bytes@, pos as int, instruction_enc(x)) && tag_of(x) == tag implies r is Some
            && r.unwrap().0@ == x@ && r.unwrap().1 == pos + instruction_enc(x).len() by {
            match x {
                Instruction::AliasOrigin(l) => lemma_holds_split(bytes@, pos as int, seq![13u8], location_enc(l)),
                _ => {},
            }
        }
    }
    r
}

/// Split facts for an encoding `[tag] + a + b + c`.
proof fn lemma_holds4(bytes: Seq<u8>, pos: int, tag: u8, a: Seq<u8>, b: Seq<u8>, c: Seq<u8>)
    ensures
        holds_at(bytes, pos, seq![tag] + a + b + c) <==> (holds_at(bytes, pos, seq![tag])
            && holds_at(bytes, pos + 1, a) && holds_at(bytes, pos + 1 + a.len(), b) && holds_at(
            bytes,
            pos + 1 + a.len() + b.len(),
            c,
        )),
{
    lemma_holds_split(bytes, pos, seq![tag] + a + b, c);
    lemma_holds3(bytes, pos, tag, a, b);
}

fn get_transfer_reserve_asset(bytes: &Vec<u8>, pos: usize, tag: u8) -> (r: Option<(Instruction, usize)>)
    requires
        tag == 14,
        pos < bytes.len(),
        holds_at(bytes@, pos as int, seq![tag]),
    ensures
        r is Some ==> r.unwrap().1 == pos + instruction_enc(r.unwrap().0).len() && holds_at(bytes@, pos as int, instruction_enc(r.unwrap().0)),
        forall|x: Instruction| #[trigger] holds_at(bytes@, pos as int, instruction_enc(x)) && tag_of(x) == tag ==> r is Some && r.unwrap().0@ == x@
            && r.unwrap().1 == pos + instruction_enc(x).len(),
{
    let p1 = pos + 1;
    let r: Option<(Instruction, usize)> = match get_asset(bytes, p1) {
        None => None,
        Some((asset, p2)) => match get_location(bytes, p2) {
            None => None,
            Some((dest, p3)) => match get_location(bytes, p3) {
                None => None,
                Some((beneficiary, e)) => {
                    proof {
                        lemma_holds4(bytes@, pos as int, tag, asset_enc(asset), location_enc(dest), location_enc(beneficiary));
                    }
                    Some((Instruction::TransferReserveAsset { asset, dest, beneficiary }, e))
                },
            },
        },
    };
    proof {
        assert forall|x: Instruction| #[trigger] holds_at(bytes@, pos as int, instruction_enc(x)) && tag_of(x) == tag implies r is Some
            && r.unwrap().0@ == x@ && r.unwrap().1 == pos + instruction_enc(x).len() by {
            match x {
                Instruction::TransferReserveAsset { asset, dest, beneficiary } => lemma_holds4(bytes@, pos as int, 14u8, asset_enc(asset), location_enc(dest), location_enc(beneficiary)),
                _ => {},
            }
        }
    }
    r
}

fn get_report_error(bytes: &Vec<u8>, pos: usize, tag: u8) -> (r: Option<(Instruction, usize)>)
    requires
        tag == 15,
        pos < bytes.len(),
        holds_at(bytes@, pos as int, seq![tag]),
    ensures
        r is Some ==> r.unwrap().1 == pos + instruction_enc(r.unwrap().0).len() && holds_at(bytes@, pos as int, instruction_enc(r.unwrap().0)),
        forall|x: Instruction| #[trigger] holds_at(bytes@, pos as int, instruction_enc(x)) && tag_of(x) == tag ==> r is Some && r.unwrap().0@ == x@
            && r.unwrap().1 == pos + instruction_enc(x).len(),
{
    let p1 = pos + 1;
    let r: Option<(Instruction, usize)> = match get_u64(bytes, p1) {
        None => None,
        Some((query_id, p2)) => match get_location(bytes, p2) {
            None => None,
            Some((destination, e)) => {
                proof {
                    lemma_holds3(bytes@, pos as int, tag, u64_le(query_id), location_enc(destination));
                }
                Some((Instruction::ReportError { query_id, destination }, e))
            },
        },
    };
    proof {
        assert forall|x: Instruction| #[trigger] holds_at(bytes@, pos as int, instruction_enc(x)) && tag_of(x) == tag implies r is Some
            && r.unwrap().0@ == x@ && r.unwrap().1 == pos + instruction_enc(x).len() by {
            match x {
                Instruction::ReportError { query_id, destination } => lemma_holds3(bytes@, pos as int, 15u8, u64_le(query_id), location_enc(destination)),
                _ => {},
            }
        }
    }
    r
}

pub fn get_instruction(bytes: &Vec<u8>, pos: usize) -> (r: Option<(Instruction, usize)>)
    ensures
        r is Some ==> r.unwrap().1 == pos + instruction_enc(r.unwrap().0).len() && holds_at(bytes@, pos as int, instruction_enc(r.unwrap().0)),
        forall|x: Instruction| #[trigger] holds_at(bytes@, pos as int, instruction_enc(x)) ==> r is Some && r.unwrap().0@ == x@
            && r.unwrap().1 == pos + instruction_enc(x).len(),
{
    let (tag, p1) = match get_u8(bytes, pos) {
        Some(v) => v,
        None => {
            proof {
                assert forall|x: Instruction| !holds_at(bytes@, pos as int, #[trigger] instruction_enc(x)) by {
                    lemma_tag_of(bytes@, pos as int, x);
                }
            }
            return None;
        },
    };
    proof {
        assert forall|x: Instruction| #[trigger] holds_at(bytes@, pos as int, instruction_enc(x)) implies tag == tag_of(x) by {
            lemma_tag_of(bytes@, pos as int, x);
        }
    }
    if tag == 0 || tag == 1 || tag == 2 {
        get_asset_instruction(bytes, pos, tag)
    } else if tag == 3 {
        get_buy_execution(bytes, pos, tag)
    } else if tag == 4 {
        get_deposit_asset(bytes, pos, tag)
    } else if tag == 5 {
        get_transfer_asset(bytes, pos, tag)
    } else if tag == 6 {
        get_transact(bytes, pos, tag)
    } else if tag == 7 {
        get_query_response(bytes, pos, tag)
    } else if tag == 8 {
        get_claim_asset(bytes, pos, tag)
    } else if tag == 9 {
        proof {
            assert(instruction_enc(Instruction::ClearOrigin) =~= seq![9u8]);
        }
        Some((Instruction::ClearOrigin, p1))
    } else if tag == 10 {
        get_descend_origin(bytes, pos, tag)
    } else if tag == 11 {
        get_subscribe_version(bytes, pos, tag)
    } else if tag == 12 {
        proof {
            assert(instruction_enc(Instruction::UnsubscribeVersion) =~= seq![12u8]);
        }
        Some((Instruction::UnsubscribeVersion, p1))
    } else if tag == 13 {
        get_alias_origin(bytes, pos, tag)
    } else if tag == 14 {
        get_transfer_reserve_asset(bytes, pos, tag)
    } else if tag == 15 {
        get_report_error(bytes, pos, tag)
    } else {
        None
    }
}

/// The tag byte that starts the encoding of `i`.
pub open spec fn tag_of(i: Instruction) -> u8 {
    match i {
        Instruction::WithdrawAsset(_) => 0,
        Instruction::ReserveAssetDeposited(_) => 1,
        Instruction::ReceiveTeleportedAsset(_) => 2,
        Instruction::BuyExecution { .. } => 3,
        Instruction::DepositAsset { .. } => 4,
        Instruction::TransferAsset { .. } => 5,
        Instruction::Transact { .. } => 6,
        Instruction::QueryResponse { .. } => 7,
        Instruction::ClaimAsset { .. } => 8,
        Instruction::ClearOrigin => 9,
        Instruction::DescendOrigin(_) => 10,
        Instruction::SubscribeVersion { .. } => 11,
        Instruction::UnsubscribeVersion => 12,
        Instruction::AliasOrigin(_) => 13,
        Instruction::TransferReserveAsset { .. } => 14,
        Instruction::ReportError { .. } => 15,
    }
}

proof fn lemma_tag_of(bytes: Seq<u8>, pos: int, x: Instruction)
    ensures
        holds_at(bytes, pos, instruction_enc(x)) ==> holds_at(bytes, pos, seq![tag_of(x)]),
{
    let e = instruction_enc(x);
    assert(e.len() >= 1 && e[0] == tag_of(x));
    if holds_at(bytes, pos, e) {
        assert(bytes.subrange(pos, pos + 1) =~= seq![tag_of(x)]) by {
            assert(bytes.subrange(pos, pos + e.len())[0] == e[0]);
        }
    }
}


pub open spec fn instruction_f() -> spec_fn(Instruction) -> Seq<u8> {
    |i: Instruction| instruction_enc(i)
}

pub open spec fn instructions_enc(s: Vec<Instruction>) -> Seq<u8> {
    u64_le(s.len() as u64) + concat_enc(s@, instruction_f())
}

pub fn put_instructions(out: &mut Vec<u8>, s: &Vec<Instruction>)
    ensures
        final(out)@ == old(out)@ + instructions_enc(*s),
{
    put_u64(out, s.len() as u64);
    let ghost start = out@;
    let mut i: usize = 0;
    while i < s.len()
        invariant
            i <= s.len(),
            out@ == start + concat_enc(s@.take(i as int), instruction_f()),
        decreases s.len() - i,
    {
        proof {
            lemma_concat_step(s@, instruction_f(), i as int);
        }
        put_instruction(out, &s[i]);
        proof {
            assert(out@ =~= start + concat_enc(s@.take(i as int + 1), instruction_f()));
        }
        i = i + 1;
    }
    proof {
        assert(s@.take(i as int) =~= s@);
        assert(out@ =~= old(out)@ + instructions_enc(*s));
    }
}

pub fn get_instructions(bytes: &Vec<u8>, pos: usize) -> (r: Option<(Vec<Instruction>, usize)>)
    ensures
        r is Some ==> r.unwrap().1 == pos + instructions_enc(r.unwrap().0).len() && holds_at(bytes@, pos as int, instructions_enc(r.unwrap().0)),
        forall|x: Vec<Instruction>| #[trigger] holds_at(bytes@, pos as int, instructions_enc(x)) ==> r is Some && views(r.unwrap().0@) == views(x@)
            && r.unwrap().1 == pos + instructions_enc(x).len(),
{
    let (n, start) = match get_u64(bytes, pos) {
        Some(v) => v,
        None => {
            proof {
                assert forall|x: Vec<Instruction>| !holds_at(bytes@, pos as int, #[trigger] instructions_enc(x)) by {
                    lemma_holds_split(bytes@, pos as int, u64_le(x.len() as u64), concat_enc(x@, instruction_f()));
                }
            }
            return None;
        },
    };
    proof {
        assert forall|x: Vec<Instruction>| #[trigger] holds_at(bytes@, pos as int, instructions_enc(x)) implies x.len() as u64 == n
            && holds_at(bytes@, start as int, concat_enc(x@, instruction_f())) by {
            lemma_holds_split(bytes@, pos as int, u64_le(x.len() as u64), concat_enc(x@, instruction_f()));
        }
        assert(bytes@.subrange(start as int, start as int) =~= concat_enc(Seq::<Instruction>::empty(), instruction_f()));
        assert forall|x: Vec<Instruction>| #[trigger] holds_at(bytes@, pos as int, instructions_enc(x)) implies
            views(Seq::<Instruction>::empty()) == views(x@.take(0)) && concat_enc(x@.take(0), instruction_f()).len() == 0 by {
            assert(x@.take(0) =~= Seq::<Instruction>::empty());
            assert(views(Seq::<Instruction>::empty()) =~= views(x@.take(0)));
        }
    }
    let mut items: Vec<Instruction> = Vec::new();
    let mut cur = start;
    let mut i: u64 = 0;
    while i < n
        invariant
            i <= n,
            start == pos + 8,
            holds_at(bytes@, pos as int, u64_le(n)),
            holds_at(bytes@, start as int, concat_enc(items@, instruction_f())),
            cur == start + concat_enc(items@, instruction_f()).len(),
            items@.len() == i,
            forall|x: Vec<Instruction>| #[trigger] holds_at(bytes@, pos as int, instructions_enc(x)) ==> x.len() as u64 == n
                && holds_at(bytes@, start as int, concat_enc(x@, instruction_f()))
                && views(items@) == views(x@.take(i as int))
                && cur == start + concat_enc(x@.take(i as int), instruction_f()).len(),
        decreases n - i,
    {
        let got = get_instruction(bytes, cur);
        proof {
            assert forall|x: Vec<Instruction>| #[trigger] holds_at(bytes@, pos as int, instructions_enc(x)) implies got is Some
                && got.unwrap().0@ == x@[i as int]@
                && got.unwrap().1 == start + concat_enc(x@.take(i as int + 1), instruction_f()).len() by {
                lemma_concat_element(bytes@, start as int, x@, instruction_f(), i as int);
                lemma_concat_step(x@, instruction_f(), i as int);
            }
        }
        match got {
            None => {
                return None;
            },
            Some((ins, next)) => {
                proof {
                    assert(items@.push(ins).drop_last() =~= items@);
                    lemma_holds_split(bytes@, start as int, concat_enc(items@, instruction_f()), instruction_enc(ins));
                    assert forall|x: Vec<Instruction>| #[trigger] holds_at(bytes@, pos as int, instructions_enc(x)) implies views(items@.push(ins)) == views(x@.take(i as int + 1)) by {
                        let a = views(items@.push(ins));
                        let b = views(x@.take(i as int + 1));
                        assert forall|k: int| 0 <= k < a.len() implies a[k] == b[k] by {
                            if k < i {
                                assert(views(items@)[k] == views(x@.take(i as int))[k]);
                            }
                        }
                        assert(a =~= b);
                    }
                }
                items.push(ins);
                cur = next;
                i = i + 1;
            },
        }
    }
    proof {
        assert forall|x: Vec<Instruction>| #[trigger] holds_at(bytes@, pos as int, instructions_enc(x)) implies views(items@) == views(x@)
            && cur == pos + instructions_enc(x).len() by {
            assert(x@.len() == x.len());
            assert(x@.take(i as int) =~= x@);
        }
        lemma_holds_split(bytes@, pos as int, u64_le(n), concat_enc(items@, instruction_f()));
        assert(items.len() as u64 == n);
    }
    Some((items, cur))
}

/// The wire form of a program: version byte, then its instructions, error
/// handler and appendix.
pub open spec fn program_enc(p: Program) -> Seq<u8> {
    seq![p.version] + instructions_enc(p.instructions) + instructions_enc(p.error_handler)
        + instructions_enc(p.appendix)
}

/// The wire form of `p`.
pub fn encode_program(p: &Program) -> (r: Vec<u8>)
    ensures
        r@ == program_enc(*p),
{
    let mut out: Vec<u8> = Vec::new();
    out.push(p.version);
    put_instructions(&mut out, &p.instructions);
    put_instructions(&mut out, &p.error_handler);
    put_instructions(&mut out, &p.appendix);
    proof {
        assert(out@ =~= program_enc(*p));
    }
    out
}

proof fn lemma_program_split(bytes: Seq<u8>, p: Program)
    ensures
        holds_at(bytes, 0, program_enc(p)) <==> (holds_at(bytes, 0, seq![p.version]) && holds_at(
            bytes,
            1,
            instructions_enc(p.instructions),
        ) && holds_at(bytes, 1 + instructions_enc(p.instructions).len() as int, instructions_enc(p.error_handler))
            && holds_at(
            bytes,
            1 + instructions_enc(p.instructions).len() as int + instructions_enc(p.error_handler).len() as int,
            instructions_enc(p.appendix),
        )),
{
    let a = seq![p.version];
    let b = instructions_enc(p.instructions);
    let c = instructions_enc(p.error_handler);
    let d = instructions_enc(p.appendix);
    lemma_holds_split(bytes, 0, a + b + c, d);
    lemma_holds_split(bytes, 0, a + b, c);
    lemma_holds_split(bytes, 0, a, b);
}

/// Read a program of protocol version `version` from its wire form.
/// Succeeds exactly on the encodings of programs of that version, and then
/// returns the program encoded; the encoding of a program of another version
/// is refused with `UnsupportedVersion`.
pub fn decode_program(bytes: &Vec<u8>, version: u8) -> (r: Result<Program, DecodeError>)
    ensures
        r is Ok ==> program_enc(r.unwrap()) == bytes@ && r.unwrap().version == version,
        forall|p: Program| #[trigger] program_enc(p) == bytes@ && p.version == version ==> r is Ok && r.unwrap()@ == p@,
        forall|p: Program| #[trigger] program_enc(p) == bytes@ && p.version != version ==> r == Err::<Program, DecodeError>(DecodeError::UnsupportedVersion),
        r is Ok <==> exists|p: Program| #[trigger] program_enc(p) == bytes@ && p.version == version,
{
    proof {
        assert forall|p: Program| #[trigger] program_enc(p) == bytes@ implies holds_at(bytes@, 0, program_enc(p)) by {
            assert(bytes@.subrange(0, bytes@.len() as int) =~= bytes@);
        }
        assert forall|p: Program| #[trigger] program_enc(p) == bytes@ implies holds_at(bytes@, 0, seq![p.version]) && holds_at(
            bytes@,
            1,
            instructions_enc(p.instructions),
        ) && holds_at(bytes@, 1 + instructions_enc(p.instructions).len() as int, instructions_enc(p.error_handler))
            && holds_at(
            bytes@,
            1 + instructions_enc(p.instructions).len() as int + instructions_enc(p.error_handler).len() as int,
            instructions_enc(p.appendix),
        ) by {
            lemma_program_split(bytes@, p);
        }
    }
    let (found, p1) = match get_u8(bytes, 0) {
        Some(v) => v,
        None => return Err(DecodeError::Malformed),
    };
    if found != version {
        return Err(DecodeError::UnsupportedVersion);
    }
    let (instructions, p2) = match get_instructions(bytes, p1) {
        Some(v) => v,
        None => return Err(DecodeError::Malformed),
    };
    let (error_handler, p3) = match get_instructions(bytes, p2) {
        Some(v) => v,
        None => return Err(DecodeError::Malformed),
    };
    let (appendix, p4) = match get_instructions(bytes, p3) {
        Some(v) => v,
        None => return Err(DecodeError::Malformed),
    };
    if p4 != bytes.len() {
        return Err(DecodeError::TrailingBytes);
    }
    let p = Program { version, instructions, error_handler, appendix };
    proof {
        lemma_program_split(bytes@, p);
        assert(bytes@.subrange(0, bytes@.len() as int) =~= bytes@);
    }
    Ok(p)
}

} // verus!
