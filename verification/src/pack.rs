//! Packing palette indices into the binary output format, and the
//! reverse mapping from indices to preview RGB bytes.
//!
//! Each output byte carries two consecutive palette indices: the first
//! in its high nibble, the second in its low nibble.

use vstd::prelude::*;
use crate::color::{palette, palette_spec};

verus! {

/// The packed form of an even-length index sequence: byte `i` is
/// `s[2i] * 16 + s[2i+1]`.
pub open spec fn pack_spec(s: Seq<u8>) -> Seq<u8>
    recommends
        s.len() % 2 == 0,
        forall|i: int| 0 <= i < s.len() ==> s[i] < 16,
{
    Seq::new(s.len() / 2, |i: int| ((s[2 * i] as int) * 16 + (s[2 * i + 1] as int)) as u8)
}

/// The unpacked form of a byte sequence: byte `i` yields its high
/// nibble, then its low nibble.
pub open spec fn unpack_spec(b: Seq<u8>) -> Seq<u8> {
    Seq::new(
        b.len() * 2,
        |i: int| if i % 2 == 0 { (b[i / 2] / 16) as u8 } else { (b[i / 2] % 16) as u8 },
    )
}

/// Law: packing then unpacking returns exactly the index sequence that
/// was packed, for every even-length sequence of nibble-sized values.
pub proof fn lemma_pack_round_trip(s: Seq<u8>)
    requires
        s.len() % 2 == 0,
        forall|i: int| 0 <= i < s.len() ==> s[i] < 16,
    ensures
        unpack_spec(pack_spec(s)) =~= s,
{
    let u = unpack_spec(pack_spec(s));
    assert forall|i: int| 0 <= i < s.len() implies u[i] == s[i] by {
        let j = i / 2;
        let a = s[2 * j] as int;
        let b = s[2 * j + 1] as int;
        assert(0 <= a < 16 && 0 <= b < 16);
        assert((a * 16 + b) / 16 == a && (a * 16 + b) % 16 == b) by (nonlinear_arith)
            requires 0 <= a < 16 && 0 <= b < 16;
        if i % 2 == 0 {
            assert(2 * j == i);
        } else {
            assert(2 * j + 1 == i);
        }
    }
}

/// Packs two consecutive palette indices per byte, high nibble first.
pub fn pack_indices(indices: &Vec<u8>) -> (r: Vec<u8>)
    requires
        indices@.len() % 2 == 0,
        forall|i: int| 0 <= i < indices@.len() ==> indices@[i] < 16,
    ensures
        r@ == pack_spec(indices@),
        r@.len() == indices@.len() / 2,
{
    let n = indices.len() / 2;
    proof {
        assert(2 * (n as int) == indices@.len());
    }
    let mut out: Vec<u8> = Vec::new();
    let mut i: usize = 0;
    while i < n
        invariant
            0 <= i <= n,
            n == indices@.len() / 2,
            2 * (n as int) == indices@.len(),
            indices@.len() <= usize::MAX,
            indices@.len() % 2 == 0,
            forall|k: int| 0 <= k < indices@.len() ==> indices@[k] < 16,
            out@ =~= pack_spec(indices@).take(i as int),
        decreases n - i,
    {
        let hi = indices[2 * i];
        let lo = indices[2 * i + 1];
        out.push(hi * 16 + lo);
        proof {
            assert(out@ =~= pack_spec(indices@).take(i + 1));
        }
        i = i + 1;
    }
    proof {
        assert(out@ =~= pack_spec(indices@));
    }
    out
}

/// Splits each byte back into its high and low nibble.
pub fn unpack_indices(bytes: &Vec<u8>) -> (r: Vec<u8>)
    requires
        bytes@.len() * 2 <= usize::MAX,
    ensures
        r@ == unpack_spec(bytes@),
        r@.len() == bytes@.len() * 2,
{
    let mut out: Vec<u8> = Vec::new();
    let mut i: usize = 0;
    while i < bytes.len()
        invariant
            0 <= i <= bytes@.len(),
            bytes@.len() * 2 <= usize::MAX,
            out@ =~= unpack_spec(bytes@).take(2 * i),
        decreases bytes@.len() - i,
    {
        let b = bytes[i];
        out.push(b / 16);
        out.push(b % 16);
        proof {
            assert(out@ =~= unpack_spec(bytes@).take(2 * (i + 1)));
        }
        i = i + 1;
    }
    proof {
        assert(out@ =~= unpack_spec(bytes@));
    }
    out
}

/// Maps each palette index back to its color and emits the flat
/// `r, g, b` byte stream used for preview images.
pub fn preview_rgb(indices: &Vec<u8>) -> (r: Vec<u8>)
    requires
        forall|i: int| 0 <= i < indices@.len() ==> (indices@[i] as int) < palette_spec().len(),
        indices@.len() * 3 <= usize::MAX,
    ensures
        r@.len() == indices@.len() * 3,
        forall|i: int| 0 <= i < indices@.len() ==> {
            &&& r@[3 * i] == palette_spec()[indices@[i] as int].r
            &&& r@[3 * i + 1] == palette_spec()[indices@[i] as int].g
            &&& r@[3 * i + 2] == palette_spec()[indices@[i] as int].b
        },
{
    let pal = palette();
    let mut out: Vec<u8> = Vec::new();
    let mut i: usize = 0;
    while i < indices.len()
        invariant
            0 <= i <= indices@.len(),
            indices@.len() * 3 <= usize::MAX,
            pal@ == palette_spec(),
            forall|k: int| 0 <= k < indices@.len() ==> (indices@[k] as int) < palette_spec().len(),
            out@.len() == i * 3,
            forall|k: int| 0 <= k < i ==> {
                &&& out@[3 * k] == palette_spec()[indices@[k] as int].r
                &&& out@[3 * k + 1] == palette_spec()[indices@[k] as int].g
                &&& out@[3 * k + 2] == palette_spec()[indices@[k] as int].b
            },
        decreases indices@.len() - i,
    {
        let c = pal[indices[i] as usize];
        out.push(c.r);
        out.push(c.g);
        out.push(c.b);
        i = i + 1;
    }
    out
}

} // verus!
