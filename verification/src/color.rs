//! The fixed display palette and its color type.

use vstd::prelude::*;

verus! {

/// One display color: an opaque RGB triple with 8-bit channels.
#[derive(Clone, Copy, Debug, PartialEq, Eq, Structural)]
pub struct Rgb {
    pub r: u8,
    pub g: u8,
    pub b: u8,
}

/// Number of colors on the target display.
pub const PALETTE_LEN: usize = 7;

/// The fixed seven-entry palette of the display, in the order that the
/// binary format's palette indices refer to. The order is part of the
/// output format and must never change.
pub open spec fn palette_spec() -> Seq<Rgb> {
    seq![
        Rgb { r: 0, g: 0, b: 0 },        // black
        Rgb { r: 255, g: 255, b: 255 },  // white
        Rgb { r: 67, g: 138, b: 28 },    // green
        Rgb { r: 100, g: 64, b: 255 },   // blue
        Rgb { r: 191, g: 0, b: 0 },      // red
        Rgb { r: 255, g: 243, b: 56 },   // yellow
        Rgb { r: 232, g: 126, b: 0 },    // orange
    ]
}

/// The palette as an executable vector, exactly the seven colors of
/// `palette_spec` in their fixed order.
pub fn palette() -> (r: Vec<Rgb>)
    ensures
        r@ == palette_spec(),
        r@.len() == PALETTE_LEN,
{
    let mut v: Vec<Rgb> = Vec::new();
    v.push(Rgb { r: 0, g: 0, b: 0 });
    v.push(Rgb { r: 255, g: 255, b: 255 });
    v.push(Rgb { r: 67, g: 138, b: 28 });
    v.push(Rgb { r: 100, g: 64, b: 255 });
    v.push(Rgb { r: 191, g: 0, b: 0 });
    v.push(Rgb { r: 255, g: 243, b: 56 });
    v.push(Rgb { r: 232, g: 126, b: 0 });
    proof {
        assert(v@ =~= palette_spec());
    }
    v
}

/// The seven palette entries are pairwise distinct, so a palette index
/// identifies its color unambiguously.
pub proof fn lemma_palette_distinct()
    ensures
        forall|i: int, j: int|
            0 <= i < palette_spec().len() && 0 <= j < palette_spec().len() && i != j
                ==> palette_spec()[i] != palette_spec()[j],
{
}

} // verus!
