//! Addressing schemes, image formats, and the row-flip transform.
use vstd::prelude::*;
use vstd::arithmetic::power2::{pow2, lemma2_to64, lemma_pow2_strictly_increases, lemma_pow2_unfold};

verus! {

/// The command selected on the command line; the dispatch itself lives
/// outside the library.
#[derive(Clone, Copy, Debug)]
pub enum Command {
    Import,
    Export,
    Metadata,
}

/// The addressing convention mapping canonical tile coordinates to
/// filesystem paths.
#[derive(Clone, Copy, Debug, PartialEq, Eq, Structural)]
pub enum Scheme {
    Xyz,
    Tms,
    Wms,
    Ags,
}

/// The format of the stored tile images, which fixes the expected file
/// extension of tile files.
#[derive(Clone, Copy, Debug, PartialEq, Eq, Structural)]
pub enum ImageFormat {
    Png,
    Jpg,
    Webp,
    Pbf,
}

/// The file extension expected for tile files of the given format.
pub open spec fn spec_extension(image_format: ImageFormat) -> Seq<u8> {
    match image_format {
        ImageFormat::Png => seq![('p' as u8), ('n' as u8), ('g' as u8)],
        ImageFormat::Jpg => seq![('j' as u8), ('p' as u8), ('g' as u8)],
        ImageFormat::Webp => seq![('w' as u8), ('e' as u8), ('b' as u8), ('p' as u8)],
        ImageFormat::Pbf => seq![('p' as u8), ('b' as u8), ('f' as u8)],
    }
}

/// Returns the file extension for tile files of the given image format.
pub fn get_extension(image_format: ImageFormat) -> (r: Vec<u8>)
    ensures
        r@ == spec_extension(image_format),
{
    let v: Vec<u8> = match image_format {
        ImageFormat::Png => vec![('p' as u8), ('n' as u8), ('g' as u8)],
        ImageFormat::Jpg => vec![('j' as u8), ('p' as u8), ('g' as u8)],
        ImageFormat::Webp => vec![('w' as u8), ('e' as u8), ('b' as u8), ('p' as u8)],
        ImageFormat::Pbf => vec![('p' as u8), ('b' as u8), ('f' as u8)],
    };
    proof {
        assert(v@ =~= spec_extension(image_format));
    }
    v
}

/// Row-address transform between top-origin and bottom-origin numbering
/// at a zoom level: `2^zoom - 1 - y`.
pub open spec fn spec_flip_y(zoom: nat, y: nat) -> nat
    recommends
        y < pow2(zoom),
{
    (pow2(zoom) - 1 - y) as nat
}

/// Whether `flip_y` is defined for this pair: the level must have a side
/// length representable in 32 bits and the row must lie on the level.
pub open spec fn flip_in_range(zoom: u32, y: u32) -> bool {
    zoom <= 31 && (y as nat) < pow2(zoom as nat)
}

/// Converts a row number between top-origin and bottom-origin conventions
/// at the given zoom level.
pub fn flip_y(zoom: u32, y: u32) -> (r: u32)
    requires
        flip_in_range(zoom, y),
    ensures
        r == spec_flip_y(zoom as nat, y as nat),
{
    proof {
        lemma2_to64();
    }
    let mut side: u32 = 1;
    let mut i: u32 = 0;
    while i < zoom
        invariant
            i <= zoom,
            zoom <= 31,
            side == pow2(i as nat),
        decreases zoom - i,
    {
        proof {
            lemma_pow2_unfold((i + 1) as nat);
            if ((i + 1) as nat) < 31 {
                lemma_pow2_strictly_increases((i + 1) as nat, 31);
            }
            lemma2_to64();
        }
        side = side * 2;
        i = i + 1;
    }
    side - 1 - y
}

/// Converts a row number as `flip_y` does, reporting an out-of-range pair
/// instead of requiring it away.
pub fn try_flip_y(zoom: u32, y: u32) -> (r: Option<u32>)
    ensures
        match r {
            Some(v) => flip_in_range(zoom, y) && v == spec_flip_y(zoom as nat, y as nat),
            None => !flip_in_range(zoom, y),
        },
{
    proof {
        lemma2_to64();
    }
    if zoom > 31 {
        return None;
    }
    let mut side: u32 = 1;
    let mut i: u32 = 0;
    while i < zoom
        invariant
            i <= zoom,
            zoom <= 31,
            side == pow2(i as nat),
        decreases zoom - i,
    {
        proof {
            lemma_pow2_unfold((i + 1) as nat);
            if ((i + 1) as nat) < 31 {
                lemma_pow2_strictly_increases((i + 1) as nat, 31);
            }
            lemma2_to64();
        }
        side = side * 2;
        i = i + 1;
    }
    if y < side {
        Some(side - 1 - y)
    } else {
        None
    }
}

/// The row flip is an involution: applying it twice at the same zoom level
/// gives the original row back.
pub proof fn lemma_flip_y_involution(zoom: nat, y: nat)
    requires
        zoom <= 20,
        y < pow2(zoom),
    ensures
        spec_flip_y(zoom, spec_flip_y(zoom, y)) == y,
{
}

} // verus!
