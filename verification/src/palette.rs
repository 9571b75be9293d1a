//! The default palette: the ordered set of colors a save may reference by
//! index. Index order is load-bearing: emitted bricks name entries of this
//! sequence by position.

use vstd::prelude::*;

verus! {

use crate::Rgba;

/// The default palette as a mathematical sequence of 96 colors.
pub open spec fn default_palette_spec() -> Seq<Rgba> {
    seq![
        Rgba { r: 255, g: 255, b: 255, a: 255 },
        Rgba { r: 184, g: 184, b: 184, a: 255 },
        Rgba { r: 136, g: 136, b: 136, a: 255 },
        Rgba { r: 114, g: 114, b: 114, a: 255 },
        Rgba { r: 90, g: 90, b: 90, a: 255 },
        Rgba { r: 57, g: 57, b: 57, a: 255 },
        Rgba { r: 35, g: 35, b: 35, a: 255 },
        Rgba { r: 24, g: 24, b: 24, a: 255 },
        Rgba { r: 17, g: 17, b: 17, a: 255 },
        Rgba { r: 6, g: 6, b: 6, a: 255 },
        Rgba { r: 2, g: 2, b: 2, a: 255 },
        Rgba { r: 0, g: 0, b: 0, a: 255 },
        Rgba { r: 87, g: 5, b: 9, a: 255 },
        Rgba { r: 235, g: 6, b: 6, a: 255 },
        Rgba { r: 255, g: 29, b: 3, a: 255 },
        Rgba { r: 246, g: 73, b: 6, a: 255 },
        Rgba { r: 235, g: 157, b: 6, a: 255 },
        Rgba { r: 61, g: 164, b: 4, a: 255 },
        Rgba { r: 9, g: 139, b: 5, a: 255 },
        Rgba { r: 3, g: 16, b: 255, a: 255 },
        Rgba { r: 12, g: 244, b: 255, a: 255 },
        Rgba { r: 163, g: 35, b: 85, a: 255 },
        Rgba { r: 48, g: 8, b: 72, a: 255 },
        Rgba { r: 14, g: 6, b: 49, a: 255 },
        Rgba { r: 41, g: 25, b: 25, a: 255 },
        Rgba { r: 96, g: 71, b: 73, a: 255 },
        Rgba { r: 181, g: 131, b: 134, a: 255 },
        Rgba { r: 45, g: 44, b: 27, a: 255 },
        Rgba { r: 114, g: 109, b: 65, a: 255 },
        Rgba { r: 144, g: 139, b: 100, a: 255 },
        Rgba { r: 27, g: 45, b: 28, a: 255 },
        Rgba { r: 65, g: 114, b: 68, a: 255 },
        Rgba { r: 100, g: 144, b: 103, a: 255 },
        Rgba { r: 30, g: 39, b: 41, a: 255 },
        Rgba { r: 71, g: 92, b: 96, a: 255 },
        Rgba { r: 131, g: 171, b: 181, a: 255 },
        Rgba { r: 23, g: 5, b: 2, a: 255 },
        Rgba { r: 90, g: 16, b: 5, a: 255 },
        Rgba { r: 77, g: 20, b: 1, a: 255 },
        Rgba { r: 77, g: 30, b: 7, a: 255 },
        Rgba { r: 144, g: 60, b: 18, a: 255 },
        Rgba { r: 166, g: 104, b: 62, a: 255 },
        Rgba { r: 255, g: 159, b: 78, a: 255 },
        Rgba { r: 255, g: 121, b: 78, a: 255 },
        Rgba { r: 50, g: 20, b: 13, a: 255 },
        Rgba { r: 21, g: 12, b: 3, a: 255 },
        Rgba { r: 51, g: 33, b: 13, a: 255 },
        Rgba { r: 194, g: 163, b: 58, a: 255 },
        Rgba { r: 19, g: 2, b: 1, a: 255 },
        Rgba { r: 73, g: 4, b: 1, a: 255 },
        Rgba { r: 190, g: 23, b: 18, a: 255 },
        Rgba { r: 190, g: 59, b: 53, a: 255 },
        Rgba { r: 255, g: 149, b: 156, a: 255 },
        Rgba { r: 255, g: 79, b: 38, a: 255 },
        Rgba { r: 255, g: 41, b: 2, a: 255 },
        Rgba { r: 171, g: 54, b: 27, a: 255 },
        Rgba { r: 109, g: 64, b: 5, a: 255 },
        Rgba { r: 171, g: 99, b: 8, a: 255 },
        Rgba { r: 255, g: 146, b: 11, a: 255 },
        Rgba { r: 255, g: 175, b: 47, a: 255 },
        Rgba { r: 22, g: 37, b: 1, a: 255 },
        Rgba { r: 67, g: 80, b: 12, a: 255 },
        Rgba { r: 122, g: 144, b: 30, a: 255 },
        Rgba { r: 101, g: 255, b: 81, a: 255 },
        Rgba { r: 13, g: 204, b: 47, a: 255 },
        Rgba { r: 0, g: 77, b: 0, a: 255 },
        Rgba { r: 11, g: 54, b: 11, a: 255 },
        Rgba { r: 5, g: 30, b: 3, a: 255 },
        Rgba { r: 5, g: 18, b: 5, a: 255 },
        Rgba { r: 8, g: 43, b: 27, a: 255 },
        Rgba { r: 9, g: 96, b: 53, a: 255 },
        Rgba { r: 8, g: 146, b: 66, a: 255 },
        Rgba { r: 5, g: 13, b: 17, a: 255 },
        Rgba { r: 11, g: 30, b: 44, a: 255 },
        Rgba { r: 1, g: 34, b: 64, a: 255 },
        Rgba { r: 0, g: 65, b: 122, a: 255 },
        Rgba { r: 8, g: 118, b: 200, a: 255 },
        Rgba { r: 5, g: 152, b: 171, a: 255 },
        Rgba { r: 80, g: 147, b: 163, a: 255 },
        Rgba { r: 134, g: 250, b: 255, a: 255 },
        Rgba { r: 86, g: 119, b: 242, a: 255 },
        Rgba { r: 37, g: 55, b: 235, a: 255 },
        Rgba { r: 12, g: 25, b: 156, a: 255 },
        Rgba { r: 1, g: 4, b: 44, a: 255 },
        Rgba { r: 8, g: 0, b: 30, a: 255 },
        Rgba { r: 18, g: 0, b: 57, a: 255 },
        Rgba { r: 56, g: 19, b: 100, a: 255 },
        Rgba { r: 141, g: 45, b: 255, a: 255 },
        Rgba { r: 255, g: 93, b: 255, a: 255 },
        Rgba { r: 253, g: 149, b: 255, a: 255 },
        Rgba { r: 255, g: 58, b: 116, a: 255 },
        Rgba { r: 91, g: 18, b: 55, a: 255 },
        Rgba { r: 255, g: 24, b: 255, a: 255 },
        Rgba { r: 255, g: 0, b: 55, a: 255 },
        Rgba { r: 127, g: 0, b: 29, a: 255 },
        Rgba { r: 55, g: 0, b: 55, a: 255 },
    ]
}

/// The default palette, in order. Its indices are the palette indices that
/// emitted bricks may carry.
pub fn default_palette() -> (r: Vec<Rgba>)
    ensures
        r@ == default_palette_spec(),
        r@.len() == 96,
{
    let v: Vec<Rgba> = vec![
        Rgba { r: 255, g: 255, b: 255, a: 255 },
        Rgba { r: 184, g: 184, b: 184, a: 255 },
        Rgba { r: 136, g: 136, b: 136, a: 255 },
        Rgba { r: 114, g: 114, b: 114, a: 255 },
        Rgba { r: 90, g: 90, b: 90, a: 255 },
        Rgba { r: 57, g: 57, b: 57, a: 255 },
        Rgba { r: 35, g: 35, b: 35, a: 255 },
        Rgba { r: 24, g: 24, b: 24, a: 255 },
        Rgba { r: 17, g: 17, b: 17, a: 255 },
        Rgba { r: 6, g: 6, b: 6, a: 255 },
        Rgba { r: 2, g: 2, b: 2, a: 255 },
        Rgba { r: 0, g: 0, b: 0, a: 255 },
        Rgba { r: 87, g: 5, b: 9, a: 255 },
        Rgba { r: 235, g: 6, b: 6, a: 255 },
        Rgba { r: 255, g: 29, b: 3, a: 255 },
        Rgba { r: 246, g: 73, b: 6, a: 255 },
        Rgba { r: 235, g: 157, b: 6, a: 255 },
        Rgba { r: 61, g: 164, b: 4, a: 255 },
        Rgba { r: 9, g: 139, b: 5, a: 255 },
        Rgba { r: 3, g: 16, b: 255, a: 255 },
        Rgba { r: 12, g: 244, b: 255, a: 255 },
        Rgba { r: 163, g: 35, b: 85, a: 255 },
        Rgba { r: 48, g: 8, b: 72, a: 255 },
        Rgba { r: 14, g: 6, b: 49, a: 255 },
        Rgba { r: 41, g: 25, b: 25, a: 255 },
        Rgba { r: 96, g: 71, b: 73, a: 255 },
        Rgba { r: 181, g: 131, b: 134, a: 255 },
        Rgba { r: 45, g: 44, b: 27, a: 255 },
        Rgba { r: 114, g: 109, b: 65, a: 255 },
        Rgba { r: 144, g: 139, b: 100, a: 255 },
        Rgba { r: 27, g: 45, b: 28, a: 255 },
        Rgba { r: 65, g: 114, b: 68, a: 255 },
        Rgba { r: 100, g: 144, b: 103, a: 255 },
        Rgba { r: 30, g: 39, b: 41, a: 255 },
        Rgba { r: 71, g: 92, b: 96, a: 255 },
        Rgba { r: 131, g: 171, b: 181, a: 255 },
        Rgba { r: 23, g: 5, b: 2, a: 255 },
        Rgba { r: 90, g: 16, b: 5, a: 255 },
        Rgba { r: 77, g: 20, b: 1, a: 255 },
        Rgba { r: 77, g: 30, b: 7, a: 255 },
        Rgba { r: 144, g: 60, b: 18, a: 255 },
        Rgba { r: 166, g: 104, b: 62, a: 255 },
        Rgba { r: 255, g: 159, b: 78, a: 255 },
        Rgba { r: 255, g: 121, b: 78, a: 255 },
        Rgba { r: 50, g: 20, b: 13, a: 255 },
        Rgba { r: 21, g: 12, b: 3, a: 255 },
        Rgba { r: 51, g: 33, b: 13, a: 255 },
        Rgba { r: 194, g: 163, b: 58, a: 255 },
        Rgba { r: 19, g: 2, b: 1, a: 255 },
        Rgba { r: 73, g: 4, b: 1, a: 255 },
        Rgba { r: 190, g: 23, b: 18, a: 255 },
        Rgba { r: 190, g: 59, b: 53, a: 255 },
        Rgba { r: 255, g: 149, b: 156, a: 255 },
        Rgba { r: 255, g: 79, b: 38, a: 255 },
        Rgba { r: 255, g: 41, b: 2, a: 255 },
        Rgba { r: 171, g: 54, b: 27, a: 255 },
        Rgba { r: 109, g: 64, b: 5, a: 255 },
        Rgba { r: 171, g: 99, b: 8, a: 255 },
        Rgba { r: 255, g: 146, b: 11, a: 255 },
        Rgba { r: 255, g: 175, b: 47, a: 255 },
        Rgba { r: 22, g: 37, b: 1, a: 255 },
        Rgba { r: 67, g: 80, b: 12, a: 255 },
        Rgba { r: 122, g: 144, b: 30, a: 255 },
        Rgba { r: 101, g: 255, b: 81, a: 255 },
        Rgba { r: 13, g: 204, b: 47, a: 255 },
        Rgba { r: 0, g: 77, b: 0, a: 255 },
        Rgba { r: 11, g: 54, b: 11, a: 255 },
        Rgba { r: 5, g: 30, b: 3, a: 255 },
        Rgba { r: 5, g: 18, b: 5, a: 255 },
        Rgba { r: 8, g: 43, b: 27, a: 255 },
        Rgba { r: 9, g: 96, b: 53, a: 255 },
        Rgba { r: 8, g: 146, b: 66, a: 255 },
        Rgba { r: 5, g: 13, b: 17, a: 255 },
        Rgba { r: 11, g: 30, b: 44, a: 255 },
        Rgba { r: 1, g: 34, b: 64, a: 255 },
        Rgba { r: 0, g: 65, b: 122, a: 255 },
        Rgba { r: 8, g: 118, b: 200, a: 255 },
        Rgba { r: 5, g: 152, b: 171, a: 255 },
        Rgba { r: 80, g: 147, b: 163, a: 255 },
        Rgba { r: 134, g: 250, b: 255, a: 255 },
        Rgba { r: 86, g: 119, b: 242, a: 255 },
        Rgba { r: 37, g: 55, b: 235, a: 255 },
        Rgba { r: 12, g: 25, b: 156, a: 255 },
        Rgba { r: 1, g: 4, b: 44, a: 255 },
        Rgba { r: 8, g: 0, b: 30, a: 255 },
        Rgba { r: 18, g: 0, b: 57, a: 255 },
        Rgba { r: 56, g: 19, b: 100, a: 255 },
        Rgba { r: 141, g: 45, b: 255, a: 255 },
        Rgba { r: 255, g: 93, b: 255, a: 255 },
        Rgba { r: 253, g: 149, b: 255, a: 255 },
        Rgba { r: 255, g: 58, b: 116, a: 255 },
        Rgba { r: 91, g: 18, b: 55, a: 255 },
        Rgba { r: 255, g: 24, b: 255, a: 255 },
        Rgba { r: 255, g: 0, b: 55, a: 255 },
        Rgba { r: 127, g: 0, b: 29, a: 255 },
        Rgba { r: 55, g: 0, b: 55, a: 255 },
    ];
    proof {
        assert(v@ =~= default_palette_spec());
    }
    v
}

} // verus!
