//! The white clock hands drawn over the tray icon, on a square RGBA image.

use vstd::prelude::*;

verus! {

/// Width and height of the tray icon, in pixels.
pub const ICON_SIZE: usize = 32;

/// Number of bytes of the icon's RGBA image.
pub const ICON_BYTES: usize = 4096;

/// Index of the first byte (red) of pixel (`x`, `y`).
pub open spec fn pixel_index(x: int, y: int) -> int {
    (y * 32 + x) * 4
}

/// Whether pixel (`x`, `y`) belongs to the clock hands: a vertical hand two
/// pixels wide from row 9 to row 16, and a horizontal one two pixels high
/// from column 16 to column 22.
pub open spec fn is_hand_pixel(x: int, y: int) -> bool {
    ||| (x == 15 || x == 16) && 9 <= y < 17
    ||| (y == 15 || y == 16) && 16 <= x < 23
}

/// Whether byte `i` of the image belongs to a pixel of the clock hands.
pub open spec fn is_hand_byte(i: int) -> bool {
    is_hand_pixel((i / 4) % 32, (i / 4) / 32)
}

/// Paints pixel (`x`, `y`) of a 32-pixel-wide RGBA image opaque white: its
/// four bytes become `0xff`, every other byte stays.
pub fn paint_white(data: &mut Vec<u8>, x: usize, y: usize)
    requires
        pixel_index(x as int, y as int) + 4 <= old(data)@.len(),
    ensures
        final(data)@.len() == old(data)@.len(),
        forall|i: int|
            0 <= i < old(data)@.len() ==> #[trigger] final(data)@[i] == if pixel_index(x as int, y as int) <= i
                < pixel_index(x as int, y as int) + 4 {
                255u8
            } else {
                old(data)@[i]
            },
{
    let length = data.len();
    assert(pixel_index(x as int, y as int) + 4 <= length);
    let index = (y * ICON_SIZE + x) * 4;
    data.set(index, 0xff);
    data.set(index + 1, 0xff);
    data.set(index + 2, 0xff);
    data.set(index + 3, 0xff);
}

/// The pixel that byte `i` belongs to lies at (`(i / 4) % 32`, `(i / 4) / 32`).
proof fn lemma_byte_pixel(i: int, x: int, y: int)
    requires
        0 <= x < 32,
        0 <= y < 32,
    ensures
        (pixel_index(x, y) <= i < pixel_index(x, y) + 4) <==> (0 <= i && (i / 4) % 32 == x && (i / 4) / 32 == y),
{
    assert((pixel_index(x, y) <= i < pixel_index(x, y) + 4) <==> (0 <= i && (i / 4) % 32 == x && (i / 4) / 32 == y))
        by (nonlinear_arith)
        requires
            0 <= x < 32,
            0 <= y < 32,
    ;
}

/// Paints the clock hands white over the image, leaving every other byte.
pub fn paint_hands(data: &mut Vec<u8>)
    requires
        old(data)@.len() == ICON_BYTES,
    ensures
        final(data)@.len() == ICON_BYTES,
        forall|i: int|
            0 <= i < ICON_BYTES ==> #[trigger] final(data)@[i] == if is_hand_byte(i) {
                255u8
            } else {
                old(data)@[i]
            },
{
    let ghost unpainted = data@;
    let mut y: usize = 9;
    while y < 17
        invariant
            9 <= y <= 17,
            data@.len() == ICON_BYTES,
            forall|i: int|
                0 <= i < ICON_BYTES ==> #[trigger] data@[i] == if (((i / 4) % 32 == 15 || (i / 4) % 32 == 16)
                    && 9 <= (i / 4) / 32 < y) {
                    255u8
                } else {
                    unpainted[i]
                },
        decreases 17 - y,
    {
        let ghost before = data@;
        paint_white(data, 15, y);
        let ghost mid = data@;
        paint_white(data, 16, y);
        proof {
            assert forall|i: int| 0 <= i < ICON_BYTES implies #[trigger] data@[i] == if (((i / 4) % 32 == 15
                || (i / 4) % 32 == 16) && 9 <= (i / 4) / 32 < y + 1) {
                255u8
            } else {
                unpainted[i]
            } by {
                lemma_byte_pixel(i, 15, y as int);
                lemma_byte_pixel(i, 16, y as int);
                assert(before[i] == if (((i / 4) % 32 == 15 || (i / 4) % 32 == 16) && 9 <= (i / 4) / 32 < y) {
                    255u8
                } else {
                    unpainted[i]
                });
                assert(mid[i] == if pixel_index(15, y as int) <= i < pixel_index(15, y as int) + 4 { 255u8 } else { before[i] });
            }
        }
        y = y + 1;
    }
    let ghost after_vertical = data@;
    let mut x: usize = 16;
    while x < 23
        invariant
            16 <= x <= 23,
            data@.len() == ICON_BYTES,
            forall|i: int|
                0 <= i < ICON_BYTES ==> #[trigger] data@[i] == if (((i / 4) / 32 == 15 || (i / 4) / 32 == 16)
                    && 16 <= (i / 4) % 32 < x) {
                    255u8
                } else {
                    after_vertical[i]
                },
        decreases 23 - x,
    {
        let ghost before = data@;
        paint_white(data, x, 15);
        let ghost mid = data@;
        paint_white(data, x, 16);
        proof {
            assert forall|i: int| 0 <= i < ICON_BYTES implies #[trigger] data@[i] == if (((i / 4) / 32 == 15
                || (i / 4) / 32 == 16) && 16 <= (i / 4) % 32 < x + 1) {
                255u8
            } else {
                after_vertical[i]
            } by {
                lemma_byte_pixel(i, x as int, 15);
                lemma_byte_pixel(i, x as int, 16);
                assert(before[i] == if (((i / 4) / 32 == 15 || (i / 4) / 32 == 16) && 16 <= (i / 4) % 32 < x) {
                    255u8
                } else {
                    after_vertical[i]
                });
                assert(mid[i] == if pixel_index(x as int, 15) <= i < pixel_index(x as int, 15) + 4 { 255u8 } else { before[i] });
            }
        }
        x = x + 1;
    }
}

} // verus!
