use vstd::prelude::*;

verus! {

/// The 5-wide, 7-tall bitmap of a character, one row per entry, top row first.
/// In each row, bit 4 is the leftmost column and bit 0 the rightmost.
/// Digits 0 to 3, `F`, `P`, `S` and `:` have a glyph of their own, a space is
/// blank, and every other character is drawn as a hollow box.
pub open spec fn glyph(ch: char) -> Seq<u8> {
    if ch == '0' {
        seq![0b01110u8, 0b10001, 0b10001, 0b10001, 0b10001, 0b10001, 0b01110]
    } else if ch == '1' {
        seq![0b00100u8, 0b01100, 0b00100, 0b00100, 0b00100, 0b00100, 0b01110]
    } else if ch == '2' {
        seq![0b01110u8, 0b10001, 0b00001, 0b00110, 0b01000, 0b10000, 0b11111]
    } else if ch == '3' {
        seq![0b01110u8, 0b10001, 0b00001, 0b00110, 0b00001, 0b10001, 0b01110]
    } else if ch == 'F' {
        seq![0b11111u8, 0b10000, 0b10000, 0b11110, 0b10000, 0b10000, 0b10000]
    } else if ch == 'P' {
        seq![0b11110u8, 0b10001, 0b10001, 0b11110, 0b10000, 0b10000, 0b10000]
    } else if ch == 'S' {
        seq![0b01111u8, 0b10000, 0b10000, 0b01110, 0b00001, 0b00001, 0b11110]
    } else if ch == ':' {
        seq![0b00000u8, 0b00100, 0b00000, 0b00000, 0b00000, 0b00100, 0b00000]
    } else if ch == ' ' {
        seq![0u8, 0, 0, 0, 0, 0, 0]
    } else {
        seq![0b11111u8, 0b10001, 0b10001, 0b10001, 0b10001, 0b10001, 0b11111]
    }
}

/// Whether the glyph of `ch` has its pixel at `col` (0 = left) of `row` (0 = top) set.
pub open spec fn glyph_bit(ch: char, row: int, col: int) -> bool {
    &&& 0 <= row < 7
    &&& 0 <= col < 5
    &&& (glyph(ch)[row] >> ((4 - col) as u8)) & 1u8 == 1u8
}

/// The rows of the glyph of `ch`.
pub fn glyph_rows(ch: char) -> (r: [u8; 7])
    ensures
        r@ == glyph(ch),
{
    let r: [u8; 7] = match ch {
        '0' => [0b01110, 0b10001, 0b10001, 0b10001, 0b10001, 0b10001, 0b01110],
        '1' => [0b00100, 0b01100, 0b00100, 0b00100, 0b00100, 0b00100, 0b01110],
        '2' => [0b01110, 0b10001, 0b00001, 0b00110, 0b01000, 0b10000, 0b11111],
        '3' => [0b01110, 0b10001, 0b00001, 0b00110, 0b00001, 0b10001, 0b01110],
        'F' => [0b11111, 0b10000, 0b10000, 0b11110, 0b10000, 0b10000, 0b10000],
        'P' => [0b11110, 0b10001, 0b10001, 0b11110, 0b10000, 0b10000, 0b10000],
        'S' => [0b01111, 0b10000, 0b10000, 0b01110, 0b00001, 0b00001, 0b11110],
        ':' => [0b00000, 0b00100, 0b00000, 0b00000, 0b00000, 0b00100, 0b00000],
        ' ' => [0; 7],
        _ => [0b11111, 0b10001, 0b10001, 0b10001, 0b10001, 0b10001, 0b11111],
    };
    assert(r@ =~= glyph(ch));
    r
}

} // verus!
