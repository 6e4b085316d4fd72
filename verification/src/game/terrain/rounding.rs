use vstd::prelude::*;
use crate::game::terrain::chunk::floor_div;

verus! {

// Tile edits find their chunk the way the game's world code does: the
// world coordinate is converted to a single-precision float, divided by
// the chunk size and floored. Converting an integer to a single-precision
// float gives the nearest representable value, ties going to the value
// with an even significand; dividing by 32 and flooring are then exact.
// The functions below state that conversion over integers.

/// Spacing of single-precision values near a magnitude `a`, for
/// `0 <= a <= 2^31`: 1 below 2^24, then doubling at each power of two.
pub open spec fn single_spacing(a: int) -> int {
    if a < 0x100_0000 {
        1
    } else if a < 0x200_0000 {
        2
    } else if a < 0x400_0000 {
        4
    } else if a < 0x800_0000 {
        8
    } else if a < 0x1000_0000 {
        16
    } else if a < 0x2000_0000 {
        32
    } else if a < 0x4000_0000 {
        64
    } else if a < 0x8000_0000 {
        128
    } else {
        256
    }
}

/// `a` rounded to a multiple of `u`: to the nearest one, and on a tie to
/// the even multiple.
pub open spec fn round_to_multiple(a: int, u: int) -> int {
    let q = a / u;
    let r = a % u;
    if 2 * r < u {
        q * u
    } else if 2 * r > u {
        (q + 1) * u
    } else if q % 2 == 0 {
        q * u
    } else {
        (q + 1) * u
    }
}

/// The single-precision value nearest to the integer `x` (|x| <= 2^31),
/// ties to even; rounding is symmetric in the sign.
pub open spec fn nearest_single(x: int) -> int {
    if x >= 0 {
        round_to_multiple(x, single_spacing(x))
    } else {
        -round_to_multiple(-x, single_spacing(-x))
    }
}

/// The chunk column (or row) that a tile edit at world coordinate `x`
/// reaches: `floor(x as single / 32)`.
pub open spec fn edit_chunk(x: int) -> int {
    floor_div(nearest_single(x), 32)
}

/// Below 2^24 in magnitude every integer is a single-precision value, so
/// a tile edit reaches the chunk that holds the tile.
pub proof fn lemma_edit_chunk_exact(x: int)
    requires
        -0x100_0000 < x < 0x100_0000,
    ensures
        nearest_single(x) == x,
        edit_chunk(x) == floor_div(x, 32),
{
}

/// The chunk that a tile edit at `x` reaches, as `floor(x as single / 32)`.
pub fn edit_chunk_of(x: i32) -> (r: i32)
    ensures
        r == edit_chunk(x as int),
        -0x400_0010 <= r <= 0x400_0010,
{
    let a: i64 = if x < 0 { -(x as i64) } else { x as i64 };
    let u: i64 = if a < 0x100_0000 {
        1
    } else if a < 0x200_0000 {
        2
    } else if a < 0x400_0000 {
        4
    } else if a < 0x800_0000 {
        8
    } else if a < 0x1000_0000 {
        16
    } else if a < 0x2000_0000 {
        32
    } else if a < 0x4000_0000 {
        64
    } else if a < 0x8000_0000 {
        128
    } else {
        256
    };
    assert(u == single_spacing(a as int));
    let q = a / u;
    let rem = a % u;
    assert(q * u + rem == a && 0 <= rem < u && 0 <= q * u <= a && (q + 1) * u <= a + u) by (nonlinear_arith)
        requires q == a / u, rem == a % u, 0 <= a, 0 < u;
    let m: i64 = if 2 * rem < u {
        q * u
    } else if 2 * rem > u {
        (q + 1) * u
    } else if q % 2 == 0 {
        q * u
    } else {
        (q + 1) * u
    };
    assert(m == round_to_multiple(a as int, u as int));
    let v: i64 = if x < 0 { -m } else { m };
    assert(v == nearest_single(x as int));
    let c = v.checked_div_euclid(32).unwrap();
    assert(-0x400_0010 <= c <= 0x400_0010);
    c as i32
}

} // verus!
