//! Round constants and rotation offsets of Keccak-f[1600].
use vstd::prelude::*;

verus! {

/// Number of rounds of the permutation.
pub const ROUNDS: usize = 24;

/// The round constant injected by iota in round `i`.
pub open spec fn round_constant(i: int) -> u64 {
    if i == 0 { 0x0000000000000001 }
    else if i == 1 { 0x0000000000008082 }
    else if i == 2 { 0x800000000000808A }
    else if i == 3 { 0x8000000080008000 }
    else if i == 4 { 0x000000000000808B }
    else if i == 5 { 0x0000000080000001 }
    else if i == 6 { 0x8000000080008081 }
    else if i == 7 { 0x8000000000008009 }
    else if i == 8 { 0x000000000000008A }
    else if i == 9 { 0x0000000000000088 }
    else if i == 10 { 0x0000000080008009 }
    else if i == 11 { 0x000000008000000A }
    else if i == 12 { 0x000000008000808B }
    else if i == 13 { 0x800000000000008B }
    else if i == 14 { 0x8000000000008089 }
    else if i == 15 { 0x8000000000008003 }
    else if i == 16 { 0x8000000000008002 }
    else if i == 17 { 0x8000000000000080 }
    else if i == 18 { 0x000000000000800A }
    else if i == 19 { 0x800000008000000A }
    else if i == 20 { 0x8000000080008081 }
    else if i == 21 { 0x8000000000008080 }
    else if i == 22 { 0x0000000080000001 }
    else { 0x8000000080008008 }
}

/// The rotation offset of the lane at column `x`, row `y`.
pub open spec fn rotation_offset(x: int, y: int) -> u32 {
    let row: Seq<u32> = if x == 0 { seq![0u32, 36, 3, 41, 18] }
        else if x == 1 { seq![1u32, 44, 10, 45, 2] }
        else if x == 2 { seq![62u32, 6, 43, 15, 61] }
        else if x == 3 { seq![28u32, 55, 25, 21, 56] }
        else { seq![27u32, 20, 39, 8, 14] };
    row[y]
}

/// Executable round constant of round `i`.
pub fn round_constant_at(i: usize) -> (r: u64)
    requires
        i < ROUNDS,
    ensures
        r == round_constant(i as int),
{
    let table: [u64; 24] = [
        0x0000000000000001, 0x0000000000008082, 0x800000000000808A, 0x8000000080008000,
        0x000000000000808B, 0x0000000080000001, 0x8000000080008081, 0x8000000000008009,
        0x000000000000008A, 0x0000000000000088, 0x0000000080008009, 0x000000008000000A,
        0x000000008000808B, 0x800000000000008B, 0x8000000000008089, 0x8000000000008003,
        0x8000000000008002, 0x8000000000000080, 0x000000000000800A, 0x800000008000000A,
        0x8000000080008081, 0x8000000000008080, 0x0000000080000001, 0x8000000080008008,
    ];
    table[i]
}

/// Executable rotation offset of the lane at column `x`, row `y`.
pub fn rotation_offset_at(x: usize, y: usize) -> (r: u32)
    requires
        x < 5,
        y < 5,
    ensures
        r == rotation_offset(x as int, y as int),
        r < 64,
{
    let table: [[u32; 5]; 5] = [
        [0, 36, 3, 41, 18],
        [1, 44, 10, 45, 2],
        [62, 6, 43, 15, 61],
        [28, 55, 25, 21, 56],
        [27, 20, 39, 8, 14],
    ];
    table[x][y]
}

} // verus!
