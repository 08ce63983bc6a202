//! The dictionary of 4x4 fiducial markers printed around the answer tables,
//! and the decoding of a marker's bit pattern.

use vstd::prelude::*;
use crate::imaging::{GrayGrid, Raster, raster_at};

verus! {

/// The number of markers in the dictionary.
pub const DICT_SIZE: usize = 8;

/// The four rotations of the bit pattern of marker `id` (0 to 7).
pub open spec fn rotations(id: int) -> Seq<u16> {
    if id == 0 {
        seq![0xb532u16, 0xeb48u16, 0x4cadu16, 0x12d7u16]
    } else
    if id == 1 {
        seq![0x0f9au16, 0x6547u16, 0x59f0u16, 0xe2a6u16]
    } else
    if id == 2 {
        seq![0x332du16, 0xde11u16, 0xb4ccu16, 0x887bu16]
    } else
    if id == 3 {
        seq![0x9946u16, 0xc13cu16, 0x6299u16, 0x3c83u16]
    } else
    if id == 4 {
        seq![0x549eu16, 0xa1d3u16, 0x792au16, 0xcb85u16]
    } else
    if id == 5 {
        seq![0x79cdu16, 0x9ec6u16, 0xef42u16, 0xf84cu16]
    } else
    if id == 6 {
        seq![0x9e2eu16, 0x9884u16, 0x9742u16, 0x7c10u16]
    } else
    {
        seq![0xc4f2u16, 0xc61fu16, 0x7742u16, 0x7c31u16]
    }
}

/// The bit pattern of marker `id` (0 to 7) in rotation `rot` (0 to 3).
fn rotation_code(id: usize, rot: usize) -> (c: u16)
    requires
        id < DICT_SIZE,
        rot < 4,
    ensures
        c == rotations(id as int)[rot as int],
{
    match (id, rot) {
        (0, 0) => 0xb532,
        (0, 1) => 0xeb48,
        (0, 2) => 0x4cad,
        (0, 3) => 0x12d7,
        (1, 0) => 0x0f9a,
        (1, 1) => 0x6547,
        (1, 2) => 0x59f0,
        (1, 3) => 0xe2a6,
        (2, 0) => 0x332d,
        (2, 1) => 0xde11,
        (2, 2) => 0xb4cc,
        (2, 3) => 0x887b,
        (3, 0) => 0x9946,
        (3, 1) => 0xc13c,
        (3, 2) => 0x6299,
        (3, 3) => 0x3c83,
        (4, 0) => 0x549e,
        (4, 1) => 0xa1d3,
        (4, 2) => 0x792a,
        (4, 3) => 0xcb85,
        (5, 0) => 0x79cd,
        (5, 1) => 0x9ec6,
        (5, 2) => 0xef42,
        (5, 3) => 0xf84c,
        (6, 0) => 0x9e2e,
        (6, 1) => 0x9884,
        (6, 2) => 0x9742,
        (6, 3) => 0x7c10,
        (7, 0) => 0xc4f2,
        (7, 1) => 0xc61f,
        (7, 2) => 0x7742,
        (7, 3) => 0x7c31,
        _ => 0x7c31,
    }
}

/// Marker `id` in rotation `rot` has the bit pattern `bits`.
pub open spec fn code_matches(id: int, rot: int, bits: u16) -> bool {
    0 <= id < DICT_SIZE && 0 <= rot < 4 && rotations(id)[rot] == bits
}

/// The dictionary printed around the answer tables: marker `id` in rotation
/// `rot` has the bit pattern in row `id`, column `rot` of the 4x4 ArUco table
/// below, and no other.
pub proof fn lemma_printed_dictionary(id: int, rot: int, bits: u16)
    ensures
        code_matches(id, rot, bits) <==> (0 <= id < 8 && 0 <= rot < 4 && bits == seq![
            seq![0xb532u16, 0xeb48u16, 0x4cadu16, 0x12d7u16],
            seq![0x0f9au16, 0x6547u16, 0x59f0u16, 0xe2a6u16],
            seq![0x332du16, 0xde11u16, 0xb4ccu16, 0x887bu16],
            seq![0x9946u16, 0xc13cu16, 0x6299u16, 0x3c83u16],
            seq![0x549eu16, 0xa1d3u16, 0x792au16, 0xcb85u16],
            seq![0x79cdu16, 0x9ec6u16, 0xef42u16, 0xf84cu16],
            seq![0x9e2eu16, 0x9884u16, 0x9742u16, 0x7c10u16],
            seq![0xc4f2u16, 0xc61fu16, 0x7742u16, 0x7c31u16],
        ][id][rot]),
{
}

/// No bit pattern belongs to two markers or two rotations, so a pattern read
/// from a scan names at most one marker in one rotation.
pub proof fn lemma_codes_distinct(a: int, b: int, c: int, d: int, bits: u16)
    requires
        code_matches(a, b, bits),
        code_matches(c, d, bits),
    ensures
        a == c && b == d,
{
}

/// `(a, b)` comes before `(c, d)` in the order in which the dictionary is searched.
pub open spec fn searched_before(a: int, b: int, c: int, d: int) -> bool {
    a < c || (a == c && b < d)
}

/// Looks a sampled bit pattern up in the dictionary: the id and rotation of the
/// first marker (by id, then rotation) whose pattern it is, or `None`.
pub fn match_marker(sampled_bits: u16) -> (r: Option<(i32, usize)>)
    ensures
        match r {
            Some((id, rot)) => code_matches(id as int, rot as int, sampled_bits)
                && forall|i: int, k: int| #[trigger] code_matches(i, k, sampled_bits) ==> !searched_before(i, k, id as int, rot as int),
            None => forall|i: int, k: int| !#[trigger] code_matches(i, k, sampled_bits),
        },
{
    let mut id: usize = 0;
    while id < DICT_SIZE
        invariant
            0 <= id <= DICT_SIZE,
            forall|i: int, k: int| 0 <= i < id ==> !#[trigger] code_matches(i, k, sampled_bits),
        decreases DICT_SIZE - id,
    {
        let mut rot: usize = 0;
        while rot < 4
            invariant
                id < DICT_SIZE,
                0 <= rot <= 4,
                forall|i: int, k: int| 0 <= i < id ==> !#[trigger] code_matches(i, k, sampled_bits),
                forall|k: int| 0 <= k < rot ==> !#[trigger] code_matches(id as int, k, sampled_bits),
            decreases 4 - rot,
        {
            if rotation_code(id, rot) == sampled_bits {
                return Some((id as i32, rot));
            }
            rot = rot + 1;
        }
        id = id + 1;
    }
    None
}


/// The side, in pixels, of the square that a marker candidate is warped onto.
pub const TARGET_SIZE: u32 = 60;

/// The side of one cell of the marker's 6x6 grid.
pub const CELL_SIZE: u32 = 10;

/// The margin left inside each cell when sampling it.
pub const CELL_MARGIN: u32 = 2;

/// The sum of `k` pixels of column `x`, from row `y0` down.
pub open spec fn column_sum(img: Raster, x: int, y0: int, k: int) -> int
    decreases k,
{
    if k <= 0 { 0 } else { column_sum(img, x, y0, k - 1) + raster_at(img, x, y0 + k - 1) }
}

/// The sum of the pixels of the `k` by 6 block at `(x0, y0)`, column by column.
pub open spec fn block_sum(img: Raster, x0: int, y0: int, k: int) -> int
    decreases k,
{
    if k <= 0 { 0 } else { block_sum(img, x0, y0, k - 1) + column_sum(img, x0 + k - 1, y0, 6) }
}

/// Bit `c` (0 to 15, row by row) of the marker's inner 4x4 grid: the 6x6
/// pixels inside the cell's margin, summed and divided by 64, exceed 128.
pub open spec fn cell_bit(img: Raster, c: int) -> bool {
    let row = c / 4 + 1;
    let col = c % 4 + 1;
    block_sum(img, col * 10 + 2, row * 10 + 2, 6) > 8192
}

/// The first `k` bits of the grid, the first bit most significant.
pub open spec fn code_prefix(img: Raster, k: int) -> int
    decreases k,
{
    if k <= 0 { 0 } else { code_prefix(img, k - 1) * 2 + if cell_bit(img, k - 1) { 1int } else { 0int } }
}

/// `2^k`.
pub open spec fn two_pow(k: int) -> int
    decreases k,
{
    if k <= 0 { 1 } else { 2 * two_pow(k - 1) }
}

proof fn lemma_code_prefix_bound(img: Raster, k: int)
    requires
        0 <= k,
    ensures
        0 <= code_prefix(img, k) < two_pow(k),
    decreases k,
{
    if k > 0 {
        lemma_code_prefix_bound(img, k - 1);
    }
}

proof fn lemma_two_pow_monotone(a: int, b: int)
    requires
        0 <= a <= b,
    ensures
        1 <= two_pow(a) <= two_pow(b),
    decreases b,
{
    if b > a {
        lemma_two_pow_monotone(a, b - 1);
    } else if a > 0 {
        lemma_two_pow_monotone(0, a - 1);
    }
}

proof fn lemma_column_sum_bound(img: Raster, x: int, y0: int, k: int)
    requires
        0 <= k,
    ensures
        0 <= column_sum(img, x, y0, k) <= 255 * k,
    decreases k,
{
    if k > 0 {
        lemma_column_sum_bound(img, x, y0, k - 1);
    }
}

proof fn lemma_block_sum_bound(img: Raster, x0: int, y0: int, k: int)
    requires
        0 <= k,
    ensures
        0 <= block_sum(img, x0, y0, k) <= 1530 * k,
    decreases k,
{
    if k > 0 {
        lemma_block_sum_bound(img, x0, y0, k - 1);
        lemma_column_sum_bound(img, x0 + k - 1, y0, 6);
    }
}

/// The sum of the 6x6 pixels at `(x0, y0)`.
fn sample_block(img: &GrayGrid, x0: u32, y0: u32) -> (s: u32)
    requires
        img.wf(),
        x0 + 6 <= img.width,
        y0 + 6 <= img.height,
    ensures
        s == block_sum(img@, x0 as int, y0 as int, 6),
{
    let mut total: u32 = 0;
    let mut i: u32 = 0;
    while i < 6
        invariant
            img.wf(),
            x0 + 6 <= img.width,
            y0 + 6 <= img.height,
            0 <= i <= 6,
            total == block_sum(img@, x0 as int, y0 as int, i as int),
        decreases 6 - i,
    {
        proof {
            lemma_block_sum_bound(img@, x0 as int, y0 as int, i as int);
        }
        let mut column: u32 = 0;
        let mut j: u32 = 0;
        while j < 6
            invariant
                img.wf(),
                x0 + 6 <= img.width,
                y0 + 6 <= img.height,
                i < 6,
                0 <= j <= 6,
                column == column_sum(img@, (x0 + i) as int, y0 as int, j as int),
            decreases 6 - j,
        {
            proof {
                lemma_column_sum_bound(img@, (x0 + i) as int, y0 as int, j as int);
            }
            column = column + img.get(x0 + i, y0 + j) as u32;
            j = j + 1;
        }
        proof {
            lemma_column_sum_bound(img@, (x0 + i) as int, y0 as int, 6);
            lemma_block_sum_bound(img@, x0 as int, y0 as int, i + 1);
        }
        total = total + column;
        i = i + 1;
    }
    total
}

/// Reads the 16-bit pattern of a marker warped onto a 60x60 square: each cell
/// of the inner 4x4 of its 6x6 grid, row by row, gives one bit, the first the
/// most significant; a cell's bit is set when the 6x6 pixels inside its margin,
/// summed and divided by 64, exceed 128.
pub fn code_from_warped(warped: &GrayGrid) -> (code: u16)
    requires
        warped.wf(),
        warped.width == TARGET_SIZE,
        warped.height == TARGET_SIZE,
    ensures
        code == code_prefix(warped@, 16),
{
    let mut code: u32 = 0;
    let mut c: u32 = 0;
    while c < 16
        invariant
            warped.wf(),
            warped.width == TARGET_SIZE,
            warped.height == TARGET_SIZE,
            0 <= c <= 16,
            code == code_prefix(warped@, c as int),
        decreases 16 - c,
    {
        proof {
            lemma_code_prefix_bound(warped@, c as int);
            lemma_two_pow_monotone(c + 1, 16);
            reveal_with_fuel(two_pow, 17);
        }
        let row = c / 4 + 1;
        let col = c % 4 + 1;
        let x1 = col * CELL_SIZE;
        let y1 = row * CELL_SIZE;
        let sum = sample_block(warped, x1 + CELL_MARGIN, y1 + CELL_MARGIN);
        let bit: u32 = if sum > 8192 { 1 } else { 0 };
        code = code * 2 + bit;
        c = c + 1;
    }
    proof {
        lemma_code_prefix_bound(warped@, 16);
        reveal_with_fuel(two_pow, 17);
    }
    code as u16
}

} // verus!
