//! Reading the answer cells of a choices table: the cell grid of a table image,
//! the ink in each part of a cell, and the letters of the marked options.

use vstd::prelude::*;
use crate::imaging::{GrayGrid, RgbaGrid, RgbaRaster, rgba_wf, rgba_red, to_luma, otsu_level, threshold, luma8_of, otsu_level_of, binarized, Raster};
use crate::cells::{Cell, MAX_SIDE, try_detect_cells, cells_detectable, grid_view, table_grid, cells_inside};
use crate::text::{push_char, option_letter, letter_fits, letter_for};

verus! {

/// The binarised luma raster of a colour table image.
pub open spec fn binarized_table(img: RgbaRaster) -> Raster {
    let luma = (img.0, img.1, luma8_of(img.0, img.1, img.2));
    binarized(luma, otsu_level_of(img.0, img.1, luma8_of(img.0, img.1, img.2)))
}

/// The table image fits the cell detection: one pixel per four bytes, at most
/// `MAX_SIDE` pixels a side, and few enough pixels for Otsu's threshold to be
/// computed in `u32`.
pub open spec fn table_image_ok(img: RgbaRaster) -> bool {
    &&& rgba_wf(img)
    &&& img.0 <= MAX_SIDE
    &&& img.1 <= MAX_SIDE
    &&& 255 * img.0 * img.1 <= u32::MAX
}

/// The cells of a table image: its luma plane is binarised at Otsu's threshold
/// and the cell grid is detected on the result; `None` where the bounds found
/// cannot be regularised.
pub fn table_cells(img: &RgbaGrid) -> (r: Option<Vec<Vec<Cell>>>)
    requires
        table_image_ok(img@),
    ensures
        match r {
            Some(columns) => cells_detectable(binarized_table(img@)) && grid_view(columns@) == table_grid(binarized_table(img@))
                && cells_inside(grid_view(columns@), img.width as int, img.height as int),
            None => !cells_detectable(binarized_table(img@)),
        },
{
    let thr = binarize_otsu(img);
    try_detect_cells(&thr)
}

/// The binarised luma plane of a colour image: its luma plane with every pixel
/// above Otsu's threshold set to 255 and every other pixel to 0.
pub fn binarize_otsu(img: &RgbaGrid) -> (out: GrayGrid)
    requires
        rgba_wf(img@),
        255 * img.width * img.height <= u32::MAX,
    ensures
        out@ == binarized_table(img@),
        out.wf(),
{
    let gray = to_luma(img);
    let level = otsu_level(&gray);
    threshold(&gray, level)
}

/// The ink `255 - red` summed over `k` pixels of column `x`, from row `y0` down.
pub open spec fn ink_column(img: RgbaRaster, x: int, y0: int, k: int) -> int
    decreases k,
{
    if k <= 0 { 0 } else { ink_column(img, x, y0, k - 1) + (255 - rgba_red(img, x, y0 + k - 1)) }
}

/// The ink summed over the `kx` by `ky` block at `(x0, y0)`, column by column.
pub open spec fn ink_block(img: RgbaRaster, x0: int, y0: int, kx: int, ky: int) -> int
    decreases kx,
{
    if kx <= 0 { 0 } else { ink_block(img, x0, y0, kx - 1, ky) + ink_column(img, x0 + kx - 1, y0, ky) }
}

/// The margins of a cell: a tenth of its width and height.
pub open spec fn margins(cell: Cell) -> (int, int) {
    ((cell.1 - cell.0) / 10, (cell.3 - cell.2) / 10)
}

/// The size of each of the 3x3 parts inside a cell's margins.
pub open spec fn part_size(cell: Cell) -> (int, int) {
    let (mw, mh) = margins(cell);
    ((cell.1 - cell.0 - 2 * mw) / 3, (cell.3 - cell.2 - 2 * mh) / 3)
}

/// The top-left corner of part `(gx, gy)` of a cell.
pub open spec fn part_origin(cell: Cell, gx: int, gy: int) -> (int, int) {
    let (mw, mh) = margins(cell);
    let (sw, sh) = part_size(cell);
    (gx * sw + mw + cell.0, gy * sh + mh + cell.2)
}

/// The ink in part `r` of a cell, parts numbered `gx * 3 + gy`.
pub open spec fn part_ink(img: RgbaRaster, cell: Cell, r: int) -> int {
    let (sw, sh) = part_size(cell);
    let (x0, y0) = part_origin(cell, r / 3, r % 3);
    ink_block(img, x0, y0, sw, sh)
}

/// The number of pixels in each part of a cell.
pub open spec fn part_pixels(cell: Cell) -> int {
    part_size(cell).0 * part_size(cell).1
}

/// The cell lies inside the image and is not inverted.
pub open spec fn cell_in_image(img: RgbaRaster, cell: Cell) -> bool {
    cell.0 <= cell.1 <= img.0 && cell.2 <= cell.3 <= img.1
}

proof fn lemma_ink_column_bound(img: RgbaRaster, x: int, y0: int, k: int)
    requires
        0 <= k,
    ensures
        0 <= ink_column(img, x, y0, k) <= 255 * k,
    decreases k,
{
    if k > 0 {
        lemma_ink_column_bound(img, x, y0, k - 1);
    }
}

proof fn lemma_ink_block_bound(img: RgbaRaster, x0: int, y0: int, kx: int, ky: int)
    requires
        0 <= kx,
        0 <= ky,
    ensures
        0 <= ink_block(img, x0, y0, kx, ky) <= 255 * ky * kx,
    decreases kx,
{
    if kx > 0 {
        lemma_ink_block_bound(img, x0, y0, kx - 1, ky);
        lemma_ink_column_bound(img, x0 + kx - 1, y0, ky);
        assert(255 * ky * (kx - 1) + 255 * ky == 255 * ky * kx) by (nonlinear_arith);
    }
}

proof fn lemma_part_inside(cell: Cell, gx: int, gy: int)
    requires
        cell.0 <= cell.1,
        cell.2 <= cell.3,
        0 <= gx < 3,
        0 <= gy < 3,
    ensures
        part_size(cell).0 >= 0,
        part_size(cell).1 >= 0,
        cell.0 <= part_origin(cell, gx, gy).0,
        part_origin(cell, gx, gy).0 + part_size(cell).0 <= cell.1,
        cell.2 <= part_origin(cell, gx, gy).1,
        part_origin(cell, gx, gy).1 + part_size(cell).1 <= cell.3,
{
    let w = cell.1 - cell.0;
    let h = cell.3 - cell.2;
    let (mw, mh) = margins(cell);
    let (sw, sh) = part_size(cell);
    assert(0 <= mw && 2 * mw <= w && 0 <= sw && 3 * sw <= w - 2 * mw) by (nonlinear_arith)
        requires
            w >= 0,
            mw == w / 10,
            sw == (w - 2 * mw) / 3,
    ;
    assert(0 <= mh && 2 * mh <= h && 0 <= sh && 3 * sh <= h - 2 * mh) by (nonlinear_arith)
        requires
            h >= 0,
            mh == h / 10,
            sh == (h - 2 * mh) / 3,
    ;
    assert(0 <= gx * sw && gx * sw + sw <= 3 * sw) by (nonlinear_arith)
        requires
            0 <= gx < 3,
            0 <= sw,
    ;
    assert(0 <= gy * sh && gy * sh + sh <= 3 * sh) by (nonlinear_arith)
        requires
            0 <= gy < 3,
            0 <= sh,
    ;
}

/// The ink in a block of the image.
fn ink_in_block(img: &RgbaGrid, x0: u32, y0: u32, kx: u32, ky: u32) -> (s: u128)
    requires
        rgba_wf(img@),
        x0 + kx <= img.width,
        y0 + ky <= img.height,
    ensures
        s == ink_block(img@, x0 as int, y0 as int, kx as int, ky as int),
{
    proof {
        lemma_ink_block_bound(img@, x0 as int, y0 as int, kx as int, ky as int);
        assert(255 * ky * kx <= 255 * 4294967295 * 4294967295) by (nonlinear_arith)
            requires
                kx <= 4294967295,
                ky <= 4294967295,
        ;
    }
    let mut total: u128 = 0;
    let mut i: u32 = 0;
    while i < kx
        invariant
            rgba_wf(img@),
            x0 + kx <= img.width,
            y0 + ky <= img.height,
            255 * ky * kx <= 255 * 4294967295 * 4294967295,
            0 <= i <= kx,
            total == ink_block(img@, x0 as int, y0 as int, i as int, ky as int),
        decreases kx - i,
    {
        proof {
            lemma_ink_block_bound(img@, x0 as int, y0 as int, (i + 1) as int, ky as int);
            assert(255 * ky * (i + 1) <= 255 * ky * kx) by (nonlinear_arith)
                requires
                    i + 1 <= kx,
            ;
        }
        let mut column: u128 = 0;
        let mut j: u32 = 0;
        while j < ky
            invariant
                rgba_wf(img@),
                x0 + kx <= img.width,
                y0 + ky <= img.height,
                i < kx,
                255 * ky * kx <= 255 * 4294967295 * 4294967295,
                0 <= j <= ky,
                column == ink_column(img@, (x0 + i) as int, y0 as int, j as int),
            decreases ky - j,
        {
            proof {
                lemma_ink_column_bound(img@, (x0 + i) as int, y0 as int, (j + 1) as int);
                assert(255 * (j + 1) <= 255 * ky * kx) by (nonlinear_arith)
                    requires
                        j + 1 <= ky,
                        1 <= kx,
                ;
            }
            column = column + (255 - img.red(x0 + i, y0 + j)) as u128;
            j = j + 1;
        }
        proof {
            lemma_ink_column_bound(img@, (x0 + i) as int, y0 as int, ky as int);
        }
        total = total + column;
        i = i + 1;
    }
    total
}

/// The ink (`255 - red`, summed) in each of the 3x3 parts inside a cell's
/// margins of a tenth of its size, parts numbered `gx * 3 + gy`, and the number
/// of pixels in each part.
pub fn region_masses(img: &RgbaGrid, cell: Cell) -> (r: (Vec<u128>, u64))
    requires
        rgba_wf(img@),
        cell_in_image(img@, cell),
    ensures
        r.0@.len() == 9,
        forall|k: int| 0 <= k < 9 ==> #[trigger] r.0@[k] == part_ink(img@, cell, k),
        r.1 == part_pixels(cell),
{
    let (min_x, max_x, min_y, max_y) = cell;
    let margin_width = (max_x - min_x) / 10;
    let margin_height = (max_y - min_y) / 10;
    let sub_step_w = (max_x - min_x - 2 * margin_width) / 3;
    let sub_step_h = (max_y - min_y - 2 * margin_height) / 3;
    let mut masses: Vec<u128> = Vec::new();
    let mut g_x: u32 = 0;
    while g_x < 3
        invariant
            rgba_wf(img@),
            cell_in_image(img@, cell),
            cell == (min_x, max_x, min_y, max_y),
            margin_width == margins(cell).0,
            margin_height == margins(cell).1,
            sub_step_w == part_size(cell).0,
            sub_step_h == part_size(cell).1,
            0 <= g_x <= 3,
            masses@.len() == 3 * g_x,
            forall|k: int| 0 <= k < 3 * g_x ==> #[trigger] masses@[k] == part_ink(img@, cell, k),
        decreases 3 - g_x,
    {
        let mut g_y: u32 = 0;
        while g_y < 3
            invariant
                rgba_wf(img@),
                cell_in_image(img@, cell),
                cell == (min_x, max_x, min_y, max_y),
                margin_width == margins(cell).0,
                margin_height == margins(cell).1,
                sub_step_w == part_size(cell).0,
                sub_step_h == part_size(cell).1,
                g_x < 3,
                0 <= g_y <= 3,
                masses@.len() == 3 * g_x + g_y,
                forall|k: int| 0 <= k < 3 * g_x + g_y ==> #[trigger] masses@[k] == part_ink(img@, cell, k),
            decreases 3 - g_y,
        {
            proof {
                lemma_part_inside(cell, g_x as int, g_y as int);
                assert((3 * g_x + g_y) / 3 == g_x && (3 * g_x + g_y) % 3 == g_y);
            }
            let x0 = g_x * sub_step_w + margin_width + min_x;
            let y0 = g_y * sub_step_h + margin_height + min_y;
            let mass = ink_in_block(img, x0, y0, sub_step_w, sub_step_h);
            masses.push(mass);
            g_y = g_y + 1;
        }
        g_x = g_x + 1;
    }
    proof {
        lemma_part_inside(cell, 0, 0);
        assert(part_size(cell).0 * part_size(cell).1 <= 4294967295 * 4294967295) by (nonlinear_arith)
            requires
                0 <= part_size(cell).0 <= 4294967295,
                0 <= part_size(cell).1 <= 4294967295,
        ;
    }
    (masses, sub_step_w as u64 * sub_step_h as u64)
}

/// The letters of the marked options among the first `k`, in order.
pub open spec fn marked_letters(selected: Seq<bool>, k: int) -> Seq<char>
    decreases k,
{
    if k <= 0 {
        Seq::empty()
    } else if selected[k - 1] {
        marked_letters(selected, k - 1).push(option_letter(k - 1))
    } else {
        marked_letters(selected, k - 1)
    }
}

/// The letters of the options that were found marked ("A" for the first
/// option, and so on), in order.
pub fn selected_options(selected: &Vec<bool>) -> (s: String)
    requires
        forall|i: int| 0 <= i < selected@.len() && #[trigger] selected@[i] ==> letter_fits(i),
    ensures
        s@ == marked_letters(selected@, selected@.len() as int),
{
    let mut s = String::new();
    let mut i: usize = 0;
    while i < selected.len()
        invariant
            forall|k: int| 0 <= k < selected@.len() && #[trigger] selected@[k] ==> letter_fits(k),
            0 <= i <= selected@.len(),
            s@ == marked_letters(selected@, i as int),
        decreases selected@.len() - i,
    {
        if selected[i] {
            push_char(&mut s, letter_for(i));
        }
        i = i + 1;
    }
    s
}

} // verus!
