use vstd::prelude::*;

use crate::canvas::{pixel, Canvas, RenderError};
use crate::text::{char_from_u32, push_char};

verus! {

/// `weight` when the dot is raised, else nothing.
pub open spec fn dot_bit(raised: bool, weight: int) -> int {
    if raised {
        weight
    } else {
        0
    }
}

/// The Braille pattern of eight dots, given column by column as in the Unicode
/// block: dots 1, 2, 3 and 7 down the left column, 4, 5, 6 and 8 down the right.
pub open spec fn dots_code(
    l0: bool,
    l1: bool,
    l2: bool,
    l3: bool,
    r0: bool,
    r1: bool,
    r2: bool,
    r3: bool,
) -> int {
    dot_bit(l0, 0x01) + dot_bit(l1, 0x02) + dot_bit(l2, 0x04) + dot_bit(l3, 0x40) + dot_bit(
        r0,
        0x08,
    ) + dot_bit(r1, 0x10) + dot_bit(r2, 0x20) + dot_bit(r3, 0x80)
}

/// The Braille character with pattern `code`.
pub open spec fn glyph(code: int) -> char {
    (0x2800 + code) as char
}

/// A sample darker than mid-grey raises its dot.
pub open spec fn is_dark(s: Seq<u8>, width: int, x: int, y: int) -> bool {
    pixel(s, width, x, y) < 128
}

/// The pattern of the 2 by 4 block of samples whose top-left corner is `(2 * cx, 4 * cy)`.
pub open spec fn cell_code(s: Seq<u8>, width: int, cx: int, cy: int) -> int {
    let x = 2 * cx;
    let y = 4 * cy;
    dots_code(
        is_dark(s, width, x, y),
        is_dark(s, width, x, y + 1),
        is_dark(s, width, x, y + 2),
        is_dark(s, width, x, y + 3),
        is_dark(s, width, x + 1, y),
        is_dark(s, width, x + 1, y + 1),
        is_dark(s, width, x + 1, y + 2),
        is_dark(s, width, x + 1, y + 3),
    )
}

/// The glyphs of the first `n` cells of cell row `cy`.
pub open spec fn glyph_row(s: Seq<u8>, width: int, cy: int, n: nat) -> Seq<char>
    decreases n,
{
    if n == 0 {
        Seq::empty()
    } else {
        glyph_row(s, width, cy, (n - 1) as nat).push(glyph(cell_code(s, width, n - 1, cy)))
    }
}

/// The first `rows` cell rows of `cols` glyphs each, every row ended by a line break.
pub open spec fn glyph_grid(s: Seq<u8>, width: int, cols: nat, rows: nat) -> Seq<char>
    decreases rows,
{
    if rows == 0 {
        Seq::empty()
    } else {
        glyph_grid(s, width, cols, (rows - 1) as nat) + glyph_row(
            s,
            width,
            rows - 1,
            cols,
        ).push('\n')
    }
}

/// The Braille character whose eight dots are the bits of `code`.
pub fn braille_char(code: u8) -> (c: char)
    ensures
        c == glyph(code as int),
{
    match char_from_u32(0x2800 + code as u32) {
        Some(c) => c,
        None => ' ',
    }
}

/// Packs each 2 by 4 block of `img` into one Braille character, `cols` blocks per
/// row and `rows` rows, each row followed by a line break.
pub fn generate_braille(img: &Canvas, cols: u32, rows: u32) -> (r: String)
    requires
        img.wf(),
        2 * cols <= img.width,
        4 * rows <= img.height,
    ensures
        r@ == glyph_grid(img.samples@, img.width as int, cols as nat, rows as nat),
{
    let ghost s = img.samples@;
    let ghost w = img.width as int;
    let mut out = String::new();
    let mut cy: u32 = 0;
    while cy < rows
        invariant
            img.wf(),
            s == img.samples@,
            w == img.width,
            2 * cols <= img.width,
            4 * rows <= img.height,
            cy <= rows,
            out@ == glyph_grid(s, w, cols as nat, cy as nat),
        decreases rows - cy,
    {
        let ghost start = out@;
        let y = cy * 4;
        let mut cx: u32 = 0;
        while cx < cols
            invariant
                img.wf(),
                s == img.samples@,
                w == img.width,
                2 * cols <= img.width,
                4 * rows <= img.height,
                cy < rows,
                y == 4 * cy,
                cx <= cols,
                start == glyph_grid(s, w, cols as nat, cy as nat),
                out@ == start + glyph_row(s, w, cy as int, cx as nat),
            decreases cols - cx,
        {
            let x = cx * 2;
            let mut code: u8 = 0;
            if img.get(x, y) < 128 {
                code = code + 0x01;
            }
            if img.get(x, y + 1) < 128 {
                code = code + 0x02;
            }
            if img.get(x, y + 2) < 128 {
                code = code + 0x04;
            }
            if img.get(x, y + 3) < 128 {
                code = code + 0x40;
            }
            if img.get(x + 1, y) < 128 {
                code = code + 0x08;
            }
            if img.get(x + 1, y + 1) < 128 {
                code = code + 0x10;
            }
            if img.get(x + 1, y + 2) < 128 {
                code = code + 0x20;
            }
            if img.get(x + 1, y + 3) < 128 {
                code = code + 0x80;
            }
            assert(code == cell_code(s, w, cx as int, cy as int));
            push_char(&mut out, braille_char(code));
            cx += 1;
            assert(out@ =~= start + glyph_row(s, w, cy as int, cx as nat));
        }
        push_char(&mut out, '\n');
        cy += 1;
        assert(out@ =~= glyph_grid(s, w, cols as nat, cy as nat));
    }
    out
}

/// `a / b` rounded to the nearest integer, halves upwards, for positive `b`.
pub open spec fn round_div(a: int, b: int) -> int {
    (2 * a + b) / (2 * b)
}

/// `v`, or `u32::MAX` when it does not fit.
pub open spec fn saturate_u32(v: int) -> u32 {
    if v > u32::MAX {
        u32::MAX
    } else {
        v as u32
    }
}

/// The grid size that keeps the aspect of a `w` by `h` source. A cell covers two
/// samples across and four down, so a cell row is as tall as two cell columns are
/// wide, and the grid keeps `cols / rows == 2 * w / h`. A missing side (0) is
/// derived from the other through that ratio and rounded, halves upwards; with
/// neither given the grid is 60 rows high. Sides given both are kept, and a derived
/// side that overflows `u32` saturates.
pub open spec fn grid_size(w: int, h: int, cols: int, rows: int) -> (u32, u32) {
    let rows = if cols == 0 && rows == 0 {
        60
    } else {
        rows
    };
    if cols == 0 {
        (saturate_u32(round_div(2 * rows * w, h)), rows as u32)
    } else if rows == 0 {
        (cols as u32, saturate_u32(round_div(cols * h, 2 * w)))
    } else {
        (cols as u32, rows as u32)
    }
}

/// Resolves a requested grid of `cols` by `rows` cells (0 for "derive it") for a
/// source `w` samples wide and `h` high. A source without area is refused.
pub fn convert_size(w: u32, h: u32, cols: u32, rows: u32) -> (r: Result<(u32, u32), RenderError>)
    ensures
        w == 0 || h == 0 ==> r == Err::<(u32, u32), RenderError>(RenderError::DegenerateInput),
        w > 0 && h > 0 ==> r == Ok::<(u32, u32), RenderError>(
            grid_size(w as int, h as int, cols as int, rows as int),
        ),
{
    if w == 0 || h == 0 {
        return Err(RenderError::DegenerateInput);
    }
    let rows = if cols == 0 && rows == 0 {
        60
    } else {
        rows
    };
    if cols == 0 {
        let (rw, ww) = (rows as u128, w as u128);
        assert(2 * rw * ww <= 2 * 0xffff_ffffu128 * 0xffff_ffffu128) by (nonlinear_arith)
            requires
                rw <= 0xffff_ffffu128,
                ww <= 0xffff_ffffu128,
        ;
        let a: u128 = 2 * rw * ww;
        let q: u128 = (2 * a + h as u128) / (2 * h as u128);
        let c = if q > u32::MAX as u128 {
            u32::MAX
        } else {
            q as u32
        };
        Ok((c, rows))
    } else if rows == 0 {
        let (cw, hw) = (cols as u128, h as u128);
        assert(cw * hw <= 0xffff_ffffu128 * 0xffff_ffffu128) by (nonlinear_arith)
            requires
                cw <= 0xffff_ffffu128,
                hw <= 0xffff_ffffu128,
        ;
        let a: u128 = cw * hw;
        let q: u128 = (2 * a + 2 * w as u128) / (4 * w as u128);
        let rr = if q > u32::MAX as u128 {
            u32::MAX
        } else {
            q as u32
        };
        Ok((cols, rr))
    } else {
        Ok((cols, rows))
    }
}

/// A pattern of eight dots is a byte.
proof fn lemma_code_range(s: Seq<u8>, width: int, cx: int, cy: int)
    ensures
        0 <= cell_code(s, width, cx, cy) <= 255,
{
}

/// Every character of the text is a line break or lies in the Braille block
/// U+2800 to U+28FF.
pub proof fn lemma_glyph_range(s: Seq<u8>, width: int, cols: nat, rows: nat)
    ensures
        forall|i: int|
            0 <= i < glyph_grid(s, width, cols, rows).len() ==> #[trigger] glyph_grid(
                s,
                width,
                cols,
                rows,
            )[i] == '\n' || (0x2800 <= glyph_grid(s, width, cols, rows)[i] as u32 <= 0x28FF),
    decreases rows,
{
    if rows > 0 {
        lemma_glyph_range(s, width, cols, (rows - 1) as nat);
        lemma_row_range(s, width, rows - 1, cols);
        let g = glyph_grid(s, width, cols, (rows - 1) as nat);
        let t = glyph_row(s, width, rows - 1, cols).push('\n');
        assert(glyph_grid(s, width, cols, rows) == g + t);
        assert forall|i: int| 0 <= i < (g + t).len() implies #[trigger] (g + t)[i] == '\n' || (
        0x2800 <= (g + t)[i] as u32 <= 0x28FF) by {
            if i >= g.len() {
                let k = i - g.len();
                if k < t.len() - 1 {
                    assert(t[k] == glyph_row(s, width, rows - 1, cols)[k]);
                }
            }
        }
    }
}

proof fn lemma_row_range(s: Seq<u8>, width: int, cy: int, n: nat)
    ensures
        forall|i: int|
            0 <= i < glyph_row(s, width, cy, n).len() ==> 0x2800 <= #[trigger] glyph_row(
                s,
                width,
                cy,
                n,
            )[i] as u32 <= 0x28FF,
        glyph_row(s, width, cy, n).len() == n,
    decreases n,
{
    if n > 0 {
        lemma_row_range(s, width, cy, (n - 1) as nat);
        lemma_code_range(s, width, n - 1, cy);
        let code = cell_code(s, width, n - 1, cy);
        assert(glyph(code) as u32 == 0x2800 + code);
    }
}

/// A block of eight dark samples gives the full pattern U+28FF, a block of eight
/// light ones the blank pattern U+2800.
pub proof fn lemma_solid_cells(s: Seq<u8>, width: int, cx: int, cy: int)
    ensures
        (forall|dx: int, dy: int|
            0 <= dx < 2 && 0 <= dy < 4 ==> #[trigger] pixel(s, width, 2 * cx + dx, 4 * cy + dy)
                < 128) ==> glyph(cell_code(s, width, cx, cy)) == '\u{28FF}',
        (forall|dx: int, dy: int|
            0 <= dx < 2 && 0 <= dy < 4 ==> #[trigger] pixel(s, width, 2 * cx + dx, 4 * cy + dy)
                >= 128) ==> glyph(cell_code(s, width, cx, cy)) == '\u{2800}',
{
    let (x, y) = (2 * cx, 4 * cy);
    if forall|dx: int, dy: int|
        0 <= dx < 2 && 0 <= dy < 4 ==> #[trigger] pixel(s, width, 2 * cx + dx, 4 * cy + dy) < 128 {
        assert(pixel(s, width, x + 0, y + 0) < 128);
        assert(pixel(s, width, x + 0, y + 1) < 128);
        assert(pixel(s, width, x + 0, y + 2) < 128);
        assert(pixel(s, width, x + 0, y + 3) < 128);
        assert(pixel(s, width, x + 1, y + 0) < 128);
        assert(pixel(s, width, x + 1, y + 1) < 128);
        assert(pixel(s, width, x + 1, y + 2) < 128);
        assert(pixel(s, width, x + 1, y + 3) < 128);
        assert(cell_code(s, width, cx, cy) == 255);
    }
    if forall|dx: int, dy: int|
        0 <= dx < 2 && 0 <= dy < 4 ==> #[trigger] pixel(s, width, 2 * cx + dx, 4 * cy + dy) >= 128 {
        assert(pixel(s, width, x + 0, y + 0) >= 128);
        assert(pixel(s, width, x + 0, y + 1) >= 128);
        assert(pixel(s, width, x + 0, y + 2) >= 128);
        assert(pixel(s, width, x + 0, y + 3) >= 128);
        assert(pixel(s, width, x + 1, y + 0) >= 128);
        assert(pixel(s, width, x + 1, y + 1) >= 128);
        assert(pixel(s, width, x + 1, y + 2) >= 128);
        assert(pixel(s, width, x + 1, y + 3) >= 128);
        assert(cell_code(s, width, cx, cy) == 0);
    }
}

} // verus!
