//! ASCII-art rendering of gray images, and the layout of the capture
//! screen: header lines, then the label menu, then the image.

use vstd::prelude::*;
use crate::codec::{nearest_resize, resize_gray};
use crate::menu::Menu;
use crate::raster::{Layout, Raster};

verus! {

/// Width of an intensity bucket: 256 intensities over ten glyphs, rounded up.
pub const BUCKET: u8 = 26;

/// The glyph of intensity bucket `b`, from sparse to dense.
pub open spec fn ramp(b: int) -> char {
    seq![' ', '.', ':', ';', '!', '?', '+', '*', '@', '#'][b]
}

/// The glyph that stands for a gray intensity.
pub open spec fn glyph(gray: u8) -> char {
    ramp(gray as int / BUCKET as int)
}

/// The glyph that stands for a gray intensity.
pub fn gray2char(gray: u8) -> (c: char)
    ensures
        c == glyph(gray),
{
    let gap: u8 = 1 + u8::MAX / 10;
    assert(gap == BUCKET);
    let b = gray / gap;
    if b == 0 {
        ' '
    } else if b == 1 {
        '.'
    } else if b == 2 {
        ':'
    } else if b == 3 {
        ';'
    } else if b == 4 {
        '!'
    } else if b == 5 {
        '?'
    } else if b == 6 {
        '+'
    } else if b == 7 {
        '*'
    } else if b == 8 {
        '@'
    } else {
        '#'
    }
}

/// Target size of an `img_w` x `img_h` image in a `box_w` x `box_h` box:
/// the smaller box side binds, the other side follows the image's aspect.
pub open spec fn fit_box(img_w: int, img_h: int, box_w: int, box_h: int) -> (int, int) {
    if box_w < box_h {
        (box_w, box_h * img_h / img_w)
    } else {
        (box_w * img_w / img_h, box_h)
    }
}

/// The image side that `fit_box` divides by is not zero.
pub open spec fn fit_defined(img_w: int, img_h: int, box_w: int, box_h: int) -> bool {
    if box_w < box_h {
        img_w > 0
    } else {
        img_h > 0
    }
}

/// Target size of an `img_width` x `img_height` image in a terminal box of
/// `term_width` columns and `term_height` rows.
pub fn target_terminal_width_height(
    img_width: u32,
    img_height: u32,
    term_width: i32,
    term_height: i32,
) -> (r: (u32, u32))
    requires
        term_width >= 0,
        term_height >= 0,
        fit_defined(img_width as int, img_height as int, term_width as int, term_height as int),
        fit_box(img_width as int, img_height as int, term_width as int, term_height as int).0
            <= u32::MAX,
        fit_box(img_width as int, img_height as int, term_width as int, term_height as int).1
            <= u32::MAX,
    ensures
        r.0 == fit_box(img_width as int, img_height as int, term_width as int, term_height as int).0,
        r.1 == fit_box(img_width as int, img_height as int, term_width as int, term_height as int).1,
{
    let tw = term_width as u64;
    let th = term_height as u64;
    if tw < th {
        assert(th * (img_height as u64) <= 0x7fff_ffff * 0xffff_ffff) by (nonlinear_arith)
            requires
                th <= 0x7fff_ffff,
                img_height <= 0xffff_ffff,
        ;
        let h = th * (img_height as u64) / (img_width as u64);
        (tw as u32, h as u32)
    } else {
        assert(tw * (img_width as u64) <= 0x7fff_ffff * 0xffff_ffff) by (nonlinear_arith)
            requires
                tw <= 0x7fff_ffff,
                img_width <= 0xffff_ffff,
        ;
        let w = tw * (img_width as u64) / (img_height as u64);
        (w as u32, th as u32)
    }
}

/// A box side given as a signed count; negative counts as zero.
pub open spec fn clamp0(x: int) -> int {
    if x < 0 {
        0
    } else {
        x
    }
}

/// The image can be drawn in the box: the fit is defined, its sides fit in
/// `u32`, and the resampling buffers fit in memory.
pub open spec fn grid_fits(img: Raster, box_w: int, box_h: int) -> bool {
    let (tw, th) = fit_box(img.width as int, img.height as int, clamp0(box_w), clamp0(box_h));
    &&& fit_defined(img.width as int, img.height as int, clamp0(box_w), clamp0(box_h))
    &&& tw <= u32::MAX
    &&& th <= u32::MAX
    &&& 4 * tw * th <= usize::MAX
    &&& 4 * img.width * th <= usize::MAX
}

/// `g` is `img` resampled to fit the box, one glyph per pixel, row by row.
pub open spec fn is_glyph_grid(img: Raster, box_w: int, box_h: int, g: Seq<Vec<char>>) -> bool {
    let (tw, th) = fit_box(img.width as int, img.height as int, clamp0(box_w), clamp0(box_h));
    let px = nearest_resize(img.samples@, img.width as nat, img.height as nat, tw as nat, th as nat);
    &&& g.len() == th
    &&& forall|r: int| 0 <= r < th ==> (#[trigger] g[r])@.len() == tw
    &&& forall|r: int, c: int|
        0 <= r < th && 0 <= c < tw ==> #[trigger] g[r]@[c] == glyph(px[r * tw + c])
}

/// The gray image `img` as rows of glyphs, resampled by nearest neighbour
/// to fit a box of `box_w` columns and `box_h` rows; `None` when it cannot
/// be drawn there.
pub fn glyph_grid(img: &Raster, box_w: i32, box_h: i32) -> (r: Option<Vec<Vec<char>>>)
    requires
        img.wf(),
        img.layout == Layout::Gray,
    ensures
        r is Some <==> grid_fits(*img, box_w as int, box_h as int),
        r matches Some(g) ==> is_glyph_grid(*img, box_w as int, box_h as int, g@),
{
    let bw: i32 = if box_w < 0 { 0 } else { box_w };
    let bh: i32 = if box_h < 0 { 0 } else { box_h };
    let ghost fit = fit_box(img.width as int, img.height as int, bw as int, bh as int);
    if bw < bh {
        if img.width == 0 {
            return None;
        }
    } else {
        if img.height == 0 {
            return None;
        }
    }
    assert((bw as int) * (img.width as int) <= 0x7fff_ffff * 0xffff_ffff) by (nonlinear_arith)
        requires
            0 <= bw <= 0x7fff_ffff,
            img.width <= 0xffff_ffff,
    ;
    assert((bh as int) * (img.height as int) <= 0x7fff_ffff * 0xffff_ffff) by (nonlinear_arith)
        requires
            0 <= bh <= 0x7fff_ffff,
            img.height <= 0xffff_ffff,
    ;
    let wide = (bw as u64) * (img.width as u64);
    let tall = (bh as u64) * (img.height as u64);
    let fits = if bw < bh {
        tall / (img.width as u64) <= 0xffff_ffff
    } else {
        wide / (img.height as u64) <= 0xffff_ffff
    };
    if !fits {
        return None;
    }
    let (tw, th) = target_terminal_width_height(img.width, img.height, bw, bh);
    assert(4 * (tw as int) * (th as int) <= 4 * 0xffff_ffff * 0xffff_ffff) by (nonlinear_arith)
        requires
            tw <= 0xffff_ffff,
            th <= 0xffff_ffff,
    ;
    assert(4 * (img.width as int) * (th as int) <= 4 * 0xffff_ffff * 0xffff_ffff) by (nonlinear_arith)
        requires
            img.width <= 0xffff_ffff,
            th <= 0xffff_ffff,
    ;
    let big = 4u128 * (tw as u128) * (th as u128);
    let big_src = 4u128 * (img.width as u128) * (th as u128);
    if big > usize::MAX as u128 || big_src > usize::MAX as u128 {
        return None;
    }
    let px = resize_gray(img, tw, th);
    let plen = px.len();
    let mut g: Vec<Vec<char>> = Vec::new();
    let mut r: u32 = 0;
    while r < th
        invariant
            r <= th,
            px@.len() == tw * th,
            plen == px@.len(),
            g@.len() == r,
            forall|a: int| 0 <= a < r ==> (#[trigger] g@[a])@.len() == tw,
            forall|a: int, c: int|
                0 <= a < r && 0 <= c < tw ==> #[trigger] g@[a]@[c] == glyph(px@[a * tw + c]),
        decreases th - r,
    {
        let mut row: Vec<char> = Vec::new();
        let mut c: u32 = 0;
        while c < tw
            invariant
                r < th,
                c <= tw,
                px@.len() == tw * th,
                plen == px@.len(),
                row@.len() == c,
                forall|k: int| 0 <= k < c ==> #[trigger] row@[k] == glyph(px@[r * tw + k]),
            decreases tw - c,
        {
            assert((r as int) * (tw as int) + (c as int) < (tw as int) * (th as int)) by (nonlinear_arith)
                requires
                    r < th,
                    c < tw,
            ;
            let idx = (r as usize) * (tw as usize) + (c as usize);
            row.push(gray2char(px[idx]));
            c = c + 1;
        }
        g.push(row);
        r = r + 1;
    }
    Some(g)
}

/// What the capture screen shows: header lines from the top row, then the
/// labels with one selected, then the image glyphs from row `image_top`,
/// all of them in inverse video when `flash` is set.
pub struct Screen {
    pub header: Vec<String>,
    pub labels: Vec<String>,
    pub selected: usize,
    pub image_top: usize,
    pub glyphs: Vec<Vec<char>>,
    pub flash: bool,
}

/// Rows left for the image in a terminal of `rows` rows under `used` rows of
/// text, as a signed count.
pub open spec fn image_rows(rows: int, used: int) -> int {
    rows - used
}

impl Menu {
    /// Lays out the capture screen for a terminal of `term_rows` rows and
    /// `term_cols` columns: the `header` lines, this menu's labels with the
    /// current one selected, and the gray image `img` fitted into the rows
    /// left below them; `flash` marks a photo just taken. `None` when the
    /// image cannot be drawn in that box, or the text rows outnumber `usize`.
    pub fn layout_screen(
        &self,
        header: Vec<String>,
        img: &Raster,
        flash: bool,
        term_rows: i32,
        term_cols: i32,
    ) -> (r: Option<Screen>)
        requires
            img.wf(),
            img.layout == Layout::Gray,
        ensures
            r is Some <==> grid_fits(
                *img,
                term_cols as int,
                image_rows(term_rows as int, (header@.len() + self.choice_seq().len()) as int),
            ) && header@.len() + self.choice_seq().len() <= usize::MAX,
            r matches Some(s) ==> {
                &&& s.header@ == header@
                &&& s.labels@.map_values(|x: String| x@) == self.choice_seq()
                &&& s.selected == self.index()
                &&& s.image_top == header@.len() + self.choice_seq().len()
                &&& s.flash == flash
                &&& is_glyph_grid(
                    *img,
                    term_cols as int,
                    image_rows(term_rows as int, (header@.len() + self.choice_seq().len()) as int),
                    s.glyphs@,
                )
            },
    {
        let labels = self.labels();
        let n = labels.len();
        let used = header.len() as u128 + n as u128;
        let usable: i32 = if (term_rows as i128) < used as i128 {
            0
        } else {
            (term_rows as i128 - used as i128) as i32
        };
        let ghost want = image_rows(term_rows as int, (header@.len() + self.choice_seq().len()) as int);
        assert(clamp0(usable as int) == clamp0(want));
        let rows_used = header.len() as u128 + n as u128;
        match glyph_grid(img, term_cols, usable) {
            Some(glyphs) => {
                if rows_used > usize::MAX as u128 {
                    return None;
                }
                let image_top = header.len() + n;
                Some(
                    Screen {
                        header,
                        labels,
                        selected: self.choice_index(),
                        image_top,
                        glyphs,
                        flash,
                    },
                )
            },
            None => None,
        }
    }
}

} // verus!
