use vstd::prelude::*;

use crate::color::Color;

verus! {

/// Depth stored where nothing has been drawn yet.
pub const EMPTY_DEPTH: i64 = -9223372036854775808;

/// Mathematical model of a framebuffer.
///
/// Pixels are stored top row first: the pixel at image coordinates `(x, y)`,
/// with `y` growing upwards, lives in slot `(height - 1 - y) * width + x`.
pub struct Frame {
    pub width: nat,
    pub height: nat,
    pub colors: Seq<Color>,
    pub depths: Seq<i64>,
}

pub open spec fn frame_ok(f: Frame) -> bool {
    &&& f.colors.len() == f.width * f.height
    &&& f.depths.len() == f.width * f.height
}

pub open spec fn in_frame(f: Frame, x: int, y: int) -> bool {
    0 <= x < f.width && 0 <= y < f.height
}

pub open spec fn slot(f: Frame, x: int, y: int) -> int {
    (f.height - 1 - y) * f.width + x
}

pub open spec fn color_at(f: Frame, x: int, y: int) -> Color {
    f.colors[slot(f, x, y)]
}

pub open spec fn depth_at(f: Frame, x: int, y: int) -> i64 {
    f.depths[slot(f, x, y)]
}

/// The frame after one depth-tested plot: an in-bounds pixel takes the color
/// and depth when `z` is at least the stored depth; otherwise nothing changes.
pub open spec fn plot_frame(f: Frame, x: int, y: int, z: i64, c: Color) -> Frame {
    if in_frame(f, x, y) && z >= depth_at(f, x, y) {
        Frame {
            colors: f.colors.update(slot(f, x, y), c),
            depths: f.depths.update(slot(f, x, y), z),
            ..f
        }
    } else {
        f
    }
}

/// A blank frame of the given size.
pub open spec fn blank_frame(width: nat, height: nat) -> Frame {
    Frame {
        width,
        height,
        colors: Seq::new(width * height, |i: int| Color { r: 0, g: 0, b: 0 }),
        depths: Seq::new(width * height, |i: int| EMPTY_DEPTH),
    }
}

pub proof fn lemma_slot_in_range(f: Frame, x: int, y: int)
    requires
        in_frame(f, x, y),
    ensures
        0 <= slot(f, x, y) < f.width * f.height,
{
    let w = f.width as int;
    let h = f.height as int;
    let r = h - 1 - y;
    assert(0 <= r < h);
    assert(0 <= r * w) by (nonlinear_arith)
        requires
            0 <= r,
            0 <= w,
    ;
    assert(r * w + x < h * w) by (nonlinear_arith)
        requires
            r + 1 <= h,
            0 <= x < w,
    ;
}

/// Decimal digits of `n`, most significant first, as ASCII bytes.
pub open spec fn dec(n: nat) -> Seq<u8>
    decreases n,
{
    if n < 10 {
        seq![(48 + n) as u8]
    } else {
        dec(n / 10) + seq![(48 + n % 10) as u8]
    }
}

/// One pixel of the text pixel map: the three channels separated by spaces,
/// then two spaces.
pub open spec fn cell_text(c: Color) -> Seq<u8> {
    dec(c.r as nat) + seq![32u8] + dec(c.g as nat) + seq![32u8] + dec(c.b as nat) + seq![32u8, 32u8]
}

/// `P3`, the width, the height and the largest channel value, one per line
/// (width and height share a line).
pub open spec fn ppm_header(width: nat, height: nat) -> Seq<u8> {
    seq![80u8, 51u8, 10u8] + dec(width) + seq![32u8] + dec(height) + seq![10u8, 50u8, 53u8, 53u8, 10u8]
}

/// The cells of storage row `r`, left to right.
pub open spec fn row_cells(f: Frame, r: int) -> Seq<Seq<u8>> {
    Seq::new(f.width, |c: int| cell_text(f.colors[r * f.width + c]))
}

/// Storage row `r` as a line of text.
pub open spec fn row_text(f: Frame, r: int) -> Seq<u8> {
    row_cells(f, r).flatten() + seq![10u8]
}

/// All rows, top row of the image first.
pub open spec fn ppm_rows(f: Frame) -> Seq<Seq<u8>> {
    Seq::new(f.height, |r: int| row_text(f, r))
}

/// The whole text pixel map of a frame.
pub open spec fn ppm_text(f: Frame) -> Seq<u8> {
    ppm_header(f.width, f.height) + ppm_rows(f).flatten()
}

/// Appends the decimal digits of `n`.
fn push_decimal(out: &mut Vec<u8>, n: u64)
    ensures
        final(out)@ == old(out)@ + dec(n as nat),
    decreases n,
{
    if n >= 10 {
        push_decimal(out, n / 10);
    }
    let digit: u8 = (n % 10) as u8;
    out.push(48 + digit);
    assert(final(out)@ =~= old(out)@ + dec(n as nat));
}

/// Two plots at one pixel: once either depth reaches the stored one, the
/// pixel ends with the color of the larger depth, the later one on a tie,
/// and the larger depth. A strictly smaller depth never overwrites.
pub proof fn lemma_depth_test_two_plots(f: Frame, x: int, y: int, z1: i64, c1: Color, z2: i64, c2: Color)
    requires
        frame_ok(f),
        in_frame(f, x, y),
        depth_at(f, x, y) <= z1 || depth_at(f, x, y) <= z2,
    ensures
        color_at(plot_frame(plot_frame(f, x, y, z1, c1), x, y, z2, c2), x, y) == (if z2 >= z1 {
            c2
        } else {
            c1
        }),
        depth_at(plot_frame(plot_frame(f, x, y, z1, c1), x, y, z2, c2), x, y) == (if z2 >= z1 {
            z2
        } else {
            z1
        }),
{
    lemma_slot_in_range(f, x, y);
}

/// The pixel map of a `width` x `height` frame is the header for `width`,
/// `height` and 255, followed by exactly `height` lines of exactly `width`
/// cells each; line `r` holds image row `height - 1 - r`, left to right.
pub proof fn lemma_ppm_shape(f: Frame)
    requires
        frame_ok(f),
    ensures
        ppm_text(f).subrange(0, ppm_header(f.width, f.height).len() as int) == ppm_header(
            f.width,
            f.height,
        ),
        ppm_rows(f).len() == f.height,
        forall|r: int|
            0 <= r < f.height ==> {
                &&& (#[trigger] ppm_rows(f)[r]) == row_cells(f, r).flatten() + seq![10u8]
                &&& row_cells(f, r).len() == f.width
                &&& forall|c: int|
                    0 <= c < f.width ==> #[trigger] row_cells(f, r)[c] == cell_text(
                        color_at(f, c, f.height - 1 - r),
                    )
            },
{
    assert(ppm_text(f).subrange(0, ppm_header(f.width, f.height).len() as int) =~= ppm_header(
        f.width,
        f.height,
    ));
}

/// A framebuffer: a grid of colors and a grid of depths of the same shape.
///
/// Depths are fixed-point numbers counting ten-thousandths of a unit.
pub struct Image {
    pub screen: Vec<Color>,
    pub z_buffer: Vec<i64>,
    pub width: usize,
    pub height: usize,
}

impl View for Image {
    type V = Frame;

    open spec fn view(&self) -> Frame {
        Frame {
            width: self.width as nat,
            height: self.height as nat,
            colors: self.screen@,
            depths: self.z_buffer@,
        }
    }
}

impl Image {
    pub open spec fn wf(&self) -> bool {
        frame_ok(self@)
    }

    /// A blank framebuffer: every pixel black, every depth empty.
    pub fn new(image_width: usize, image_height: usize) -> (img: Image)
        requires
            image_width * image_height <= usize::MAX,
        ensures
            img.wf(),
            img@ == blank_frame(image_width as nat, image_height as nat),
    {
        let n = image_width * image_height;
        let mut screen: Vec<Color> = Vec::new();
        let mut z_buffer: Vec<i64> = Vec::new();
        let mut i: usize = 0;
        while i < n
            invariant
                i <= n,
                screen@.len() == i,
                z_buffer@.len() == i,
                forall|j: int| 0 <= j < i ==> screen@[j] == (Color { r: 0, g: 0, b: 0 }),
                forall|j: int| 0 <= j < i ==> z_buffer@[j] == EMPTY_DEPTH,
            decreases n - i,
        {
            screen.push(Color::new());
            z_buffer.push(EMPTY_DEPTH);
            i = i + 1;
        }
        let img = Image { screen, z_buffer, width: image_width, height: image_height };
        assert(img@.colors =~= blank_frame(image_width as nat, image_height as nat).colors);
        assert(img@.depths =~= blank_frame(image_width as nat, image_height as nat).depths);
        img
    }

    /// Plots one pixel with a depth test.
    ///
    /// Returns `false`, changing nothing, when `(x, y)` lies outside the
    /// image. Otherwise returns `true`, and the pixel takes `color` and `z`
    /// when `z` is at least its stored depth: ties go to the later fragment.
    pub fn plot(&mut self, x: i64, y: i64, z: i64, color: &Color) -> (drawn: bool)
        requires
            old(self).wf(),
        ensures
            final(self).wf(),
            drawn == in_frame(old(self)@, x as int, y as int),
            final(self)@ == plot_frame(old(self)@, x as int, y as int, z, *color),
    {
        if x >= 0 && y >= 0 && (x as u64) < (self.width as u64) && (y as u64) < (self.height as u64) {
            proof {
                lemma_slot_in_range(self@, x as int, y as int);
            }
            let total = self.screen.len();
            let row = self.height - 1 - y as usize;
            assert(row * self.width + x == slot(self@, x as int, y as int));
            let idx = row * self.width + x as usize;
            if z >= self.z_buffer[idx] {
                self.screen.set(idx, *color);
                self.z_buffer.set(idx, z);
            }
            proof {
                assert(self@.colors =~= plot_frame(old(self)@, x as int, y as int, z, *color).colors);
                assert(self@.depths =~= plot_frame(old(self)@, x as int, y as int, z, *color).depths);
            }
            true
        } else {
            false
        }
    }

    /// The text pixel map of the image: a `P3` header with width, height and
    /// 255, then one line per row, top row first, each pixel written as its
    /// three channels followed by two spaces.
    pub fn create_data(&self) -> (out: Vec<u8>)
        requires
            self.wf(),
        ensures
            out@ == ppm_text(self@),
    {
        let ghost f = self@;
        let mut out: Vec<u8> = Vec::new();
        out.push(80);
        out.push(51);
        out.push(10);
        push_decimal(&mut out, self.width as u64);
        out.push(32);
        push_decimal(&mut out, self.height as u64);
        out.push(10);
        out.push(50);
        out.push(53);
        out.push(53);
        out.push(10);
        assert(out@ =~= ppm_header(f.width, f.height));
        let mut r: usize = 0;
        while r < self.height
            invariant
                f == self@,
                self.wf(),
                r <= self.height,
                out@ == ppm_header(f.width, f.height) + ppm_rows(f).subrange(0, r as int).flatten(),
            decreases self.height - r,
        {
            let ghost before = out@;
            let mut c: usize = 0;
            while c < self.width
                invariant
                    f == self@,
                    self.wf(),
                    r < self.height,
                    c <= self.width,
                    out@ == before + row_cells(f, r as int).subrange(0, c as int).flatten(),
                decreases self.width - c,
            {
                proof {
                    lemma_slot_in_range(f, c as int, (self.height - 1 - r) as int);
                }
                let total = self.screen.len();
                let idx = r * self.width + c;
                let px = self.screen[idx];
                let ghost mid = out@;
                push_decimal(&mut out, px.r as u64);
                out.push(32);
                push_decimal(&mut out, px.g as u64);
                out.push(32);
                push_decimal(&mut out, px.b as u64);
                out.push(32);
                out.push(32);
                proof {
                    assert(out@ =~= mid + cell_text(px));
                    let cells = row_cells(f, r as int);
                    assert(cells.subrange(0, c + 1) =~= cells.subrange(0, c as int).push(cell_text(px)));
                    cells.subrange(0, c as int).lemma_flatten_push(cell_text(px));
                    assert(out@ =~= before + cells.subrange(0, c + 1).flatten());
                }
                c = c + 1;
            }
            out.push(10);
            proof {
                let rows = ppm_rows(f);
                let cells = row_cells(f, r as int);
                assert(cells.subrange(0, self.width as int) =~= cells);
                assert(rows.subrange(0, r + 1) =~= rows.subrange(0, r as int).push(row_text(f, r as int)));
                rows.subrange(0, r as int).lemma_flatten_push(row_text(f, r as int));
                assert(out@ =~= ppm_header(f.width, f.height) + rows.subrange(0, r + 1).flatten());
            }
            r = r + 1;
        }
        assert(ppm_rows(f).subrange(0, self.height as int) =~= ppm_rows(f));
        out
    }

    /// The color at image coordinates `(x, y)`, if they lie in the image.
    pub fn get_pixel(&self, x: i64, y: i64) -> (r: Option<Color>)
        requires
            self.wf(),
        ensures
            r == (if in_frame(self@, x as int, y as int) {
                Some(color_at(self@, x as int, y as int))
            } else {
                None
            }),
    {
        if x >= 0 && y >= 0 && (x as u64) < (self.width as u64) && (y as u64) < (self.height as u64) {
            proof {
                lemma_slot_in_range(self@, x as int, y as int);
            }
            let total = self.screen.len();
            let row = self.height - 1 - y as usize;
            assert(row * self.width + x == slot(self@, x as int, y as int));
            Some(self.screen[row * self.width + x as usize])
        } else {
            None
        }
    }

    /// The depth at image coordinates `(x, y)`, if they lie in the image.
    pub fn get_depth(&self, x: i64, y: i64) -> (r: Option<i64>)
        requires
            self.wf(),
        ensures
            r == (if in_frame(self@, x as int, y as int) {
                Some(depth_at(self@, x as int, y as int))
            } else {
                None
            }),
    {
        if x >= 0 && y >= 0 && (x as u64) < (self.width as u64) && (y as u64) < (self.height as u64) {
            proof {
                lemma_slot_in_range(self@, x as int, y as int);
            }
            let total = self.z_buffer.len();
            let row = self.height - 1 - y as usize;
            assert(row * self.width + x == slot(self@, x as int, y as int));
            Some(self.z_buffer[row * self.width + x as usize])
        } else {
            None
        }
    }

    /// Resets every pixel to black and every depth to empty.
    pub fn clear(&mut self)
        requires
            old(self).wf(),
        ensures
            final(self).wf(),
            final(self)@ == blank_frame(old(self).width as nat, old(self).height as nat),
    {
        let n = self.screen.len();
        let mut i: usize = 0;
        while i < n
            invariant
                i <= n,
                n == self.screen@.len(),
                self.wf(),
                self.width == old(self).width,
                self.height == old(self).height,
                forall|j: int| 0 <= j < i ==> self.screen@[j] == (Color { r: 0, g: 0, b: 0 }),
                forall|j: int| 0 <= j < i ==> self.z_buffer@[j] == EMPTY_DEPTH,
            decreases n - i,
        {
            self.screen.set(i, Color::new());
            self.z_buffer.set(i, EMPTY_DEPTH);
            i = i + 1;
        }
        assert(self@.colors =~= blank_frame(self.width as nat, self.height as nat).colors);
        assert(self@.depths =~= blank_frame(self.width as nat, self.height as nat).depths);
    }
}

} // verus!
