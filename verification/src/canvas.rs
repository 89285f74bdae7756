//! A grid of pixels, stored row by row, and its text in the plain PPM format.

use vstd::prelude::*;

use crate::text::{decimal, push_decimal, push_str, string_from_chars};

verus! {

broadcast use vstd::string::group_string_axioms;

/// A grid of `width` by `height` pixels, stored row after row.
pub struct Canvas<T> {
    width: usize,
    height: usize,
    pixels: Vec<T>,
}

/// What a canvas is: its size and its pixels, row after row.
pub struct CanvasView<T> {
    pub width: nat,
    pub height: nat,
    pub pixels: Seq<T>,
}

impl<T> View for Canvas<T> {
    type V = CanvasView<T>;

    closed spec fn view(&self) -> CanvasView<T> {
        CanvasView { width: self.width as nat, height: self.height as nat, pixels: self.pixels@ }
    }
}

/// The position in the pixel list of the pixel at `row` and `col`.
pub open spec fn pixel_index(width: nat, row: int, col: int) -> int {
    row * width + col
}

/// Pixels are stored row after row: the pixel at `row` and `col` of a canvas of the given width
/// comes after `row` whole rows and `col` pixels of its own row.
pub proof fn lemma_pixel_position(width: nat, row: int, col: int)
    ensures
        pixel_index(width, row, col) == row * width + col,
        pixel_index(width, row + 1, 0) == pixel_index(width, row, 0) + width,
{
    assert((row + 1) * width == row * width + width) by (nonlinear_arith);
}

proof fn lemma_index_in_grid(width: nat, height: nat, row: int, col: int)
    requires
        0 <= row < height,
        0 <= col < width,
    ensures
        0 <= pixel_index(width, row, col),
        pixel_index(width, row, col) + (width - col) <= width * height,
{
    assert(row * width + width <= height * width) by (nonlinear_arith)
        requires
            0 <= row < height,
    ;
    assert(0 <= row * width) by (nonlinear_arith)
        requires
            0 <= row,
    ;
}

/// Writing a pixel changes that pixel only: reading it back gives what was written, and every
/// other pixel keeps its value.
pub proof fn lemma_write_then_read<T>(
    c: CanvasView<T>,
    row: int,
    col: int,
    value: T,
    other_row: int,
    other_col: int,
)
    requires
        c.pixels.len() == c.width * c.height,
        0 <= row < c.height,
        0 <= col < c.width,
        0 <= other_row < c.height,
        0 <= other_col < c.width,
    ensures
        c.pixels.update(pixel_index(c.width, row, col), value)[pixel_index(c.width, other_row, other_col)]
            == if row == other_row && col == other_col {
            value
        } else {
            c.pixels[pixel_index(c.width, other_row, other_col)]
        },
{
    lemma_index_in_grid(c.width, c.height, row, col);
    lemma_index_in_grid(c.width, c.height, other_row, other_col);
    let w = c.width as int;
    if row < other_row {
        assert(row * w + col < other_row * w + other_col) by (nonlinear_arith)
            requires
                row < other_row,
                0 <= col < w,
                0 <= other_col,
        ;
    } else if other_row < row {
        assert(other_row * w + other_col < row * w + col) by (nonlinear_arith)
            requires
                other_row < row,
                0 <= other_col < w,
                0 <= col,
        ;
    }
}

impl<T> Canvas<T> {
    /// The canvas holds one pixel for each row and column.
    pub closed spec fn wf(&self) -> bool {
        self.pixels.len() == self.width * self.height
    }

    /// The number of columns.
    pub fn width(&self) -> (res: usize)
        ensures
            res == self@.width,
    {
        self.width
    }

    /// The number of rows.
    pub fn height(&self) -> (res: usize)
        ensures
            res == self@.height,
    {
        self.height
    }

    /// All pixels, row after row: one for each row and column.
    pub fn pixels(&self) -> (res: &Vec<T>)
        requires
            self.wf(),
        ensures
            res@ == self@.pixels,
            res@.len() == self@.width * self@.height,
    {
        &self.pixels
    }

    /// The pixel at `row` and `col`.
    pub fn pixel(&self, row: usize, col: usize) -> (res: &T)
        requires
            self.wf(),
            row < self@.height,
            col < self@.width,
        ensures
            *res == self@.pixels[pixel_index(self@.width, row as int, col as int)],
    {
        proof {
            lemma_index_in_grid(self.width as nat, self.height as nat, row as int, col as int);
        }
        &self.pixels[row * self.width + col]
    }

    /// The pixels of one row, from left to right.
    pub fn row(&self, row: usize) -> (res: &[T])
        requires
            self.wf(),
            row < self@.height,
        ensures
            res@ == self@.pixels.subrange(
                pixel_index(self@.width, row as int, 0),
                pixel_index(self@.width, row as int, 0) + self@.width,
            ),
    {
        proof {
            if self.width > 0 {
                lemma_index_in_grid(self.width as nat, self.height as nat, row as int, 0);
            } else {
                assert(row * self.width == 0) by (nonlinear_arith)
                    requires
                        self.width == 0,
                ;
            }
        }
        let start = row * self.width;
        &self.pixels.as_slice()[start..start + self.width]
    }

    /// Replaces the pixel at `row` and `col`.
    pub fn set_pixel(&mut self, row: usize, col: usize, value: T)
        requires
            old(self).wf(),
            row < old(self)@.height,
            col < old(self)@.width,
        ensures
            final(self).wf(),
            final(self)@ == (CanvasView {
                pixels: old(self)@.pixels.update(pixel_index(old(self)@.width, row as int, col as int), value),
                ..old(self)@
            }),
    {
        proof {
            lemma_index_in_grid(self.width as nat, self.height as nat, row as int, col as int);
        }
        let index = row * self.width + col;
        self.pixels.set(index, value);
    }
}

impl<T: Copy> Canvas<T> {
    /// A canvas whose pixels all hold `color`.
    pub fn new_with_color(width: usize, height: usize, color: T) -> (res: Canvas<T>)
        requires
            width * height <= usize::MAX,
        ensures
            res.wf(),
            res@.width == width,
            res@.height == height,
            res@.pixels == Seq::new((width * height) as nat, |i: int| color),
    {
        let n = width * height;
        let mut pixels: Vec<T> = Vec::with_capacity(n);
        let mut i: usize = 0;
        while i < n
            invariant
                i <= n,
                pixels@ == Seq::new(i as nat, |k: int| color),
            decreases n - i,
        {
            pixels.push(color);
            i = i + 1;
            assert(pixels@ =~= Seq::new(i as nat, |k: int| color));
        }
        Canvas { width, height, pixels }
    }
}

/// A pixel as the PPM format writes it: red, green and blue on a scale up to 255.
pub type Rgb = (u8, u8, u8);

/// The text of one pixel: its three components in decimal, separated by spaces.
pub open spec fn rgb_text(p: Rgb) -> Seq<char> {
    decimal(p.0 as nat) + " "@ + decimal(p.1 as nat) + " "@ + decimal(p.2 as nat)
}

/// The text of some pixels, each followed by a space.
pub open spec fn cells_text(pixels: Seq<Rgb>) -> Seq<char>
    decreases pixels.len(),
{
    if pixels.len() == 0 {
        seq![]
    } else {
        cells_text(pixels.drop_last()) + rgb_text(pixels.last()) + " "@
    }
}

/// The line of a row: its pixels separated by spaces, and a line feed.
pub open spec fn row_text(pixels: Seq<Rgb>) -> Seq<char> {
    cells_text(pixels.drop_last()) + rgb_text(pixels.last()) + "\n"@
}

/// The lines of the first `rows` rows of a canvas of the given width.
pub open spec fn rows_text(width: nat, pixels: Seq<Rgb>, rows: nat) -> Seq<char>
    decreases rows,
{
    if rows == 0 {
        seq![]
    } else {
        rows_text(width, pixels, (rows - 1) as nat) + row_text(
            pixels.subrange((rows - 1) * width, (rows * width) as int),
        )
    }
}

/// The header of a plain PPM text: the magic number, the size and the largest value.
pub open spec fn ppm_header(width: nat, height: nat) -> Seq<char> {
    "P3\n"@ + decimal(width) + " "@ + decimal(height) + "\n"@ + "255\n"@
}

/// The plain PPM text of a canvas.
pub open spec fn ppm_text(c: CanvasView<Rgb>) -> Seq<char> {
    ppm_header(c.width, c.height) + rows_text(c.width, c.pixels, c.height)
}

fn push_rgb(out: &mut Vec<char>, p: Rgb)
    ensures
        final(out)@ == old(out)@ + rgb_text(p),
{
    push_decimal(out, p.0 as usize);
    push_str(out, " ");
    push_decimal(out, p.1 as usize);
    push_str(out, " ");
    push_decimal(out, p.2 as usize);
    assert(out@ =~= old(out)@ + rgb_text(p));
}

impl Canvas<Rgb> {
    /// A black canvas.
    pub fn new(width: usize, height: usize) -> (res: Canvas<Rgb>)
        requires
            width * height <= usize::MAX,
        ensures
            res.wf(),
            res@.width == width,
            res@.height == height,
            res@.pixels == Seq::new((width * height) as nat, |i: int| (0u8, 0u8, 0u8)),
    {
        Canvas::new_with_color(width, height, (0u8, 0u8, 0u8))
    }

    /// Appends the PPM header of the canvas.
    pub fn write_ppm_header(&self, ppm: &mut String)
        ensures
            final(ppm)@ == old(ppm)@ + ppm_header(self@.width, self@.height),
    {
        let mut out: Vec<char> = Vec::new();
        push_str(&mut out, "P3\n");
        push_decimal(&mut out, self.width);
        push_str(&mut out, " ");
        push_decimal(&mut out, self.height);
        push_str(&mut out, "\n");
        push_str(&mut out, "255\n");
        assert(out@ =~= ppm_header(self@.width, self@.height));
        let header = string_from_chars(&out);
        ppm.append(header.as_str());
    }

    /// The canvas as a plain PPM text: one line for each row.
    pub fn ppm(&self) -> (res: String)
        requires
            self.wf(),
            self@.height > 0 ==> self@.width > 0,
        ensures
            res@ == ppm_text(self@),
    {
        let mut ppm = String::new();
        self.write_ppm_header(&mut ppm);
        let mut out: Vec<char> = Vec::new();
        let w = self.width;
        let mut row: usize = 0;
        while row < self.height
            invariant
                row <= self.height,
                w == self.width,
                self.pixels.len() == self.width * self.height,
                self.height > 0 ==> w > 0,
                out@ == rows_text(w as nat, self.pixels@, row as nat),
            decreases self.height - row,
        {
            proof {
                lemma_index_in_grid(w as nat, self.height as nat, row as int, 0);
            }
            let start = row * w;
            let ghost base = out@;
            let ghost cells = self.pixels@.subrange(start as int, start + w);
            let mut col: usize = 0;
            while col < w - 1
                invariant
                    col <= w - 1,
                    w > 0,
                    start + w <= self.pixels.len(),
                    cells == self.pixels@.subrange(start as int, start + w),
                    out@ == base + cells_text(cells.take(col as int)),
                decreases w - 1 - col,
            {
                let p = self.pixels[start + col];
                push_rgb(&mut out, p);
                push_str(&mut out, " ");
                assert(cells.take(col + 1).drop_last() =~= cells.take(col as int));
                col = col + 1;
            }
            let p = self.pixels[start + w - 1];
            push_rgb(&mut out, p);
            push_str(&mut out, "\n");
            assert(cells.take(col as int) =~= cells.drop_last());
            assert((row + 1) * w == start + w) by (nonlinear_arith)
                requires
                    start == row * w,
            ;
            assert(out@ =~= rows_text(w as nat, self.pixels@, (row + 1) as nat));
            row = row + 1;
        }
        let body = string_from_chars(&out);
        ppm.append(body.as_str());
        ppm
    }
}

} // verus!
