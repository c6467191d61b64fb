//! CPU-side pixel surfaces.
//!
//! A [`Tex`] stores its pixels row by row, each pixel as `channels` bytes; a
//! row is therefore `w * channels` bytes long. The contracts address a byte
//! by its row and its position inside the row.

use vstd::prelude::*;
use crate::vec2::Vec2;

verus! {

/// Pixel formats, named by what a pixel holds.
#[derive(Copy, Clone, Debug, PartialEq, Eq, Structural)]
pub enum Channels {
    RGB,
    RGBA,
    GRAYSCALE,
}

impl Channels {
    /// Bytes per pixel.
    pub open spec fn spec_count(self) -> usize {
        match self {
            Channels::RGB => 3,
            Channels::RGBA => 4,
            Channels::GRAYSCALE => 1,
        }
    }

    /// Bytes per pixel.
    #[verifier::when_used_as_spec(spec_count)]
    pub fn count(self) -> (n: usize)
        ensures
            n == self.spec_count(),
    {
        match self {
            Channels::RGB => 3,
            Channels::RGBA => 4,
            Channels::GRAYSCALE => 1,
        }
    }
}

/// Byte `i` of row `row` in row-major data whose rows are `stride` bytes
/// long.
pub open spec fn row_byte(data: Seq<u8>, stride: int, row: int, i: int) -> u8 {
    data[row * stride + i]
}

/// A position inside one row and a position inside another never share an
/// index, and every position of a row lies before the next row begins.
pub proof fn lemma_rows_apart(stride: int, r1: int, i1: int, r2: int, i2: int)
    requires
        0 <= i1 < stride,
        0 <= i2 < stride,
        0 <= r1,
        0 <= r2,
    ensures
        r1 < r2 ==> r1 * stride + i1 < r2 * stride + i2,
        r1 * stride + i1 == r2 * stride + i2 ==> r1 == r2 && i1 == i2,
        0 <= r1 * stride + i1 < (r1 + 1) * stride,
{
    assert((r1 + 1) * stride == r1 * stride + stride) by (nonlinear_arith);
    assert(0 <= r1 * stride) by (nonlinear_arith)
        requires
            0 <= r1,
            0 <= stride,
    ;
    if r1 < r2 {
        assert((r1 + 1) * stride <= r2 * stride) by (nonlinear_arith)
            requires
                r1 + 1 <= r2,
                0 <= stride,
        ;
    }
    if r2 < r1 {
        assert((r2 + 1) * stride == r2 * stride + stride) by (nonlinear_arith);
        assert((r2 + 1) * stride <= r1 * stride) by (nonlinear_arith)
            requires
                r2 + 1 <= r1,
                0 <= stride,
        ;
    }
}

/// Length of a row of a bitmap of `len` bytes in `height` rows; bytes
/// beyond the last full row belong to no row.
pub open spec fn row_len(len: int, height: int) -> int {
    if height == 0 {
        0
    } else {
        len / height
    }
}

/// Byte `i` of row `row` lies under a bitmap of `len` bytes in `height`
/// rows whose first byte goes to byte `x` of row `y`.
pub open spec fn under(len: int, x: int, y: int, height: int, row: int, i: int) -> bool {
    &&& y <= row < y + height
    &&& x <= i < x + row_len(len, height)
}

/// Row-major `pixels` with rows of `stride` bytes after a bitmap `data` of
/// `height` rows has been copied in, its first byte to byte `x` of row `y`:
/// the bitmap where it lies, `pixels` everywhere else.
pub open spec fn blit(pixels: Seq<u8>, stride: int, data: Seq<u8>, x: int, y: int, height: int) -> Seq<
    u8,
> {
    Seq::new(
        pixels.len(),
        |j: int|
            if under(data.len() as int, x, y, height, j / stride, j % stride) {
                row_byte(data, row_len(data.len() as int, height), j / stride - y, j % stride - x)
            } else {
                pixels[j]
            },
    )
}

/// Row by row, the result of [`blit`] shows the bitmap where it lies and
/// the former content everywhere else.
pub proof fn lemma_blit_at(
    pixels: Seq<u8>,
    stride: int,
    rows: int,
    data: Seq<u8>,
    x: int,
    y: int,
    height: int,
    row: int,
    i: int,
)
    requires
        pixels.len() == rows * stride,
        0 <= row < rows,
        0 <= i < stride,
    ensures
        row_byte(blit(pixels, stride, data, x, y, height), stride, row, i) == if under(
            data.len() as int,
            x,
            y,
            height,
            row,
            i,
        ) {
            row_byte(data, row_len(data.len() as int, height), row - y, i - x)
        } else {
            row_byte(pixels, stride, row, i)
        },
{
    let j = row * stride + i;
    lemma_rows_apart(stride, row, i, row, i);
    assert((row + 1) * stride <= rows * stride) by (nonlinear_arith)
        requires
            row + 1 <= rows,
            0 <= stride,
    ;
    vstd::arithmetic::div_mod::lemma_fundamental_div_mod_converse(j, stride, row, i);
}

/// A position in row-major data is a place in a row: the quotient by the
/// row length is the row, the remainder the place in it.
pub proof fn lemma_row_of(stride: int, rows: int, j: int)
    requires
        0 < stride,
        0 <= j < rows * stride,
    ensures
        0 <= j / stride < rows,
        0 <= j % stride < stride,
        j == (j / stride) * stride + j % stride,
{
    vstd::arithmetic::div_mod::lemma_fundamental_div_mod(j, stride);
    vstd::arithmetic::div_mod::lemma_mod_pos_bound(j, stride);
    vstd::arithmetic::div_mod::lemma_div_pos_is_pos(j, stride);
    assert(j < stride * rows) by (nonlinear_arith)
        requires
            j < rows * stride,
    ;
    vstd::arithmetic::div_mod::lemma_multiply_divide_lt(j, stride, rows);
    assert(stride * (j / stride) == (j / stride) * stride) by (nonlinear_arith);
}

/// A surface of `w` by `h` pixels.
pub struct Tex {
    pub w: usize,
    pub h: usize,
    pub data: Vec<u8>,
    pub channels: Channels,
}

impl Tex {
    /// Length of a row in bytes.
    pub open spec fn stride(&self) -> int {
        self.w * self.channels.count()
    }

    /// The pixel data has exactly the length that the dimensions ask for.
    pub open spec fn wf(&self) -> bool {
        self.data.len() == self.h * self.stride()
    }

    /// Byte `i` of row `row`.
    pub open spec fn at(&self, row: int, i: int) -> u8 {
        row_byte(self.data@, self.stride(), row, i)
    }

    /// A bitmap of `len` bytes in `height` rows, drawn at pixel `pos`, stays
    /// inside the surface. A bitmap without bytes in its rows fits anywhere.
    pub open spec fn blit_fits(&self, len: int, pos: Vec2<usize>, height: int) -> bool {
        row_len(len, height) > 0 ==> {
            &&& pos.y + height <= self.h
            &&& pos.x * self.channels.count() + row_len(len, height) <= self.stride()
        }
    }

    /// Byte `i` of row `row` lies under a bitmap of `len` bytes in `height`
    /// rows that is drawn at pixel `pos`.
    pub open spec fn covered(&self, len: int, pos: Vec2<usize>, height: int, row: int, i: int) -> bool {
        under(len, pos.x * self.channels.count(), pos.y as int, height, row, i)
    }

    /// The pixel data after a bitmap `data` of `height` rows has been drawn
    /// at pixel `pos`.
    pub open spec fn blitted(&self, data: Seq<u8>, pos: Vec2<usize>, height: int) -> Seq<u8> {
        blit(self.data@, self.stride(), data, pos.x * self.channels.count(), pos.y as int, height)
    }

    /// Pixel data that agrees, byte by byte, with a drawn bitmap where the
    /// bitmap lies and with the surface elsewhere is the surface after the
    /// bitmap has been drawn.
    pub proof fn lemma_blitted(&self, drawn: Seq<u8>, data: Seq<u8>, pos: Vec2<usize>, height: int)
        requires
            self.wf(),
            drawn.len() == self.data@.len(),
            forall|row: int, i: int|
                0 <= row < self.h && 0 <= i < self.stride() ==> #[trigger] row_byte(
                    drawn,
                    self.stride(),
                    row,
                    i,
                ) == if self.covered(data.len() as int, pos, height, row, i) {
                    row_byte(
                        data,
                        row_len(data.len() as int, height),
                        row - pos.y,
                        i - pos.x * self.channels.count(),
                    )
                } else {
                    self.at(row, i)
                },
        ensures
            drawn == self.blitted(data, pos, height),
    {
        let stride = self.stride();
        assert forall|j: int| 0 <= j < drawn.len() implies drawn[j] == self.blitted(data, pos, height)[j] by {
            assert(stride > 0) by (nonlinear_arith)
                requires
                    0 <= j < self.h * stride,
                    0 <= self.h,
            ;
            lemma_row_of(stride, self.h as int, j);
            let row = j / stride;
            let i = j % stride;
            assert(drawn[j] == row_byte(drawn, stride, row, i));
            assert(self.data@[j] == self.at(row, i));
        }
        assert(drawn =~= self.blitted(data, pos, height));
    }

    /// A surface of the given size with every byte zero.
    pub fn new(w: usize, h: usize, channels: Channels) -> (tex: Tex)
        requires
            w * h * channels.count() <= usize::MAX,
        ensures
            tex.wf(),
            tex.w == w,
            tex.h == h,
            tex.channels == channels,
            forall|j: int| 0 <= j < tex.data@.len() ==> tex.data@[j] == 0,
    {
        let c = channels.count();
        proof {
            lemma_area_fits(w as int, h as int, c as int);
        }
        Tex { w, h, data: vec![0u8; w * h * c], channels }
    }

    /// Gives the surface a new size. A pixel keeps its content where its row
    /// and column exist before and after; every other pixel is zero.
    pub fn resize(&mut self, w: usize, h: usize) -> (ret: &mut Self)
        requires
            old(self).wf(),
            w * h * old(self).channels.count() <= usize::MAX,
        ensures
            ret.wf(),
            ret.w == w,
            ret.h == h,
            ret.channels == old(self).channels,
            forall|row: int, i: int|
                0 <= row < h && 0 <= i < ret.stride() ==> #[trigger] ret.at(row, i) == if row < old(
                    self,
                ).h && i < old(self).stride() {
                    old(self).at(row, i)
                } else {
                    0
                },
            *final(self) == *final(ret),
    {
        let c = self.channels.count();
        let ghost before = *self;
        proof {
            lemma_area_fits(w as int, h as int, c as int);
            lemma_area_fits(self.w as int, self.h as int, c as int);
        }
        let len = w * h * c;
        let mut to: Vec<u8> = Vec::with_capacity(len);
        if len > 0 {
            let stride = w * c;
            // Rows and bytes that exist on both sides are copied.
            let (keep_rows, keep) = if self.h == 0 {
                (0, 0)
            } else {
                (self.h, self.w * c)
            };
            let mut row: usize = 0;
            while row < h
                invariant
                    row <= h,
                    stride == w * c,
                    h * stride == len,
                    *self == before,
                    before.wf(),
                    keep_rows == before.h,
                    before.h > 0 ==> keep == before.stride(),
                    to@.len() == row * stride,
                    forall|r: int, i: int|
                        0 <= r < row && 0 <= i < stride ==> #[trigger] row_byte(to@, stride as int, r, i)
                            == if r < before.h && i < before.stride() {
                            before.at(r, i)
                        } else {
                            0
                        },
                decreases h - row,
            {
                let mut i: usize = 0;
                while i < stride
                    invariant
                        row < h,
                        i <= stride,
                        stride == w * c,
                        h * stride == len,
                        *self == before,
                        before.wf(),
                        keep_rows == before.h,
                        before.h > 0 ==> keep == before.stride(),
                        to@.len() == row * stride + i,
                        forall|r: int, j: int|
                            0 <= r < row && 0 <= j < stride ==> #[trigger] row_byte(
                                to@,
                                stride as int,
                                r,
                                j,
                            ) == if r < before.h && j < before.stride() {
                                before.at(r, j)
                            } else {
                                0
                            },
                        forall|j: int|
                            0 <= j < i ==> #[trigger] row_byte(to@, stride as int, row as int, j) == if row
                                < before.h && j < before.stride() {
                                before.at(row as int, j)
                            } else {
                                0
                            },
                    decreases stride - i,
                {
                    let ghost filled = to@;
                    proof {
                        lemma_rows_apart(stride as int, row as int, i as int, row as int, i as int);
                        assert((row + 1) * stride <= h * stride) by (nonlinear_arith)
                            requires
                                row + 1 <= h,
                                0 <= stride,
                        ;
                    }
                    let v = if row < keep_rows && i < keep {
                        proof {
                            lemma_rows_apart(keep as int, row as int, i as int, row as int, i as int);
                            assert((row + 1) * keep <= before.h * keep) by (nonlinear_arith)
                                requires
                                    row + 1 <= before.h,
                                    0 <= keep,
                            ;
                        }
                        self.data[row * keep + i]
                    } else {
                        0
                    };
                    to.push(v);
                    proof {
                        assert forall|r: int, j: int| 0 <= r < row && 0 <= j < stride implies #[trigger] row_byte(
                            to@,
                            stride as int,
                            r,
                            j,
                        ) == if r < before.h && j < before.stride() {
                            before.at(r, j)
                        } else {
                            0
                        } by {
                            lemma_rows_apart(stride as int, r, j, row as int, i as int);
                            assert(row_byte(to@, stride as int, r, j) == row_byte(
                                filled,
                                stride as int,
                                r,
                                j,
                            ));
                        }
                        assert forall|j: int| 0 <= j < i + 1 implies #[trigger] row_byte(
                            to@,
                            stride as int,
                            row as int,
                            j,
                        ) == if row < before.h && j < before.stride() {
                            before.at(row as int, j)
                        } else {
                            0
                        } by {
                            if j < i {
                                assert(row_byte(to@, stride as int, row as int, j) == row_byte(
                                    filled,
                                    stride as int,
                                    row as int,
                                    j,
                                ));
                            }
                        }
                    }
                    i += 1;
                }
                proof {
                    assert((row + 1) * stride == row * stride + stride) by (nonlinear_arith);
                }
                row += 1;
            }
        }
        self.w = w;
        self.h = h;
        self.data = to;
        self
    }

    /// Copies a bitmap, given row by row, into the surface with its top-left
    /// corner at pixel `pos`. The bitmap has `height` rows of
    /// `data.len() / height` bytes each; with no rows nothing is copied.
    pub fn draw(&mut self, data: Vec<u8>, pos: Vec2<usize>, height: usize)
        requires
            old(self).wf(),
            old(self).blit_fits(data@.len() as int, pos, height as int),
        ensures
            final(self).wf(),
            final(self).w == old(self).w,
            final(self).h == old(self).h,
            final(self).channels == old(self).channels,
            forall|row: int, i: int|
                0 <= row < old(self).h && 0 <= i < old(self).stride() ==> #[trigger] final(self).at(
                    row,
                    i,
                ) == if old(self).covered(data@.len() as int, pos, height as int, row, i) {
                    row_byte(
                        data@,
                        row_len(data@.len() as int, height as int),
                        row - pos.y,
                        i - pos.x * old(self).channels.count(),
                    )
                } else {
                    old(self).at(row, i)
                },
            final(self).data@ == old(self).blitted(data@, pos, height as int),
    {
        if height == 0 {
            proof {
                self.lemma_blitted(self.data@, data@, pos, height as int);
            }
            return ;
        }
        let width = data.len() / height;
        if width == 0 {
            proof {
                self.lemma_blitted(self.data@, data@, pos, height as int);
            }
            return ;
        }
        let c = self.channels.count();
        let ghost before = *self;
        let ghost len = data@.len() as int;
        proof {
            lemma_area_fits(self.w as int, self.h as int, c as int);
            assert(width * height <= data@.len()) by (nonlinear_arith)
                requires
                    width as int == (data@.len() as int) / (height as int),
                    height > 0,
            ;
        }
        let stride = self.w * c;
        let x0 = pos.x * c;
        let mut y: usize = 0;
        while y < height
            invariant
                y <= height,
                width == row_len(len, height as int),
                width > 0,
                len == data.len(),
                width * height <= len,
                stride == before.stride(),
                x0 == pos.x * c,
                c == before.channels.count(),
                before.wf(),
                before.blit_fits(len, pos, height as int),
                self.w == before.w,
                self.h == before.h,
                self.channels == before.channels,
                self.data@.len() == before.data@.len(),
                forall|row: int, i: int|
                    0 <= row < before.h && 0 <= i < stride ==> #[trigger] self.at(row, i) == if pos.y
                        <= row < pos.y + y && x0 <= i < x0 + width {
                        row_byte(data@, width as int, row - pos.y, i - x0)
                    } else {
                        before.at(row, i)
                    },
            decreases height - y,
        {
            let mut x: usize = 0;
            while x < width
                invariant
                    y < height,
                    x <= width,
                    width == row_len(len, height as int),
                    width > 0,
                    len == data.len(),
                    width * height <= len,
                    stride == before.stride(),
                    x0 == pos.x * c,
                    c == before.channels.count(),
                    before.wf(),
                    before.blit_fits(len, pos, height as int),
                    self.w == before.w,
                    self.h == before.h,
                    self.channels == before.channels,
                    self.data@.len() == before.data@.len(),
                    forall|row: int, i: int|
                        0 <= row < before.h && 0 <= i < stride ==> #[trigger] self.at(row, i) == if pos.y
                            <= row < pos.y + y && x0 <= i < x0 + width || row == pos.y + y && x0 <= i
                            < x0 + x {
                            row_byte(data@, width as int, row - pos.y, i - x0)
                        } else {
                            before.at(row, i)
                        },
                decreases width - x,
            {
                let ghost drawn = *self;
                proof {
                    lemma_rows_apart(stride as int, (pos.y + y) as int, (x0 + x) as int, 0, 0);
                    assert((pos.y + y + 1) * stride <= before.h * stride) by (nonlinear_arith)
                        requires
                            pos.y + y + 1 <= before.h,
                            0 <= stride,
                    ;
                    lemma_rows_apart(width as int, y as int, x as int, 0, 0);
                    assert((y + 1) * width <= height * width) by (nonlinear_arith)
                        requires
                            y + 1 <= height,
                            0 <= width,
                    ;
                    assert(height * width == width * height) by (nonlinear_arith);
                }
                let v = data[y * width + x];
                self.data.set((pos.y + y) * stride + (x0 + x), v);
                proof {
                    assert forall|row: int, i: int|
                        0 <= row < before.h && 0 <= i < stride implies #[trigger] self.at(row, i) == if pos.y
                        <= row < pos.y + y && x0 <= i < x0 + width || row == pos.y + y && x0 <= i < x0
                        + x + 1 {
                        row_byte(data@, width as int, row - pos.y, i - x0)
                    } else {
                        before.at(row, i)
                    } by {
                        lemma_rows_apart(stride as int, row, i, (pos.y + y) as int, (x0 + x) as int);
                        assert((row + 1) * stride <= before.h * stride) by (nonlinear_arith)
                            requires
                                row + 1 <= before.h,
                                0 <= stride,
                        ;
                        if !(row == pos.y + y && i == x0 + x) {
                            assert(self.at(row, i) == drawn.at(row, i));
                        }
                    }
                }
                x += 1;
            }
            y += 1;
        }
        proof {
            assert forall|row: int, i: int|
                0 <= row < before.h && 0 <= i < before.stride() implies #[trigger] row_byte(
                self.data@,
                before.stride(),
                row,
                i,
            ) == if before.covered(data@.len() as int, pos, height as int, row, i) {
                row_byte(data@, width as int, row - pos.y, i - x0)
            } else {
                before.at(row, i)
            } by {
                assert(self.at(row, i) == row_byte(self.data@, before.stride(), row, i));
            }
            before.lemma_blitted(self.data@, data@, pos, height as int);
        }
    }
}

/// The byte count of a `w` by `h` surface with `c` bytes per pixel is the
/// same however it is multiplied out, and bounds the pixel count and, where
/// there is a row, the length of a row.
proof fn lemma_area_fits(w: int, h: int, c: int)
    requires
        0 <= w,
        0 <= h,
        0 < c,
    ensures
        w * h * c == h * (w * c),
        0 <= w * h <= w * h * c,
        0 <= w * c,
        h > 0 ==> w * c <= w * h * c,
{
    assert(w * h * c == h * (w * c)) by (nonlinear_arith);
    assert(0 <= w * h) by (nonlinear_arith)
        requires
            0 <= w,
            0 <= h,
    ;
    assert(w * h <= w * h * c) by (nonlinear_arith)
        requires
            0 <= w * h,
            1 <= c,
    ;
    assert(0 <= w * c) by (nonlinear_arith)
        requires
            0 <= w,
            0 < c,
    ;
    if h > 0 {
        assert(w * c <= h * (w * c)) by (nonlinear_arith)
            requires
                1 <= h,
                0 <= w * c,
        ;
    }
}

} // verus!
