//! Plain-text RGB serialization of a canvas.
//!
//! The format is three header lines — `P3`, `<width> <height>`, `255` —
//! followed by one line per pixel row holding the `r g b` channels of each
//! pixel, separated by single spaces.

use vstd::prelude::*;

use crate::canvas::Canvas;
use crate::geometry::{color_rgba, Color};

verus! {

/// The decimal digits of `n`, most significant first.
pub open spec fn dec_rep(n: nat) -> Seq<u8>
    decreases n,
{
    if n < 10 {
        seq![(48 + n) as u8]
    } else {
        dec_rep(n / 10).push((48 + n % 10) as u8)
    }
}

/// Append the decimal digits of `n`.
fn push_dec(out: &mut Vec<u8>, n: u64)
    ensures
        final(out)@ == old(out)@ + dec_rep(n as nat),
    decreases n,
{
    if n < 10 {
        out.push(48 + n as u8);
        proof {
            assert(out@ =~= old(out)@ + dec_rep(n as nat));
        }
    } else {
        push_dec(out, n / 10);
        out.push(48 + (n % 10) as u8);
        proof {
            assert(out@ =~= old(out)@ + dec_rep(n as nat));
        }
    }
}

/// The `r g b` channels of one pixel.
pub open spec fn pixel_rep(c: Color) -> Seq<u8> {
    let rgba = color_rgba(c);
    dec_rep(rgba.0 as nat) + seq![32u8] + dec_rep(rgba.1 as nat) + seq![32u8] + dec_rep(
        rgba.2 as nat,
    )
}

/// The first `x` cells of row `y`, space-separated.
pub open spec fn cells_rep(c: Canvas, y: int, x: int) -> Seq<u8>
    decreases x,
{
    if x <= 0 {
        Seq::empty()
    } else {
        cells_rep(c, y, x - 1) + pixel_rep(c.pix(x - 1, y)) + if x < c.spec_width() {
            seq![32u8]
        } else {
            Seq::empty()
        }
    }
}

/// The first `y` rows, each closed by a line feed.
pub open spec fn rows_rep(c: Canvas, y: int) -> Seq<u8>
    decreases y,
{
    if y <= 0 {
        Seq::empty()
    } else {
        rows_rep(c, y - 1) + cells_rep(c, y - 1, c.spec_width()) + seq![10u8]
    }
}

/// The header of the image: `P3`, the dimensions, and the channel maximum.
pub open spec fn header_rep(c: Canvas) -> Seq<u8> {
    seq![80u8, 51u8, 10u8] + dec_rep(c.spec_width() as nat) + seq![32u8] + dec_rep(
        c.spec_height() as nat,
    ) + seq![10u8] + seq![50u8, 53u8, 53u8, 10u8]
}

/// The whole plain-text image.
pub open spec fn ppm_rep(c: Canvas) -> Seq<u8> {
    header_rep(c) + rows_rep(c, c.spec_height())
}

/// The serialized bytes of a canvas.
fn ppm_bytes(canvas: &Canvas) -> (r: Vec<u8>)
    requires
        canvas.wf(),
    ensures
        r@ == ppm_rep(*canvas),
{
    let mut out: Vec<u8> = Vec::new();
    out.push(80);
    out.push(51);
    out.push(10);
    let w = canvas.width();
    let h = canvas.height();
    push_dec(&mut out, w as u64);
    out.push(32);
    push_dec(&mut out, h as u64);
    out.push(10);
    out.push(50);
    out.push(53);
    out.push(53);
    out.push(10);
    proof {
        assert(out@ =~= header_rep(*canvas));
        assert(out@ =~= header_rep(*canvas) + rows_rep(*canvas, 0));
    }
    let mut y: usize = 0;
    while y < h
        invariant
            y <= h,
            w == canvas.spec_width(),
            h == canvas.spec_height(),
            canvas.wf(),
            out@ == header_rep(*canvas) + rows_rep(*canvas, y as int),
        decreases h - y,
    {
        let ghost row_start = out@;
        proof {
            assert(cells_rep(*canvas, y as int, 0) =~= Seq::<u8>::empty());
            assert(out@ =~= row_start + cells_rep(*canvas, y as int, 0));
        }
        let mut x: usize = 0;
        while x < w
            invariant
                x <= w,
                y < h,
                w == canvas.spec_width(),
                h == canvas.spec_height(),
                canvas.wf(),
                out@ == row_start + cells_rep(*canvas, y as int, x as int),
            decreases w - x,
        {
            let rgba = canvas.get(x, y).as_rgba();
            push_dec(&mut out, rgba.0 as u64);
            out.push(32);
            push_dec(&mut out, rgba.1 as u64);
            out.push(32);
            push_dec(&mut out, rgba.2 as u64);
            if x + 1 < w {
                out.push(32);
            }
            proof {
                assert(out@ =~= row_start + cells_rep(*canvas, y as int, x as int + 1));
            }
            x = x + 1;
        }
        out.push(10);
        proof {
            assert(out@ =~= header_rep(*canvas) + rows_rep(*canvas, y as int + 1));
        }
        y = y + 1;
    }
    out
}

/// A canvas about to be serialized as a plain-text RGB image.
pub struct PpmImage<'c> {
    canvas: &'c Canvas,
}

impl<'c> PpmImage<'c> {
    pub closed spec fn spec_canvas(&self) -> Canvas {
        *self.canvas
    }

    pub fn new(canvas: &'c Canvas) -> (r: PpmImage<'c>)
        ensures
            r.spec_canvas() == *canvas,
    {
        PpmImage { canvas }
    }

    /// A reader positioned at the start of the serialized image.
    pub fn reader(&self) -> (r: PpmImageReader)
        requires
            self.spec_canvas().wf(),
        ensures
            r.spec_bytes() == ppm_rep(self.spec_canvas()),
            r.spec_pos() == 0,
    {
        PpmImageReader::new(self)
    }
}

/// A cursor over the serialized bytes of an image.
pub struct PpmImageReader {
    bytes: Vec<u8>,
    pos: usize,
}

impl PpmImageReader {
    pub closed spec fn spec_bytes(&self) -> Seq<u8> {
        self.bytes@
    }

    pub closed spec fn spec_pos(&self) -> int {
        self.pos as int
    }

    pub open spec fn wf(&self) -> bool {
        0 <= self.spec_pos() <= self.spec_bytes().len()
    }

    pub fn new(image: &PpmImage) -> (r: PpmImageReader)
        requires
            image.spec_canvas().wf(),
        ensures
            r.spec_bytes() == ppm_rep(image.spec_canvas()),
            r.spec_pos() == 0,
    {
        PpmImageReader { bytes: ppm_bytes(image.canvas), pos: 0 }
    }

    /// Read up to `max` of the remaining bytes, advancing the cursor.
    pub fn read(&mut self, max: usize) -> (r: Vec<u8>)
        requires
            old(self).wf(),
        ensures
            final(self).wf(),
            final(self).spec_bytes() == old(self).spec_bytes(),
            ({
                let avail = old(self).spec_bytes().len() - old(self).spec_pos();
                let take = if max <= avail {
                    max as int
                } else {
                    avail
                };
                &&& r@ == old(self).spec_bytes().subrange(
                    old(self).spec_pos(),
                    old(self).spec_pos() + take,
                )
                &&& final(self).spec_pos() == old(self).spec_pos() + take
            }),
    {
        let n = self.bytes.len();
        let avail = n - self.pos;
        let take = if max <= avail {
            max
        } else {
            avail
        };
        let mut out: Vec<u8> = Vec::new();
        let mut i: usize = 0;
        while i < take
            invariant
                i <= take,
                n == self.bytes@.len(),
                self.pos + take <= self.bytes@.len(),
                out@ == self.bytes@.subrange(self.pos as int, self.pos as int + i),
            decreases take - i,
        {
            out.push(self.bytes[self.pos + i]);
            proof {
                assert(out@ =~= self.bytes@.subrange(self.pos as int, self.pos as int + i + 1));
            }
            i = i + 1;
        }
        self.pos = self.pos + take;
        out
    }

    /// Whether the cursor is at the end of the image.
    pub fn is_done(&self) -> (r: bool)
        ensures
            r == (self.spec_pos() == self.spec_bytes().len()),
    {
        self.pos == self.bytes.len()
    }
}

} // verus!
