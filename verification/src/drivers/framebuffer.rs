//! A linear framebuffer, and things that can be drawn on it.
use vstd::prelude::*;

use crate::bootloader::boot_info::{FrameBufferInfo, PixelFormat};

use noto_sans_mono_bitmap::{get_bitmap, BitmapHeight, FontWeight};

verus! {

/// A point of a drawing: where it is and how bright.
#[derive(Clone, Copy, PartialEq, Eq, Structural, Debug)]
pub struct Pixel {
    pub x: usize,
    pub y: usize,
    pub intensity: u8,
}

/// Something that can be drawn: a box that holds it, a margin inside that
/// box, and its points in drawing order.
pub trait Drawable {
    /// The values below can be computed.
    spec fn drawable(&self) -> bool;

    /// Left, top, right and bottom of the box.
    spec fn spec_box(&self) -> (usize, usize, usize, usize);

    /// The points, in drawing order.
    spec fn spec_points(&self) -> Seq<Pixel>;

    /// The margin inside the box.
    spec fn spec_padding(&self) -> usize;

    fn draw_box(&self) -> (r: (usize, usize, usize, usize))
        requires
            self.drawable(),
        ensures
            r == self.spec_box(),
    ;

    fn points(&self) -> (r: Vec<Pixel>)
        requires
            self.drawable(),
        ensures
            r@ == self.spec_points(),
    ;

    fn padding(&self) -> (r: usize)
        ensures
            r == self.spec_padding(),
    ;
}

/// The bitmap of a character: `height` rows of `width` intensities, one row
/// after the other in `pixels`.
pub struct Glyph {
    pub width: usize,
    pub height: usize,
    pub pixels: Vec<u8>,
}

/// Width of a character of the font, in pixels.
pub const GLYPH_WIDTH: usize = 8;

/// Height of a character of the font, in pixels.
pub const GLYPH_HEIGHT: usize = 14;

/// The bitmap that the Noto Sans Mono font, regular weight, 14 pixels high,
/// has for `c`, its rows one after the other; `None` for a character the
/// font lacks.
pub uninterp spec fn noto_glyph(c: char) -> Option<Seq<u8>>;

/// The bitmap of `c`, from `noto_sans_mono_bitmap::get_bitmap` at regular
/// weight and 14 pixels height. Trusted: the result is the bitmap the font
/// has for `c`, or `None` where it has none; a bitmap of that size is 8
/// pixels wide and 14 high, its rows of 8 bytes each.
#[verifier::external_body]
fn glyph(c: char) -> (r: Option<Glyph>)
    ensures
        match r {
            Some(g) => noto_glyph(c) == Some(g.pixels@) && g.width == GLYPH_WIDTH && g.height == GLYPH_HEIGHT
                && g.pixels@.len() == GLYPH_WIDTH * GLYPH_HEIGHT,
            None => noto_glyph(c) is None,
        },
{
    match get_bitmap(c, FontWeight::Regular, BitmapHeight::Size14) {
        Some(b) => {
            let mut pixels = Vec::new();
            for row in b.bitmap() {
                pixels.extend_from_slice(row);
            }
            Some(Glyph { width: b.width(), height: b.height(), pixels })
        },
        None => None,
    }
}

/// The points of the bitmap `pixels` drawn with its top left corner at
/// `(x, y)`, row by row.
pub open spec fn glyph_points(pixels: Seq<u8>, x: usize, y: usize) -> Seq<Pixel> {
    Seq::new(
        (GLYPH_WIDTH * GLYPH_HEIGHT) as nat,
        |k: int|
            Pixel {
                x: (x + k % (GLYPH_WIDTH as int)) as usize,
                y: (y + k / (GLYPH_WIDTH as int)) as usize,
                intensity: pixels[k],
            },
    )
}

/// A character of the font, drawn with its top left corner at `(x, y)`.
pub struct Character {
    c: char,
    glyph: Glyph,
    x: usize,
    y: usize,
}

impl Character {
    /// The character drawn.
    pub closed spec fn spec_char(&self) -> char {
        self.c
    }

    /// Its top left corner.
    pub closed spec fn spec_at(&self) -> (usize, usize) {
        (self.x, self.y)
    }

    /// The bitmap of the character, as the font has it.
    pub closed spec fn spec_pixels(&self) -> Seq<u8> {
        self.glyph.pixels@
    }

    pub closed spec fn wf(&self) -> bool {
        &&& noto_glyph(self.c) == Some(self.glyph.pixels@)
        &&& self.glyph.width == GLYPH_WIDTH
        &&& self.glyph.height == GLYPH_HEIGHT
        &&& self.glyph.pixels@.len() == GLYPH_WIDTH * GLYPH_HEIGHT
    }

    /// The character `c` at `(x, y)`; the font must have it.
    pub fn new(c: char, x: usize, y: usize) -> (r: Self)
        requires
            noto_glyph(c) is Some,
        ensures
            r.wf(),
            r.spec_char() == c,
            r.spec_at() == (x, y),
            Some(r.spec_pixels()) == noto_glyph(c),
    {
        let glyph = glyph(c).unwrap();
        Character { c, glyph, x, y }
    }

    /// The character `c` at `(x, y)`, or `None` where the font lacks it.
    pub fn try_new(c: char, x: usize, y: usize) -> (r: Option<Self>)
        ensures
            noto_glyph(c) is None ==> r is None,
            noto_glyph(c) is Some ==> (r matches Some(ch) && ch.wf() && ch.spec_char() == c
                && ch.spec_at() == (x, y) && Some(ch.spec_pixels()) == noto_glyph(c)),
    {
        match glyph(c) {
            Some(_) => Some(Character::new(c, x, y)),
            None => None,
        }
    }

    /// Height in pixels.
    pub fn height(&self) -> (r: usize)
        requires
            self.wf(),
        ensures
            r == GLYPH_HEIGHT,
    {
        self.glyph.height
    }

    /// Width in pixels.
    pub fn width(&self) -> (r: usize)
        requires
            self.wf(),
        ensures
            r == GLYPH_WIDTH,
    {
        self.glyph.width
    }
}

impl Drawable for Character {
    open spec fn drawable(&self) -> bool {
        &&& self.wf()
        &&& self.spec_at().0 + GLYPH_WIDTH <= usize::MAX
        &&& self.spec_at().1 + GLYPH_HEIGHT <= usize::MAX
    }

    open spec fn spec_box(&self) -> (usize, usize, usize, usize) {
        (
            self.spec_at().0,
            self.spec_at().1,
            (self.spec_at().0 + GLYPH_WIDTH) as usize,
            (self.spec_at().1 + GLYPH_HEIGHT) as usize,
        )
    }

    open spec fn spec_points(&self) -> Seq<Pixel> {
        glyph_points(self.spec_pixels(), self.spec_at().0, self.spec_at().1)
    }

    open spec fn spec_padding(&self) -> usize {
        0
    }

    fn draw_box(&self) -> (r: (usize, usize, usize, usize)) {
        (self.x, self.y, self.x + self.glyph.width, self.y + self.glyph.height)
    }

    fn points(&self) -> (r: Vec<Pixel>) {
        let mut r: Vec<Pixel> = Vec::new();
        let mut yd: usize = 0;
        while yd < GLYPH_HEIGHT
            invariant
                self.wf(),
                self.x + GLYPH_WIDTH <= usize::MAX,
                self.y + GLYPH_HEIGHT <= usize::MAX,
                yd <= GLYPH_HEIGHT,
                r@ == glyph_points(self.glyph.pixels@, self.x, self.y).take(yd * GLYPH_WIDTH),
            decreases GLYPH_HEIGHT - yd,
        {
            let mut xd: usize = 0;
            while xd < GLYPH_WIDTH
                invariant
                    self.wf(),
                    self.x + GLYPH_WIDTH <= usize::MAX,
                    self.y + GLYPH_HEIGHT <= usize::MAX,
                    yd < GLYPH_HEIGHT,
                    xd <= GLYPH_WIDTH,
                    r@ == glyph_points(self.glyph.pixels@, self.x, self.y).take(yd * GLYPH_WIDTH + xd),
                decreases GLYPH_WIDTH - xd,
            {
                let k = yd * GLYPH_WIDTH + xd;
                let p = Pixel { x: self.x + xd, y: self.y + yd, intensity: self.glyph.pixels[k] };
                proof {
                    let all = glyph_points(self.glyph.pixels@, self.x, self.y);
                    assert(k % 8 == xd && k / 8 == yd) by (nonlinear_arith)
                        requires
                            k == yd * 8 + xd,
                            xd < 8;
                    assert(all[k as int] == p);
                    assert(all.take(k + 1) =~= all.take(k as int).push(p));
                }
                r.push(p);
                xd = xd + 1;
            }
            yd = yd + 1;
        }
        r
    }

    fn padding(&self) -> (r: usize) {
        0
    }
}

/// The bytes a point of the given intensity is written as.
pub open spec fn pixel_color(format: PixelFormat, intensity: u8) -> Seq<u8> {
    match format {
        PixelFormat::RGB => seq![intensity, intensity, intensity / 2, 0u8],
        PixelFormat::BGR => seq![intensity / 2, intensity, intensity, 0u8],
        PixelFormat::U8 => seq![if intensity > 200 { 0xfu8 } else { 0u8 }, 0u8, 0u8, 0u8],
    }
}

/// Where the bytes of point `p` start in the buffer.
pub open spec fn pixel_offset(info: FrameBufferInfo, p: Pixel) -> int {
    (p.y * info.stride + p.x) * info.bytes_per_pixel
}

/// Point `p` can be written to a buffer of `len` bytes.
pub open spec fn pixel_fits(info: FrameBufferInfo, len: int, p: Pixel) -> bool {
    &&& info.bytes_per_pixel <= 4
    &&& p.y * info.stride + p.x <= usize::MAX
    &&& pixel_offset(info, p) + info.bytes_per_pixel <= len
}

/// `buf` with point `p` written into it.
pub open spec fn put_pixel(buf: Seq<u8>, info: FrameBufferInfo, p: Pixel) -> Seq<u8> {
    let off = pixel_offset(info, p);
    let color = pixel_color(info.pixel_format, p.intensity);
    Seq::new(buf.len(), |j: int| if off <= j < off + info.bytes_per_pixel { color[j - off] } else { buf[j] })
}

/// `buf` with the points written into it in order.
pub open spec fn paint(buf: Seq<u8>, info: FrameBufferInfo, points: Seq<Pixel>) -> Seq<u8>
    decreases points.len(),
{
    if points.len() == 0 {
        buf
    } else {
        put_pixel(paint(buf, info, points.drop_last()), info, points.last())
    }
}

/// Point `p` lies in the box `b`, edges included.
pub open spec fn inside(p: Pixel, b: (int, int, int, int)) -> bool {
    b.0 <= p.x && b.1 <= p.y && p.x <= b.2 && p.y <= b.3
}

/// The box `b` with `pad` taken off each side.
pub open spec fn padded(b: (usize, usize, usize, usize), pad: usize) -> (int, int, int, int) {
    (b.0 + pad, b.1 + pad, b.2 - pad, b.3 - pad)
}

/// A screen whose pixels are the bytes of `framebuffer`, laid out as `info`
/// says.
pub struct Framebuffer {
    framebuffer: Vec<u8>,
    info: FrameBufferInfo,
    x_pos: usize,
    y_pos: usize,
}

impl Framebuffer {
    /// The bytes of the screen.
    pub closed spec fn spec_buffer(&self) -> Seq<u8> {
        self.framebuffer@
    }

    /// The layout of the screen.
    pub closed spec fn spec_info(&self) -> FrameBufferInfo {
        self.info
    }

    /// Where text would go next.
    pub closed spec fn spec_pos(&self) -> (usize, usize) {
        (self.x_pos, self.y_pos)
    }

    /// A screen on `framebuffer`, cleared.
    pub fn new(framebuffer: Vec<u8>, info: FrameBufferInfo) -> (r: Self)
        ensures
            r.spec_buffer() == Seq::new(framebuffer@.len(), |i: int| 0u8),
            r.spec_info() == info,
            r.spec_pos() == (0usize, 0usize),
    {
        let mut logger = Framebuffer { framebuffer, info, x_pos: 0, y_pos: 0 };
        logger.clear();
        logger
    }

    /// Draws the points of `obj`, as long as they lie inside its box less
    /// its padding: the first one that does not ends the drawing with an
    /// error. A box that reaches past both the width and the height of the
    /// screen is refused before anything is drawn.
    pub fn draw<D: Drawable>(&mut self, obj: &D) -> (r: Result<(), ()>)
        requires
            obj.drawable(),
            !(obj.spec_box().2 >= old(self).spec_info().horizontal_resolution
                && obj.spec_box().3 >= old(self).spec_info().vertical_resolution) ==> {
                let b = obj.spec_box();
                let pad = obj.spec_padding();
                &&& b.0 + pad <= usize::MAX
                &&& b.1 + pad <= usize::MAX
                &&& pad <= b.2
                &&& pad <= b.3
                &&& forall|k: int| 0 <= k < obj.spec_points().len()
                    && (forall|j: int| 0 <= j <= k ==> inside(#[trigger] obj.spec_points()[j], padded(b, pad)))
                    ==> pixel_fits(old(self).spec_info(), old(self).spec_buffer().len() as int, obj.spec_points()[k])
            },
        ensures
            final(self).spec_info() == old(self).spec_info(),
            final(self).spec_pos() == old(self).spec_pos(),
            ({
                let b = obj.spec_box();
                let pts = obj.spec_points();
                let pb = padded(b, obj.spec_padding());
                if b.2 >= old(self).spec_info().horizontal_resolution && b.3 >= old(self).spec_info().vertical_resolution {
                    r is Err && final(self).spec_buffer() == old(self).spec_buffer()
                } else {
                    &&& r is Ok <==> forall|j: int| 0 <= j < pts.len() ==> inside(#[trigger] pts[j], pb)
                    &&& r is Ok ==> final(self).spec_buffer() == paint(old(self).spec_buffer(), old(self).spec_info(), pts)
                    &&& r is Err ==> exists|k: int| 0 <= k < pts.len() && !inside(#[trigger] pts[k], pb)
                        && (forall|j: int| 0 <= j < k ==> inside(pts[j], pb))
                        && final(self).spec_buffer() == paint(old(self).spec_buffer(), old(self).spec_info(), pts.take(k))
                }
            }),
    {
        let (x_t, y_t, x_b, y_b) = obj.draw_box();
        if x_b >= self.info.horizontal_resolution && y_b >= self.info.vertical_resolution {
            return Err(());
        }
        let pad = obj.padding();
        let (x_t, y_t, x_b, y_b) = (x_t + pad, y_t + pad, x_b - pad, y_b - pad);
        let ghost pb = padded(obj.spec_box(), pad);
        let points = obj.points();
        let n = points.len();
        let mut i: usize = 0;
        while i < n
            invariant
                i <= n,
                n == points@.len(),
                points@ == obj.spec_points(),
                pb == (x_t as int, y_t as int, x_b as int, y_b as int),
                pb == padded(obj.spec_box(), obj.spec_padding()),
                !(obj.spec_box().2 >= old(self).info.horizontal_resolution && obj.spec_box().3 >= old(self).info.vertical_resolution),
                self.info == old(self).info,
                self.x_pos == old(self).x_pos,
                self.y_pos == old(self).y_pos,
                self.framebuffer@.len() == old(self).framebuffer@.len(),
                forall|j: int| 0 <= j < i ==> inside(#[trigger] points@[j], pb),
                self.framebuffer@ == paint(old(self).framebuffer@, self.info, points@.take(i as int)),
                forall|k: int| 0 <= k < points@.len()
                    && (forall|j: int| 0 <= j <= k ==> inside(#[trigger] points@[j], pb))
                    ==> pixel_fits(old(self).info, old(self).framebuffer@.len() as int, points@[k]),
            decreases n - i,
        {
            let p = points[i];
            if p.x >= x_t && p.y >= y_t && p.x <= x_b && p.y <= y_b {
                proof {
                    assert(forall|j: int| 0 <= j <= i ==> inside(#[trigger] points@[j], pb));
                }
                self.write_pixel(p.x, p.y, p.intensity);
                proof {
                    assert(points@.take(i + 1).drop_last() =~= points@.take(i as int));
                }
                i = i + 1;
            } else {
                proof {
                    assert(!inside(obj.spec_points()[i as int], pb));
                    assert(forall|j: int| 0 <= j < i ==> inside(obj.spec_points()[j], pb));
                }
                return Err(());
            }
        }
        proof {
            assert(points@.take(n as int) =~= points@);
        }
        Ok(())
    }

    /// Erases the screen.
    pub fn clear(&mut self)
        ensures
            final(self).spec_buffer() == Seq::new(old(self).spec_buffer().len(), |i: int| 0u8),
            final(self).spec_info() == old(self).spec_info(),
            final(self).spec_pos() == (0usize, 0usize),
    {
        self.x_pos = 0;
        self.y_pos = 0;
        let n = self.framebuffer.len();
        let mut i: usize = 0;
        while i < n
            invariant
                i <= n,
                n == self.framebuffer@.len(),
                self.framebuffer@.len() == old(self).framebuffer@.len(),
                self.info == old(self).info,
                self.x_pos == 0 && self.y_pos == 0,
                forall|k: int| 0 <= k < i ==> self.framebuffer@[k] == 0u8,
            decreases n - i,
        {
            self.framebuffer.set(i, 0);
            i = i + 1;
        }
        proof {
            assert(self.framebuffer@ =~= Seq::new(old(self).framebuffer@.len(), |i: int| 0u8));
        }
    }

    /// The bytes of the screen.
    pub fn buffer(&self) -> (r: &Vec<u8>)
        ensures
            r@ == self.spec_buffer(),
    {
        &self.framebuffer
    }

    /// Width of the screen in pixels.
    pub fn width(&self) -> (r: usize)
        ensures
            r == self.spec_info().horizontal_resolution,
    {
        self.info.horizontal_resolution
    }

    /// Height of the screen in pixels.
    pub fn height(&self) -> (r: usize)
        ensures
            r == self.spec_info().vertical_resolution,
    {
        self.info.vertical_resolution
    }

    /// Writes the point at `(x, y)` with the given intensity.
    pub fn write_pixel(&mut self, x: usize, y: usize, intensity: u8)
        requires
            pixel_fits(old(self).spec_info(), old(self).spec_buffer().len() as int, Pixel { x, y, intensity }),
        ensures
            final(self).spec_buffer() == put_pixel(old(self).spec_buffer(), old(self).spec_info(), Pixel { x, y, intensity }),
            final(self).spec_info() == old(self).spec_info(),
            final(self).spec_pos() == old(self).spec_pos(),
    {
        proof {
            assert(y * self.info.stride <= y * self.info.stride + x);
            assert((y * self.info.stride + x) * self.info.bytes_per_pixel + self.info.bytes_per_pixel <= self.framebuffer@.len());
        }
        let pix = y * self.info.stride + x;
        let color: [u8; 4] = match self.info.pixel_format {
            PixelFormat::RGB => [intensity, intensity, intensity / 2, 0],
            PixelFormat::BGR => [intensity / 2, intensity, intensity, 0],
            PixelFormat::U8 => [if intensity > 200 { 0xf } else { 0 }, 0, 0, 0],
        };
        let bytes_per_pixel = self.info.bytes_per_pixel;
        let blen = self.framebuffer.len();
        proof {
            assert(pix * bytes_per_pixel + bytes_per_pixel <= blen);
            assert(pix * bytes_per_pixel <= usize::MAX) by (nonlinear_arith)
                requires
                    pix * bytes_per_pixel + bytes_per_pixel <= blen,
                    blen <= usize::MAX;
        }
        let byte_offset = pix * bytes_per_pixel;
        let ghost col = pixel_color(self.info.pixel_format, intensity);
        proof {
            assert(color@ =~= col);
        }
        let mut k: usize = 0;
        while k < bytes_per_pixel
            invariant
                k <= bytes_per_pixel <= 4,
                byte_offset + bytes_per_pixel <= blen,
                blen == self.framebuffer@.len(),
                byte_offset == pixel_offset(old(self).info, Pixel { x, y, intensity }),
                bytes_per_pixel == self.info.bytes_per_pixel,
                color@ == col,
                col == pixel_color(self.info.pixel_format, intensity),
                self.info == old(self).info,
                self.x_pos == old(self).x_pos,
                self.y_pos == old(self).y_pos,
                self.framebuffer@.len() == old(self).framebuffer@.len(),
                forall|j: int| 0 <= j < self.framebuffer@.len() ==> #[trigger] self.framebuffer@[j] == if byte_offset <= j < byte_offset + k {
                    col[j - byte_offset]
                } else {
                    old(self).framebuffer@[j]
                },
            decreases bytes_per_pixel - k,
        {
            self.framebuffer.set(byte_offset + k, color[k]);
            k = k + 1;
        }
        proof {
            assert(self.framebuffer@ =~= put_pixel(old(self).framebuffer@, self.info, Pixel { x, y, intensity }));
        }
    }
}

} // verus!
