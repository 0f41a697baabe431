//! An owned RGBA8 pixel buffer with pixel access and blitting.

use vstd::prelude::*;

verus! {

/// The layout of an image's pixel buffer.
#[derive(Clone, Copy, Debug, PartialEq, Eq, Structural)]
pub enum ImageFormat {
    /// Four bytes per pixel: red, green, blue, alpha.
    Rgba8,
}

impl ImageFormat {
    /// The number of bytes per pixel.
    pub fn stride(&self) -> (r: u32)
        ensures
            r == 4,
    {
        match self {
            ImageFormat::Rgba8 => 4,
        }
    }
}

/// One RGBA8 pixel.
#[derive(Clone, Copy, Debug, PartialEq, Eq, Structural)]
pub struct Pixel {
    pub r: u8,
    pub g: u8,
    pub b: u8,
    pub a: u8,
}

impl Pixel {
    pub fn new(r: u8, g: u8, b: u8, a: u8) -> (p: Pixel)
        ensures
            p == (Pixel { r, g, b, a }),
    {
        Pixel { r, g, b, a }
    }
}

/// The mathematical value of an image: its size and its bytes, row by row,
/// four bytes per pixel.
pub struct ImageModel {
    pub size: (u32, u32),
    pub data: Seq<u8>,
}

impl ImageModel {
    pub open spec fn in_bounds(&self, x: int, y: int) -> bool {
        0 <= x < self.size.0 && 0 <= y < self.size.1
    }

    /// Where the bytes of pixel `(x, y)` start.
    pub open spec fn offset(&self, x: int, y: int) -> int {
        4 * (x + y * self.size.0)
    }

    pub open spec fn pixel(&self, x: int, y: int) -> Pixel {
        let i = self.offset(x, y);
        Pixel { r: self.data[i], g: self.data[i + 1], b: self.data[i + 2], a: self.data[i + 3] }
    }

    /// The image with pixel `(x, y)` replaced.
    pub open spec fn with_pixel(&self, x: int, y: int, p: Pixel) -> ImageModel {
        let i = self.offset(x, y);
        ImageModel {
            size: self.size,
            data: self.data.update(i, p.r).update(i + 1, p.g).update(i + 2, p.b).update(i + 3, p.a),
        }
    }

    /// The buffer holds exactly four bytes for every pixel.
    pub open spec fn well_formed(&self) -> bool {
        self.data.len() == 4 * (self.size.0 * self.size.1)
    }

    /// Every pixel of `self` equals the one of `other` at the same place.
    pub open spec fn same_pixels(&self, other: ImageModel) -> bool {
        &&& self.size == other.size
        &&& forall|x: int, y: int| self.in_bounds(x, y) ==> #[trigger] self.pixel(x, y) == other.pixel(x, y)
    }
}

/// Pixel offsets are in the buffer, and distinct pixels own distinct bytes.
pub proof fn lemma_offsets(m: ImageModel, x1: int, y1: int, x2: int, y2: int)
    requires
        m.well_formed(),
        m.in_bounds(x1, y1),
        m.in_bounds(x2, y2),
    ensures
        0 <= m.offset(x1, y1),
        m.offset(x1, y1) + 4 <= m.data.len(),
        (x1, y1) != (x2, y2) ==> (m.offset(x1, y1) + 4 <= m.offset(x2, y2) || m.offset(x2, y2) + 4
            <= m.offset(x1, y1)),
{
    let w = m.size.0 as int;
    let h = m.size.1 as int;
    assert(0 <= x1 + y1 * w < w * h) by (nonlinear_arith)
        requires
            0 <= x1 < w,
            0 <= y1 < h,
    ;
    if y1 < y2 {
        assert(x1 + y1 * w < x2 + y2 * w) by (nonlinear_arith)
            requires
                0 <= x1 < w,
                0 <= x2,
                y1 < y2,
        ;
    } else if y2 < y1 {
        assert(x2 + y2 * w < x1 + y1 * w) by (nonlinear_arith)
            requires
                0 <= x2 < w,
                0 <= x1,
                y2 < y1,
        ;
    }
}

/// Replacing one pixel leaves every other pixel as it was.
pub proof fn lemma_with_pixel(m: ImageModel, x: int, y: int, p: Pixel)
    requires
        m.well_formed(),
        m.in_bounds(x, y),
    ensures
        m.with_pixel(x, y, p).well_formed(),
        m.with_pixel(x, y, p).pixel(x, y) == p,
        forall|x2: int, y2: int|
            m.in_bounds(x2, y2) && (x2, y2) != (x, y) ==> #[trigger] m.with_pixel(x, y, p).pixel(x2, y2)
                == m.pixel(x2, y2),
{
    lemma_offsets(m, x, y, x, y);
    assert forall|x2: int, y2: int|
        m.in_bounds(x2, y2) && (x2, y2) != (x, y) implies #[trigger] m.with_pixel(x, y, p).pixel(x2, y2)
        == m.pixel(x2, y2) by {
        lemma_offsets(m, x, y, x2, y2);
        lemma_offsets(m, x2, y2, x, y);
    }
}

/// An RGBA8 image that owns its pixel buffer.
#[derive(Debug)]
pub struct Image {
    size: (u32, u32),
    data: Vec<u8>,
    format: ImageFormat,
}

impl View for Image {
    type V = ImageModel;

    closed spec fn view(&self) -> ImageModel {
        ImageModel { size: self.size, data: self.data@ }
    }
}

impl Image {
    /// An image over `data`, which must hold four bytes for each pixel.
    pub fn new_rgba8(size: (u32, u32), data: Vec<u8>) -> (r: Image)
        requires
            data@.len() == 4 * (size.0 * size.1),
        ensures
            r@ == (ImageModel { size, data: data@ }),
            r@.well_formed(),
    {
        Image { size, data, format: ImageFormat::Rgba8 }
    }

    /// A fully transparent black image.
    pub fn new_empty_rgba8(size: (u32, u32)) -> (r: Image)
        requires
            4 * (size.0 * size.1) <= usize::MAX,
        ensures
            r@.well_formed(),
            r@.size == size,
            r@.data == Seq::new((4 * (size.0 * size.1)) as nat, |i: int| 0u8),
    {
        let stride = ImageFormat::Rgba8.stride();
        assert(size.0 as usize * size.1 as usize * stride as usize == 4 * (size.0 * size.1)) by (nonlinear_arith)
            requires
                4 * (size.0 * size.1) <= usize::MAX,
                stride == 4,
        ;
        let len = size.0 as usize * size.1 as usize * stride as usize;
        let data: Vec<u8> = vec![0u8; len];
        proof {
            assert(data@ =~= Seq::new((4 * (size.0 * size.1)) as nat, |i: int| 0u8));
        }
        Image::new_rgba8(size, data)
    }

    pub fn size(&self) -> (r: (u32, u32))
        ensures
            r == self@.size,
            self@.well_formed() ==> 4 * (r.0 * r.1) <= usize::MAX,
    {
        // Asking for the length brings in that it fits in `usize`.
        let _buffer_len = self.data.len();
        self.size
    }

    /// The pixel bytes, row by row, four per pixel.
    pub fn as_bytes(&self) -> (r: &[u8])
        ensures
            r@ == self@.data,
    {
        self.data.as_slice()
    }

    fn offset(&self, pos: (u32, u32)) -> (r: usize)
        requires
            self@.well_formed(),
            self@.in_bounds(pos.0 as int, pos.1 as int),
        ensures
            r == self@.offset(pos.0 as int, pos.1 as int),
            r + 4 <= self@.data.len(),
    {
        proof {
            lemma_offsets(self@, pos.0 as int, pos.1 as int, pos.0 as int, pos.1 as int);
        }
        // Asking for the length brings in that it fits in `usize`.
        let _buffer_len = self.data.len();
        let stride = self.format.stride() as usize;
        let w = self.size.0 as usize;
        let row_start = pos.1 as usize * w;
        stride * (pos.0 as usize + row_start)
    }

    pub fn get_pixel(&self, pos: (u32, u32)) -> (r: Pixel)
        requires
            self@.well_formed(),
            self@.in_bounds(pos.0 as int, pos.1 as int),
        ensures
            r == self@.pixel(pos.0 as int, pos.1 as int),
    {
        let start = self.offset(pos);
        Pixel { r: self.data[start], g: self.data[start + 1], b: self.data[start + 2], a: self.data[start + 3] }
    }

    pub fn set_pixel(&mut self, pos: (u32, u32), pixel: Pixel)
        requires
            old(self)@.well_formed(),
            old(self)@.in_bounds(pos.0 as int, pos.1 as int),
        ensures
            final(self)@.well_formed(),
            final(self)@ == old(self)@.with_pixel(pos.0 as int, pos.1 as int, pixel),
    {
        let start = self.offset(pos);
        self.data.set(start, pixel.r);
        self.data.set(start + 1, pixel.g);
        self.data.set(start + 2, pixel.b);
        self.data.set(start + 3, pixel.a);
    }

    /// Copies all of `other` into this image with its top-left corner at
    /// `pos`, overwriting the covered pixels, alpha included.
    pub fn blit(&mut self, other: &Image, pos: (u32, u32))
        requires
            old(self)@.well_formed(),
            other@.well_formed(),
            pos.0 + other@.size.0 <= old(self)@.size.0,
            pos.1 + other@.size.1 <= old(self)@.size.1,
        ensures
            final(self)@.well_formed(),
            final(self)@.size == old(self)@.size,
            forall|x: int, y: int|
                old(self)@.in_bounds(x, y) ==> #[trigger] final(self)@.pixel(x, y) == if pos.0 <= x < pos.0
                    + other@.size.0 && pos.1 <= y < pos.1 + other@.size.1 {
                    other@.pixel(x - pos.0, y - pos.1)
                } else {
                    old(self)@.pixel(x, y)
                },
    {
        let ghost before = self@;
        let (w, h) = other.size;
        let mut oy: u32 = 0;
        while oy < h
            invariant
                0 <= oy <= h,
                (w, h) == other@.size,
                self@.well_formed(),
                other@.well_formed(),
                pos.0 + w <= before.size.0,
                pos.1 + h <= before.size.1,
                self@.size == before.size,
                forall|x: int, y: int|
                    before.in_bounds(x, y) ==> #[trigger] self@.pixel(x, y) == if pos.0 <= x < pos.0 + w && pos.1
                        <= y < pos.1 + oy {
                        other@.pixel(x - pos.0, y - pos.1)
                    } else {
                        before.pixel(x, y)
                    },
            decreases h - oy,
        {
            let mut ox: u32 = 0;
            while ox < w
                invariant
                    0 <= ox <= w,
                    0 <= oy < h,
                    (w, h) == other@.size,
                    self@.well_formed(),
                    other@.well_formed(),
                    pos.0 + w <= before.size.0,
                    pos.1 + h <= before.size.1,
                    self@.size == before.size,
                    forall|x: int, y: int|
                        before.in_bounds(x, y) ==> #[trigger] self@.pixel(x, y) == if (pos.0 <= x < pos.0 + w
                            && pos.1 <= y < pos.1 + oy) || (pos.0 <= x < pos.0 + ox && y == pos.1 + oy) {
                            other@.pixel(x - pos.0, y - pos.1)
                        } else {
                            before.pixel(x, y)
                        },
                decreases w - ox,
            {
                let p = other.get_pixel((ox, oy));
                let ghost prev = self@;
                proof {
                    lemma_with_pixel(prev, (pos.0 + ox) as int, (pos.1 + oy) as int, p);
                }
                self.set_pixel((pos.0 + ox, pos.1 + oy), p);

                ox = ox + 1;
            }
            oy = oy + 1;
        }
    }
}

} // verus!
