use vstd::prelude::*;

verus! {

/// Row-major position of pixel `(x, y)` in a frame that is `width` pixels wide.
pub open spec fn pixel_index(width: int, x: int, y: int) -> int {
    y * width + x
}

/// Whether `(x, y)` names a pixel of a `width` x `height` frame.
pub open spec fn in_frame(width: int, height: int, x: int, y: int) -> bool {
    0 <= x < width && 0 <= y < height
}

/// What reading pixel `(x, y)` of a frame gives: its color, or `None` outside the frame.
pub open spec fn read_pixel(pixels: Seq<u32>, width: int, height: int, x: int, y: int) -> Option<u32> {
    if in_frame(width, height, x, y) {
        Some(pixels[pixel_index(width, x, y)])
    } else {
        None
    }
}

/// The pixels of a frame after writing `color` at `(x, y)`; a write outside the frame changes nothing.
pub open spec fn write_pixel(
    pixels: Seq<u32>,
    width: int,
    height: int,
    x: int,
    y: int,
    color: u32,
) -> Seq<u32> {
    if in_frame(width, height, x, y) {
        pixels.update(pixel_index(width, x, y), color)
    } else {
        pixels
    }
}

/// A frame of `width` x `height` pixels of one color.
pub open spec fn solid_frame(width: nat, height: nat, color: u32) -> Seq<u32> {
    Seq::new(width * height, |i: int| color)
}

/// The shape every frame keeps: non-zero dimensions and one pixel per position.
pub open spec fn frame_shape(width: nat, height: nat, pixels: Seq<u32>) -> bool {
    &&& width > 0
    &&& height > 0
    &&& pixels.len() == width * height
}

/// Pixel `(x, y)` of an in-frame position sits inside the pixel sequence,
/// and distinct positions sit at distinct places.
pub proof fn lemma_pixel_index(width: int, height: int, x: int, y: int)
    requires
        in_frame(width, height, x, y),
    ensures
        0 <= y * width <= pixel_index(width, x, y) < width * height,
        forall|x2: int, y2: int|
            #![trigger pixel_index(width, x2, y2)]
            in_frame(width, height, x2, y2) && (x2 != x || y2 != y) ==> pixel_index(width, x2, y2)
                != pixel_index(width, x, y),
{
    assert(0 <= y * width && y * width + x < width * height) by (nonlinear_arith)
        requires
            0 <= x < width,
            0 <= y < height,
    ;
    assert forall|x2: int, y2: int|
        #![trigger pixel_index(width, x2, y2)]
        in_frame(width, height, x2, y2) && (x2 != x || y2 != y) implies pixel_index(width, x2, y2)
            != pixel_index(width, x, y) by {
        if y2 == y {
        } else if y2 < y {
            assert(y2 * width + x2 < y * width + x) by (nonlinear_arith)
                requires
                    0 <= x2 < width,
                    0 <= x < width,
                    y2 < y,
            ;
        } else {
            assert(y * width + x < y2 * width + x2) by (nonlinear_arith)
                requires
                    0 <= x2 < width,
                    0 <= x < width,
                    y < y2,
            ;
        }
    }
}

/// Reading a pixel right after writing it gives the written color, and a write
/// leaves every other pixel, and the frame's shape, as they were.
pub proof fn lemma_read_after_write(
    pixels: Seq<u32>,
    width: nat,
    height: nat,
    x: int,
    y: int,
    color: u32,
    x2: int,
    y2: int,
)
    requires
        frame_shape(width, height, pixels),
    ensures
        frame_shape(width, height, write_pixel(pixels, width as int, height as int, x, y, color)),
        in_frame(width as int, height as int, x, y) ==> read_pixel(
            write_pixel(pixels, width as int, height as int, x, y, color),
            width as int,
            height as int,
            x,
            y,
        ) == Some(color),
        (x2 != x || y2 != y) ==> read_pixel(
            write_pixel(pixels, width as int, height as int, x, y, color),
            width as int,
            height as int,
            x2,
            y2,
        ) == read_pixel(pixels, width as int, height as int, x2, y2),
{
    if in_frame(width as int, height as int, x, y) {
        lemma_pixel_index(width as int, height as int, x, y);
        if in_frame(width as int, height as int, x2, y2) {
            lemma_pixel_index(width as int, height as int, x2, y2);
        }
    }
}

/// A write outside the frame changes nothing.
pub proof fn lemma_write_outside(pixels: Seq<u32>, width: nat, height: nat, x: int, y: int, color: u32)
    requires
        !in_frame(width as int, height as int, x, y),
    ensures
        write_pixel(pixels, width as int, height as int, x, y, color) == pixels,
{
}

/// After clearing to `color`, every pixel of the frame reads `color`, and
/// every position outside it reads nothing.
pub proof fn lemma_read_after_clear(width: nat, height: nat, color: u32, x: int, y: int)
    ensures
        width > 0 && height > 0 ==> frame_shape(width, height, solid_frame(width, height, color)),
        read_pixel(solid_frame(width, height, color), width as int, height as int, x, y) == if in_frame(
            width as int,
            height as int,
            x,
            y,
        ) {
            Some(color)
        } else {
            None::<u32>
        },
{
    if in_frame(width as int, height as int, x, y) {
        lemma_pixel_index(width as int, height as int, x, y);
    }
}

/// A frame buffer whose pixels are consistent with its dimensions.
pub open spec fn frame_ok<F: FrameBuffer + ?Sized>(fb: &F) -> bool {
    frame_shape(fb.frame_width(), fb.frame_height(), fb.frame_pixels())
}

/// Pixel buffer abstraction; all pixels are in ARGB format (`0xAARRGGBB`).
///
/// A buffer is viewed as its dimensions and its row-major pixel sequence.
pub trait FrameBuffer {
    /// Width of the buffer in pixels.
    spec fn frame_width(&self) -> nat;

    /// Height of the buffer in pixels.
    spec fn frame_height(&self) -> nat;

    /// The pixels, row by row.
    spec fn frame_pixels(&self) -> Seq<u32>;

    /// Returns the width of the buffer in pixels.
    fn width(&self) -> (w: usize)
        requires
            frame_shape(self.frame_width(), self.frame_height(), self.frame_pixels()),
        ensures
            w == self.frame_width(),
    ;

    /// Returns the height of the buffer in pixels.
    fn height(&self) -> (h: usize)
        requires
            frame_shape(self.frame_width(), self.frame_height(), self.frame_pixels()),
        ensures
            h == self.frame_height(),
    ;

    /// Clears the entire buffer with the given color.
    fn clear(&mut self, color: u32)
        requires
            frame_shape(old(self).frame_width(), old(self).frame_height(), old(self).frame_pixels()),
        ensures
            frame_shape(final(self).frame_width(), final(self).frame_height(), final(self).frame_pixels()),
            final(self).frame_width() == old(self).frame_width(),
            final(self).frame_height() == old(self).frame_height(),
            final(self).frame_pixels() == solid_frame(
                old(self).frame_width(),
                old(self).frame_height(),
                color,
            ),
    ;

    /// Sets the pixel at `(x, y)` to `color`; does nothing if `(x, y)` is out of bounds.
    fn set_pixel(&mut self, x: usize, y: usize, color: u32)
        requires
            frame_shape(old(self).frame_width(), old(self).frame_height(), old(self).frame_pixels()),
        ensures
            frame_shape(final(self).frame_width(), final(self).frame_height(), final(self).frame_pixels()),
            final(self).frame_width() == old(self).frame_width(),
            final(self).frame_height() == old(self).frame_height(),
            final(self).frame_pixels() == write_pixel(
                old(self).frame_pixels(),
                old(self).frame_width() as int,
                old(self).frame_height() as int,
                x as int,
                y as int,
                color,
            ),
    ;

    /// Gets the pixel color at `(x, y)`; `None` if `(x, y)` is out of bounds.
    fn get_pixel(&self, x: usize, y: usize) -> (p: Option<u32>)
        requires
            frame_shape(self.frame_width(), self.frame_height(), self.frame_pixels()),
        ensures
            p == read_pixel(
                self.frame_pixels(),
                self.frame_width() as int,
                self.frame_height() as int,
                x as int,
                y as int,
            ),
    ;

    /// The underlying pixels, row by row.
    fn buffer(&self) -> (b: &[u32])
        requires
            frame_shape(self.frame_width(), self.frame_height(), self.frame_pixels()),
        ensures
            b@ == self.frame_pixels(),
    ;

    /// The underlying pixels, row by row, for writing in place.
    fn buffer_mut(&mut self) -> (b: &mut [u32])
        requires
            frame_shape(old(self).frame_width(), old(self).frame_height(), old(self).frame_pixels()),
        ensures
            b@ == old(self).frame_pixels(),
            final(self).frame_pixels() == final(b)@,
            final(self).frame_width() == old(self).frame_width(),
            final(self).frame_height() == old(self).frame_height(),
    ;
}

/// Frame buffer held in memory, with no window behind it.
pub struct HeadlessBuffer {
    width: usize,
    height: usize,
    pixels: Vec<u32>,
}

impl HeadlessBuffer {
    /// Creates a `width` x `height` buffer filled with opaque black.
    pub fn new(width: usize, height: usize) -> (buf: Self)
        requires
            width > 0,
            height > 0,
            width * height <= usize::MAX,
        ensures
            frame_ok(&buf),
            buf.frame_width() == width,
            buf.frame_height() == height,
            buf.frame_pixels() == solid_frame(width as nat, height as nat, 0xFF00_0000u32),
    {
        let n: usize = width * height;
        let mut pixels: Vec<u32> = Vec::new();
        for i in 0..n
            invariant
                pixels@ == Seq::new(i as nat, |k: int| 0xFF00_0000u32),
        {
            pixels.push(0xFF00_0000u32);
        }
        HeadlessBuffer { width, height, pixels }
    }
}

impl FrameBuffer for HeadlessBuffer {
    closed spec fn frame_width(&self) -> nat {
        self.width as nat
    }

    closed spec fn frame_height(&self) -> nat {
        self.height as nat
    }

    closed spec fn frame_pixels(&self) -> Seq<u32> {
        self.pixels@
    }

    fn width(&self) -> (w: usize) {
        self.width
    }

    fn height(&self) -> (h: usize) {
        self.height
    }

    fn clear(&mut self, color: u32) {
        let n = self.pixels.len();
        for i in 0..n
            invariant
                n == self.pixels@.len(),
                n == old(self).pixels@.len(),
                self.width == old(self).width,
                self.height == old(self).height,
                forall|k: int| 0 <= k < i ==> self.pixels@[k] == color,
        {
            self.pixels[i] = color;
        }
        assert(self.pixels@ == solid_frame(self.width as nat, self.height as nat, color));
    }

    fn set_pixel(&mut self, x: usize, y: usize, color: u32) {
        if x < self.width && y < self.height {
            proof {
                lemma_pixel_index(self.width as int, self.height as int, x as int, y as int);
                assert(self.pixels.len() == self.pixels@.len());
            }
            let index = y * self.width + x;
            self.pixels[index] = color;
        }
    }

    fn get_pixel(&self, x: usize, y: usize) -> (p: Option<u32>) {
        if x < self.width && y < self.height {
            proof {
                lemma_pixel_index(self.width as int, self.height as int, x as int, y as int);
                assert(self.pixels.len() == self.pixels@.len());
            }
            let index = y * self.width + x;
            Some(self.pixels[index])
        } else {
            None
        }
    }

    fn buffer(&self) -> (b: &[u32]) {
        self.pixels.as_slice()
    }

    fn buffer_mut(&mut self) -> (b: &mut [u32]) {
        self.pixels.as_mut_slice()
    }
}

} // verus!
