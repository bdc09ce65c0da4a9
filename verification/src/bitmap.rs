//! The bitmap that regions are painted on: an RGBA buffer of the `image` crate,
//! known to the verifier by its extent and by the colour of each pixel.

use image::ImageBuffer;
use image::Rgba;
use imageproc::drawing::draw_filled_circle_mut;
use imageproc::drawing::draw_polygon_mut;
use imageproc::drawing::Canvas;
use imageproc::point::Point;
use vstd::prelude::*;

verus! {

/// One pixel value: red, green, blue and alpha.
#[derive(Clone, Copy, Debug, PartialEq, Eq, Structural)]
pub struct Color {
    pub r: u8,
    pub g: u8,
    pub b: u8,
    pub a: u8,
}

/// The reserved colour that marks a pixel as painted.
pub open spec fn spec_draw_color() -> Color {
    Color { r: 88, g: 96, b: 117, a: 255 }
}

/// The reserved colour that marks a pixel as painted.
#[verifier::when_used_as_spec(spec_draw_color)]
pub fn draw_color() -> (c: Color)
    ensures
        c == spec_draw_color(),
{
    Color { r: 88, g: 96, b: 117, a: 255 }
}

/// The colour of a cleared pixel: every channel zero.
pub open spec fn spec_transparent() -> Color {
    Color { r: 0, g: 0, b: 0, a: 0 }
}

/// The colour of a cleared pixel: every channel zero.
#[verifier::when_used_as_spec(spec_transparent)]
pub fn transparent() -> (c: Color)
    ensures
        c == spec_transparent(),
{
    Color { r: 0, g: 0, b: 0, a: 0 }
}

/// A grid of RGBA pixels of fixed width and height. It owns an
/// `image::ImageBuffer<Rgba<u8>, Vec<u8>>`, which the verifier does not look into.
#[verifier::external_body]
pub struct Bitmap {
    buffer: ImageBuffer<Rgba<u8>, Vec<u8>>,
}

/// Width and height of a bitmap, in pixels.
pub uninterp spec fn bitmap_extent(bitmap: Bitmap) -> (nat, nat);

/// The colour of each pixel of a bitmap, by column and row.
pub uninterp spec fn bitmap_pixels(bitmap: Bitmap) -> Map<(int, int), Color>;

/// The colour that four consecutive bytes of a row-major RGBA buffer of the
/// given width give to the pixel in column `x` of row `y`.
pub open spec fn color_in(data: Seq<u8>, width: int, x: int, y: int) -> Color {
    let at = 4 * (y * width + x);
    Color { r: data[at], g: data[at + 1], b: data[at + 2], a: data[at + 3] }
}

/// Calls `ImageBuffer::from_raw`, which accepts a buffer exactly when it holds
/// four bytes for each pixel of the extent, and reads pixel `(x, y)` from the
/// four bytes that start at `4 * (y * width + x)`.
#[verifier::external_body]
fn buffer_from_raw(width: u32, height: u32, data: Vec<u8>) -> (made: Option<Bitmap>)
    ensures
        made is Some <==> 4 * width * height <= data.len(),
        made matches Some(bitmap) ==> {
            &&& bitmap_extent(bitmap) == (width as nat, height as nat)
            &&& forall|x: int, y: int|
                0 <= x < width && 0 <= y < height ==> #[trigger] bitmap_pixels(bitmap)[(x, y)]
                    == color_in(data@, width as int, x, y)
        },
{
    match ImageBuffer::from_raw(width, height, data) {
        Some(buffer) => Some(Bitmap { buffer }),
        None => None,
    }
}

/// Calls `ImageBuffer::into_raw`, which hands out the underlying bytes: at least
/// four for each pixel, pixel `(x, y)` in the four that start at
/// `4 * (y * width + x)`.
#[verifier::external_body]
fn buffer_into_raw(bitmap: Bitmap) -> (data: Vec<u8>)
    ensures
        4 * bitmap_extent(bitmap).0 * bitmap_extent(bitmap).1 <= data.len(),
        forall|x: int, y: int|
            0 <= x < bitmap_extent(bitmap).0 && 0 <= y < bitmap_extent(bitmap).1
                ==> #[trigger] color_in(data@, bitmap_extent(bitmap).0 as int, x, y)
                == bitmap_pixels(bitmap)[(x, y)],
{
    bitmap.buffer.into_raw()
}

/// Calls `ImageBuffer::width`: the first component of the extent.
#[verifier::external_body]
fn buffer_width(bitmap: &Bitmap) -> (w: u32)
    ensures
        w == bitmap_extent(*bitmap).0,
{
    bitmap.buffer.width()
}

/// Calls `ImageBuffer::height`: the second component of the extent.
#[verifier::external_body]
fn buffer_height(bitmap: &Bitmap) -> (h: u32)
    ensures
        h == bitmap_extent(*bitmap).1,
{
    bitmap.buffer.height()
}

/// Calls `ImageBuffer::get_pixel`, which panics outside the extent: inside it,
/// the result is the colour that the buffer holds at that column and row.
#[verifier::external_body]
fn buffer_get(bitmap: &Bitmap, x: u32, y: u32) -> (c: Color)
    requires
        x < bitmap_extent(*bitmap).0,
        y < bitmap_extent(*bitmap).1,
    ensures
        c == bitmap_pixels(*bitmap)[(x as int, y as int)],
{
    let p = bitmap.buffer.get_pixel(x, y);
    Color { r: p.0[0], g: p.0[1], b: p.0[2], a: p.0[3] }
}

/// Calls `imageproc::drawing::Canvas::draw_pixel`, which for an image buffer is
/// `put_pixel` and panics outside the extent: inside it, the one pixel takes the
/// colour, every other pixel and the extent stay as they were.
#[verifier::external_body]
fn buffer_draw(bitmap: &mut Bitmap, x: u32, y: u32, c: Color)
    requires
        x < bitmap_extent(*old(bitmap)).0,
        y < bitmap_extent(*old(bitmap)).1,
    ensures
        bitmap_extent(*final(bitmap)) == bitmap_extent(*old(bitmap)),
        bitmap_pixels(*final(bitmap)) == bitmap_pixels(*old(bitmap)).insert(
            (x as int, y as int),
            c,
        ),
{
    Canvas::draw_pixel(&mut bitmap.buffer, x, y, Rgba([c.r, c.g, c.b, c.a]));
}

/// How far from the origin the shapes of a stroke may reach: within this
/// bound the integer arithmetic of the drawing routines stays in range.
pub const DRAW_REACH: i32 = 1048576;

/// Whether a point lies within the reach of the drawing routines.
pub open spec fn in_reach(p: (i32, i32)) -> bool {
    -DRAW_REACH <= p.0 <= DRAW_REACH && -DRAW_REACH <= p.1 <= DRAW_REACH
}

/// The pixels of a bitmap of the given extent after a filled circle was drawn
/// on it.
pub uninterp spec fn circle_filled(
    extent: (nat, nat),
    pixels: Map<(int, int), Color>,
    center: (int, int),
    radius: int,
    color: Color,
) -> Map<(int, int), Color>;

/// The pixels of a bitmap of the given extent after a filled polygon was drawn
/// on it.
pub uninterp spec fn polygon_filled(
    extent: (nat, nat),
    pixels: Map<(int, int), Color>,
    corners: Seq<(int, int)>,
    color: Color,
) -> Map<(int, int), Color>;

/// Calls `imageproc::drawing::draw_filled_circle_mut`, which draws as much of
/// the circle and its contents as lies inside the buffer: the extent stays,
/// the pixels become what the routine makes of extent, pixels, centre, radius
/// and colour, and each pixel keeps its colour or takes the new one. Within
/// the reach no sum of a coordinate and the radius leaves the integer range.
#[verifier::external_body]
pub(crate) fn buffer_fill_circle(bitmap: &mut Bitmap, center: (i32, i32), radius: i32, c: Color)
    requires
        in_reach(center),
        -DRAW_REACH <= radius <= DRAW_REACH,
    ensures
        bitmap_extent(*final(bitmap)) == bitmap_extent(*old(bitmap)),
        bitmap_pixels(*final(bitmap)) == circle_filled(
            bitmap_extent(*old(bitmap)),
            bitmap_pixels(*old(bitmap)),
            (center.0 as int, center.1 as int),
            radius as int,
            c,
        ),
        forall|p: (int, int)|
            #[trigger] bitmap_pixels(*final(bitmap))[p] == bitmap_pixels(*old(bitmap))[p]
                || bitmap_pixels(*final(bitmap))[p] == c,
{
    draw_filled_circle_mut(&mut bitmap.buffer, center, radius, Rgba([c.r, c.g, c.b, c.a]));
}

/// Calls `imageproc::drawing::draw_polygon_mut` on four corners, which draws as
/// much of the polygon and its contents as lies inside the buffer: the extent
/// stays, the pixels become what the routine makes of extent, pixels, corners
/// and colour, and each pixel keeps its colour or takes the new one. The
/// routine panics where the first corner is the last one; it draws on the
/// first row without looking whether the buffer has one; and it takes width
/// and height for signed integers.
#[verifier::external_body]
pub(crate) fn buffer_fill_quad(
    bitmap: &mut Bitmap,
    a: (i32, i32),
    b: (i32, i32),
    c: (i32, i32),
    d: (i32, i32),
    color: Color,
)
    requires
        in_reach(a),
        in_reach(b),
        in_reach(c),
        in_reach(d),
        a != d,
        bitmap_extent(*old(bitmap)).0 <= i32::MAX,
        1 <= bitmap_extent(*old(bitmap)).1 <= i32::MAX,
    ensures
        bitmap_extent(*final(bitmap)) == bitmap_extent(*old(bitmap)),
        bitmap_pixels(*final(bitmap)) == polygon_filled(
            bitmap_extent(*old(bitmap)),
            bitmap_pixels(*old(bitmap)),
            seq![
                (a.0 as int, a.1 as int),
                (b.0 as int, b.1 as int),
                (c.0 as int, c.1 as int),
                (d.0 as int, d.1 as int),
            ],
            color,
        ),
        forall|p: (int, int)|
            #[trigger] bitmap_pixels(*final(bitmap))[p] == bitmap_pixels(*old(bitmap))[p]
                || bitmap_pixels(*final(bitmap))[p] == color,
{
    let corners = [
        Point::new(a.0, a.1),
        Point::new(b.0, b.1),
        Point::new(c.0, c.1),
        Point::new(d.0, d.1),
    ];
    draw_polygon_mut(
        &mut bitmap.buffer,
        &corners,
        Rgba([color.r, color.g, color.b, color.a]),
    );
}

/// The four bytes of a pixel inside the extent lie inside a buffer that holds
/// four bytes for each pixel.
pub proof fn lemma_pixel_bytes_in_buffer(width: int, height: int, x: int, y: int)
    requires
        0 <= x < width,
        0 <= y < height,
    ensures
        0 <= 4 * (y * width + x),
        4 * (y * width + x) + 3 < 4 * width * height,
{
    assert(y * width + x < width * height) by (nonlinear_arith)
        requires
            0 <= x < width,
            0 <= y < height,
    ;
    assert(0 <= y * width) by (nonlinear_arith)
        requires
            0 <= width,
            0 <= y,
    ;
    assert(4 * width * height == 4 * (width * height)) by (nonlinear_arith);
}

impl Bitmap {
    /// Number of pixel columns.
    pub open spec fn spec_width(&self) -> int {
        bitmap_extent(*self).0 as int
    }

    /// Number of pixel rows.
    pub open spec fn spec_height(&self) -> int {
        bitmap_extent(*self).1 as int
    }

    /// Whether `(x, y)` names a pixel of this bitmap.
    pub open spec fn contains(&self, x: int, y: int) -> bool {
        0 <= x < self.spec_width() && 0 <= y < self.spec_height()
    }

    /// The colour of the pixel in column `x` of row `y`.
    pub open spec fn pixel(&self, x: int, y: int) -> Color {
        bitmap_pixels(*self)[(x, y)]
    }

    /// A bitmap of the given extent with every pixel transparent, or `None`
    /// where four bytes for each pixel are more than a buffer can hold.
    pub fn new(width: u32, height: u32) -> (made: Option<Bitmap>)
        ensures
            made is Some <==> 4 * width * height <= isize::MAX,
            made matches Some(bitmap) ==> {
                &&& bitmap.spec_width() == width
                &&& bitmap.spec_height() == height
                &&& forall|x: int, y: int|
                    bitmap.contains(x, y) ==> #[trigger] bitmap.pixel(x, y) == spec_transparent()
            },
    {
        let columns: usize = width as usize;
        let rows: usize = height as usize;
        let bytes = match columns.checked_mul(rows) {
            Some(count) => count.checked_mul(4),
            None => None,
        };
        proof {
            assert(4 * width * height == (width * height) * 4) by (nonlinear_arith);
            if width * height > usize::MAX {
                assert(4 * width * height > isize::MAX);
            }
        }
        match bytes {
            Some(len) if len <= isize::MAX as usize => {
                let data: Vec<u8> = vec![0u8; len];
                let ghost zeros = data@;
                let made = buffer_from_raw(width, height, data);
                proof {
                    let bitmap = made.unwrap();
                    assert forall|x: int, y: int| bitmap.contains(x, y) implies #[trigger] bitmap.pixel(
                        x,
                        y,
                    ) == spec_transparent() by {
                        lemma_pixel_bytes_in_buffer(width as int, height as int, x, y);
                        assert(bitmap.pixel(x, y) == color_in(zeros, width as int, x, y));
                    }
                }
                made
            },
            _ => None,
        }
    }

    /// A bitmap over a row-major buffer of RGBA bytes, or `None` where the
    /// buffer holds fewer than four bytes for each pixel of the extent.
    pub fn from_raw(width: u32, height: u32, data: Vec<u8>) -> (made: Option<Bitmap>)
        ensures
            made is Some <==> 4 * width * height <= data.len(),
            made matches Some(bitmap) ==> {
                &&& bitmap.spec_width() == width
                &&& bitmap.spec_height() == height
                &&& forall|x: int, y: int|
                    bitmap.contains(x, y) ==> #[trigger] bitmap.pixel(x, y) == color_in(
                        data@,
                        width as int,
                        x,
                        y,
                    )
            },
    {
        buffer_from_raw(width, height, data)
    }

    /// The bytes of the bitmap, four for each pixel, row by row.
    pub fn into_raw(self) -> (data: Vec<u8>)
        ensures
            4 * self.spec_width() * self.spec_height() <= data.len(),
            forall|x: int, y: int|
                self.contains(x, y) ==> #[trigger] color_in(data@, self.spec_width(), x, y)
                    == self.pixel(x, y),
    {
        buffer_into_raw(self)
    }

    /// Number of pixel columns.
    pub fn width(&self) -> (w: u32)
        ensures
            w == self.spec_width(),
    {
        buffer_width(self)
    }

    /// Number of pixel rows.
    pub fn height(&self) -> (h: u32)
        ensures
            h == self.spec_height(),
    {
        buffer_height(self)
    }

    /// Reads the pixel in column `x` of row `y`.
    pub fn get_pixel(&self, x: u32, y: u32) -> (c: Color)
        requires
            self.contains(x as int, y as int),
        ensures
            c == self.pixel(x as int, y as int),
    {
        buffer_get(self, x, y)
    }

    /// Writes the pixel in column `x` of row `y`; nothing else changes.
    pub fn put_pixel(&mut self, x: u32, y: u32, c: Color)
        requires
            old(self).contains(x as int, y as int),
        ensures
            final(self).spec_width() == old(self).spec_width(),
            final(self).spec_height() == old(self).spec_height(),
            forall|i: int, j: int|
                final(self).pixel(i, j) == if i == x && j == y {
                    c
                } else {
                    old(self).pixel(i, j)
                },
    {
        buffer_draw(self, x, y, c);
    }
}

} // verus!
