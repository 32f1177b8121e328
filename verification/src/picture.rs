use vstd::prelude::*;

verus! {

/// One pixel's colour: three channels of eight bits.
#[derive(Clone, Copy, Debug, PartialEq, Eq, Structural)]
pub struct Color {
    pub red: u8,
    pub green: u8,
    pub blue: u8,
}

/// An owned RGB raster. The samples live in an `image::RgbImage`, which the
/// verifier does not look into: what it holds is named by
/// [`picture_dimensions`] and [`picture_pixels`].
#[verifier::external_body]
#[derive(Debug)]
pub struct Picture {
    buffer: image::RgbImage,
}

/// Width and height of the buffer, in this order.
pub uninterp spec fn picture_dimensions(picture: Picture) -> (nat, nat);

/// The colour at each coordinate `(x, y)` inside the buffer.
pub uninterp spec fn picture_pixels(picture: Picture) -> Map<(int, int), Color>;

/// `ImageBuffer::dimensions`: the width and height the buffer was made with.
/// The buffer holds three samples for each pixel in a `Vec<u8>`: its
/// constructors see to that, and no `Vec` is longer than `isize::MAX`.
#[verifier::external_body]
fn buffer_dimensions(picture: &Picture) -> (d: (u32, u32))
    ensures
        picture_dimensions(*picture) == (d.0 as nat, d.1 as nat),
        3 * d.0 * d.1 <= isize::MAX,
{
    picture.buffer.dimensions()
}

/// `ImageBuffer::get_pixel`: the pixel at `(x, y)`, which must lie inside the
/// buffer, handed out as a [`Color`].
#[verifier::external_body]
fn buffer_get_pixel(picture: &Picture, x: u32, y: u32) -> (color: Color)
    requires
        x < picture_dimensions(*picture).0,
        y < picture_dimensions(*picture).1,
    ensures
        color == picture_pixels(*picture)[(x as int, y as int)],
{
    let pixel = picture.buffer.get_pixel(x, y);
    Color { red: pixel.0[0], green: pixel.0[1], blue: pixel.0[2] }
}

/// `ImageBuffer::put_pixel`: overwrites the pixel at `(x, y)`, which must lie
/// inside the buffer; the dimensions and every other pixel stay.
#[verifier::external_body]
fn buffer_put_pixel(picture: &mut Picture, x: u32, y: u32, color: Color)
    requires
        x < picture_dimensions(*old(picture)).0,
        y < picture_dimensions(*old(picture)).1,
    ensures
        picture_dimensions(*final(picture)) == picture_dimensions(*old(picture)),
        picture_pixels(*final(picture)) == picture_pixels(*old(picture)).insert(
            (x as int, y as int),
            color,
        ),
{
    picture.buffer.put_pixel(x, y, image::Rgb([color.red, color.green, color.blue]))
}

/// `ImageBuffer::new`: a buffer of the given size with every sample zero. The
/// sample count must fit a `Vec<u8>`.
#[verifier::external_body]
fn buffer_new(width: u32, height: u32) -> (picture: Picture)
    requires
        3 * width * height <= isize::MAX,
    ensures
        picture_dimensions(picture) == (width as nat, height as nat),
        forall|x: int, y: int|
            0 <= x < width && 0 <= y < height ==> #[trigger] picture_pixels(picture)[(x, y)] == (
            Color { red: 0, green: 0, blue: 0 }),
{
    Picture { buffer: image::RgbImage::new(width, height) }
}

/// A picture as a value: its size and its rows of colours, top to bottom, each
/// row left to right.
pub struct PictureView {
    pub width: nat,
    pub height: nat,
    pub rows: Seq<Seq<Color>>,
}

impl PictureView {
    /// There are `height` rows of `width` colours each, and neither number
    /// exceeds what a pixel coordinate can count.
    pub open spec fn wf(self) -> bool {
        &&& self.width <= u32::MAX
        &&& self.height <= u32::MAX
        &&& self.rows.len() == self.height
        &&& forall|y: int| 0 <= y < self.height ==> (#[trigger] self.rows[y]).len() == self.width
    }

    /// The colour in column `x` of row `y`.
    pub open spec fn pixel(self, x: int, y: int) -> Color {
        self.rows[y][x]
    }
}

impl View for Picture {
    type V = PictureView;

    open spec fn view(&self) -> PictureView {
        let (width, height) = picture_dimensions(*self);
        PictureView {
            width,
            height,
            rows: Seq::new(
                height,
                |y: int| Seq::new(width, |x: int| picture_pixels(*self)[(x, y)]),
            ),
        }
    }
}

/// The colour of every pixel of a freshly made picture.
pub open spec fn black() -> Color {
    Color { red: 0, green: 0, blue: 0 }
}

/// Whether a raster of this size has few enough samples for one buffer.
pub open spec fn fits_buffer(width: nat, height: nat) -> bool {
    3 * width * height <= isize::MAX
}

impl Picture {
    /// A black picture of the given size, or `None` where its samples would
    /// not fit one buffer.
    pub fn new(width: u32, height: u32) -> (made: Option<Picture>)
        ensures
            made.is_some() <==> fits_buffer(width as nat, height as nat),
            made matches Some(picture) ==> {
                &&& picture@.wf()
                &&& picture@.width == width
                &&& picture@.height == height
                &&& forall|x: int, y: int|
                    0 <= x < width && 0 <= y < height ==> picture@.rows[y][x] == black()
            },
    {
        assert(3 * (width as nat) * (height as nat) <= 3 * 0xFFFF_FFFF * 0xFFFF_FFFF)
            by (nonlinear_arith)
            requires
                width <= 0xFFFF_FFFF,
                height <= 0xFFFF_FFFF,
        ;
        assert(3 * (width as u128) * (height as u128) == 3 * (width as nat) * (height as nat))
            by (nonlinear_arith);
        let samples: u128 = 3 * (width as u128) * (height as u128);
        if samples <= isize::MAX as u128 {
            assert(3 * width * height == 3 * (width as nat) * (height as nat)) by (nonlinear_arith);
            Some(buffer_new(width, height))
        } else {
            None
        }
    }

    /// Width and height, in this order.
    pub fn dimensions(&self) -> (d: (u32, u32))
        ensures
            d.0 == self@.width,
            d.1 == self@.height,
            self@.wf(),
            fits_buffer(self@.width, self@.height),
    {
        let d = buffer_dimensions(self);
        assert(3 * d.0 * d.1 == 3 * (d.0 as nat) * (d.1 as nat)) by (nonlinear_arith);
        d
    }

    /// The number of columns.
    pub fn width(&self) -> (w: u32)
        ensures
            w == self@.width,
    {
        buffer_dimensions(self).0
    }

    /// The number of rows.
    pub fn height(&self) -> (h: u32)
        ensures
            h == self@.height,
    {
        buffer_dimensions(self).1
    }

    /// The colour in column `x` of row `y`.
    pub fn get_pixel(&self, x: u32, y: u32) -> (color: Color)
        requires
            x < self@.width,
            y < self@.height,
        ensures
            color == self@.rows[y as int][x as int],
    {
        buffer_get_pixel(self, x, y)
    }

    /// Paints column `x` of row `y`; nothing else changes.
    pub fn put_pixel(&mut self, x: u32, y: u32, color: Color)
        requires
            x < old(self)@.width,
            y < old(self)@.height,
        ensures
            final(self)@.width == old(self)@.width,
            final(self)@.height == old(self)@.height,
            final(self)@.rows == old(self)@.rows.update(
                y as int,
                old(self)@.rows[y as int].update(x as int, color),
            ),
    {
        buffer_put_pixel(self, x, y, color);
        assert(final(self)@.rows =~~= old(self)@.rows.update(
            y as int,
            old(self)@.rows[y as int].update(x as int, color),
        ));
    }
}

} // verus!
