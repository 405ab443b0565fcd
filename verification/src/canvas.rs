//! The raster that edits are painted on, kept in an image buffer of the `image`
//! crate.

use vstd::prelude::*;

verus! {

/// An RGB image buffer of the `image` crate with eight bits to a sample. What is
/// known of it is what the functions below state.
#[verifier::external_body]
#[derive(Debug)]
pub struct Raster {
    image: image::RgbImage,
}

/// The pixels an image buffer holds: for each position inside it, as `(x, y)`, the
/// red, green and blue samples there.
pub uninterp spec fn raster_pixels(raster: Raster) -> Map<(u32, u32), Seq<u8>>;

/// The width and the height an image buffer was made with.
pub uninterp spec fn raster_size(raster: Raster) -> (u32, u32);

/// A raster of one colour throughout.
pub open spec fn blank(width: u32, height: u32, colour: Seq<u8>) -> Map<(u32, u32), Seq<u8>> {
    Map::new(|at: (u32, u32)| at.0 < width && at.1 < height, |at: (u32, u32)| colour)
}

/// The samples of a raster row after row from the top, each row from the left,
/// three samples to a pixel.
pub open spec fn row_major(pixels: Map<(u32, u32), Seq<u8>>, width: u32, height: u32) -> Seq<u8> {
    Seq::new(
        (3 * width * height) as nat,
        |i: int| pixels[(((i / 3) % (width as int)) as u32, ((i / 3) / (width as int)) as u32)][i % 3],
    )
}

/// Whether a raster of this size can be allocated: the samples of one row must
/// number no more than the largest `usize`, and those of all rows no more than the
/// largest `isize`.
pub open spec fn fits(width: u32, height: u32) -> bool {
    3 * width <= usize::MAX && 3 * width * height <= isize::MAX
}

/// Calls `image::ImageBuffer::from_pixel`: a buffer of the given size with every
/// pixel set to `colour`. The call panics where the count of samples, taken as
/// three times the width and then times the height, overflows `usize` or a
/// vector's capacity, which the precondition rules out.
#[verifier::external_body]
fn raster_filled(width: u32, height: u32, colour: [u8; 3]) -> (raster: Raster)
    requires
        fits(width, height),
    ensures
        raster_size(raster) == (width, height),
        raster_pixels(raster) == blank(width, height, colour@),
{
    Raster { image: image::ImageBuffer::from_pixel(width, height, image::Rgb(colour)) }
}

/// Calls `image::ImageBuffer::put_pixel`: the pixel at `(x, y)` becomes `colour`
/// and nothing else changes. The call panics outside the buffer and nowhere
/// else, which the precondition rules out.
#[verifier::external_body]
fn raster_put(raster: &mut Raster, x: u32, y: u32, colour: [u8; 3])
    requires
        x < raster_size(*old(raster)).0,
        y < raster_size(*old(raster)).1,
    ensures
        raster_size(*final(raster)) == raster_size(*old(raster)),
        raster_pixels(*final(raster)) == raster_pixels(*old(raster)).insert((x, y), colour@),
    no_unwind
{
    raster.image.put_pixel(x, y, image::Rgb(colour))
}

/// Calls `image::ImageBuffer::get_pixel`: the samples at `(x, y)`. The call panics
/// outside the buffer, which the precondition rules out.
#[verifier::external_body]
fn raster_get(raster: &Raster, x: u32, y: u32) -> (colour: [u8; 3])
    requires
        x < raster_size(*raster).0,
        y < raster_size(*raster).1,
    ensures
        colour@ == raster_pixels(*raster)[(x, y)],
{
    raster.image.get_pixel(x, y).0
}

/// Calls `image::ImageBuffer::as_raw` and copies what it lends: all samples in
/// row-major order.
#[verifier::external_body]
fn raster_samples(raster: &Raster) -> (samples: Vec<u8>)
    ensures
        samples@ == row_major(
            raster_pixels(*raster),
            raster_size(*raster).0,
            raster_size(*raster).1,
        ),
{
    raster.image.as_raw().clone()
}

/// A rectangular grid of RGB pixels. A later write to a position replaces the
/// earlier one.
#[derive(Debug)]
pub struct Canvas {
    raster: Raster,
    width: u32,
    height: u32,
}

impl View for Canvas {
    type V = Map<(u32, u32), Seq<u8>>;

    /// The samples at each position.
    closed spec fn view(&self) -> Map<(u32, u32), Seq<u8>> {
        raster_pixels(self.raster)
    }
}

impl Canvas {
    #[verifier::type_invariant]
    spec fn well_formed(self) -> bool {
        &&& raster_size(self.raster) == (self.width, self.height)
        &&& raster_pixels(self.raster).dom() =~= blank(self.width, self.height, Seq::empty()).dom()
    }

    /// The width and the height.
    pub closed spec fn extent(&self) -> (u32, u32) {
        (self.width, self.height)
    }

    /// Whether `(x, y)` lies on the canvas.
    pub open spec fn holds(&self, x: u32, y: u32) -> bool {
        x < self.extent().0 && y < self.extent().1
    }

    /// A canvas of the given size filled with `background`, where one of that size
    /// can be allocated.
    pub fn new(width: u32, height: u32, background: [u8; 3]) -> (result: Option<Canvas>)
        ensures
            match result {
                Some(canvas) => {
                    &&& fits(width, height)
                    &&& canvas.extent() == (width, height)
                    &&& canvas@ == blank(width, height, background@)
                },
                None => !fits(width, height),
            },
    {
        assert(width * height <= 0xFFFF_FFFF * 0xFFFF_FFFF) by (nonlinear_arith)
            requires
                0 <= width <= 0xFFFF_FFFF,
                0 <= height <= 0xFFFF_FFFF,
        ;
        assert(3 * width * height == 3 * (width * height)) by (nonlinear_arith);
        let area: u64 = width as u64 * height as u64;
        if 3 * (width as u64) > usize::MAX as u64 || area > (isize::MAX as u64) / 3 {
            return None;
        }
        let raster = raster_filled(width, height, background);
        assert(blank(width, height, background@).dom() =~= blank(
            width,
            height,
            Seq::empty(),
        ).dom());
        Some(Canvas { raster, width, height })
    }

    /// The width in pixels.
    pub fn width(&self) -> (width: u32)
        ensures
            width == self.extent().0,
    {
        self.width
    }

    /// The height in pixels.
    pub fn height(&self) -> (height: u32)
        ensures
            height == self.extent().1,
    {
        self.height
    }

    /// The samples at `(x, y)`, where that lies on the canvas.
    pub fn pixel(&self, x: u32, y: u32) -> (result: Option<[u8; 3]>)
        ensures
            match result {
                Some(colour) => self.holds(x, y) && colour@ == self@[(x, y)],
                None => !self.holds(x, y),
            },
    {
        proof {
            use_type_invariant(self);
        }
        if x < self.width && y < self.height {
            Some(raster_get(&self.raster, x, y))
        } else {
            None
        }
    }

    /// Writes `colour` at `(x, y)` and says whether that lies on the canvas; a write
    /// outside it changes nothing.
    pub fn paint(&mut self, x: u32, y: u32, colour: [u8; 3]) -> (painted: bool)
        ensures
            painted == old(self).holds(x, y),
            final(self).extent() == old(self).extent(),
            final(self)@ == if painted {
                old(self)@.insert((x, y), colour@)
            } else {
                old(self)@
            },
        no_unwind
    {
        proof {
            use_type_invariant(&*self);
        }
        if x < self.width && y < self.height {
            raster_put(&mut self.raster, x, y, colour);
            true
        } else {
            false
        }
    }

    /// All samples in row-major order, as an encoder takes them.
    pub fn samples(&self) -> (samples: Vec<u8>)
        ensures
            samples@ == row_major(self@, self.extent().0, self.extent().1),
    {
        proof {
            use_type_invariant(self);
        }
        raster_samples(&self.raster)
    }
}

} // verus!
