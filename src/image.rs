use vstd::prelude::*;
use vstd::string::StringSliceAdditionalSpecFns;

verus! {

/// Pixel layout of a Netpbm image.
#[derive(Clone, Copy, Debug, PartialEq, Eq, Structural)]
pub enum Format {
    /// Portable BitMap (.pbm): one ink value per pixel.
    Bitmap,
    /// Portable GrayMap (.pgm): one gray sample per pixel.
    Graymap,
    /// Portable PixMap (.ppm): red, green and blue samples per pixel.
    Pixmap,
}

/// How the body of a Netpbm image is stored.
#[derive(Clone, Copy, Debug, PartialEq, Eq, Structural)]
pub enum Encoding {
    /// Samples written as decimal text.
    Ascii,
    /// Samples written as raw bytes.
    Binary,
}

/// Everything that can go wrong while decoding, encoding or filtering an image.
#[derive(Clone, Copy, Debug, PartialEq, Eq, Structural)]
pub enum Error {
    /// The input ended before the header or the body was complete.
    UnexpectedEof,
    /// The first line of the header is not one of `P1` to `P6`.
    UnrecognizedMagic,
    /// A width or height token is not a number, or the pixel count does not fit in memory.
    InvalidDimension,
    /// The maximum sample value is missing, not a number, zero, above 65535, or shares its
    /// line with other text.
    InvalidMaxval,
    /// A token of a text body is not a number in `0..=65535`.
    InvalidPixelValue,
    /// A binary body with two bytes per sample (maximum sample value of 256 or more).
    SixteenBitSamples,
    /// A pixel coordinate lies outside the image.
    OutOfBounds,
    /// The operation does not apply to the image's format.
    UnsupportedForFormat,
    /// Two images that must share their dimensions do not.
    DimensionMismatch,
    /// A kernel's weight count is not the square of its size.
    WeightCountMismatch,
}

/// The digit `d` of a magic number `P<d>`, for `d` in `1..=6`.
pub open spec fn magic_digit(m: Seq<u8>) -> Option<u8> {
    if m.len() == 2 && m[0] == 80u8 && 49u8 <= m[1] && m[1] <= 54u8 {
        Some((m[1] - 48) as u8)
    } else {
        None
    }
}

/// The format of magic number `P<d>`.
pub open spec fn format_of_digit(d: u8) -> Format {
    if d == 1 || d == 4 {
        Format::Bitmap
    } else if d == 2 || d == 5 {
        Format::Graymap
    } else {
        Format::Pixmap
    }
}

/// The encoding of magic number `P<d>`.
pub open spec fn encoding_of_digit(d: u8) -> Encoding {
    if d <= 3 {
        Encoding::Ascii
    } else {
        Encoding::Binary
    }
}

/// The digit of the magic number that stands for a format and an encoding.
pub open spec fn digit_of(f: Format, e: Encoding) -> u8 {
    let base: u8 = match f {
        Format::Bitmap => 1,
        Format::Graymap => 2,
        Format::Pixmap => 3,
    };
    match e {
        Encoding::Ascii => base,
        Encoding::Binary => (base + 3) as u8,
    }
}

/// Reads the digit of a magic number held in `b[s..t]`.
pub fn magic_digit_of(b: &[u8], s: usize, t: usize) -> (r: Option<u8>)
    requires
        s <= t <= b@.len(),
    ensures
        r == magic_digit(b@.subrange(s as int, t as int)),
{
    if t - s == 2 && b[s] == 80u8 && 49u8 <= b[s + 1] && b[s + 1] <= 54u8 {
        Some(b[s + 1] - 48)
    } else {
        None
    }
}

impl Format {
    /// The format that a magic number such as `"P2"` names.
    pub fn from_magic_number(magic_number: &str) -> (r: Option<Format>)
        ensures
            r == (match magic_digit(magic_number.spec_bytes()) {
                Some(d) => Some(format_of_digit(d)),
                None => None,
            }),
    {
        let b = magic_number.as_bytes();
        match magic_digit_of(b, 0, b.len()) {
            Some(d) => {
                proof {
                    assert(b@.subrange(0, b@.len() as int) =~= b@);
                }
                Some(Format::of_digit(d))
            },
            None => {
                proof {
                    assert(b@.subrange(0, b@.len() as int) =~= b@);
                }
                None
            },
        }
    }

    pub fn of_digit(d: u8) -> (r: Format)
        ensures
            r == format_of_digit(d),
    {
        if d == 1 || d == 4 {
            Format::Bitmap
        } else if d == 2 || d == 5 {
            Format::Graymap
        } else {
            Format::Pixmap
        }
    }

    /// Samples that one pixel of this format holds.
    pub open spec fn channels(self) -> nat {
        match self {
            Format::Pixmap => 3,
            _ => 1,
        }
    }
}

impl Encoding {
    /// The encoding that a magic number such as `"P5"` names.
    pub fn from_magic_number(magic_number: &str) -> (r: Option<Encoding>)
        ensures
            r == (match magic_digit(magic_number.spec_bytes()) {
                Some(d) => Some(encoding_of_digit(d)),
                None => None,
            }),
    {
        let b = magic_number.as_bytes();
        proof {
            assert(b@.subrange(0, b@.len() as int) =~= b@);
        }
        match magic_digit_of(b, 0, b.len()) {
            Some(d) => Some(Encoding::of_digit(d)),
            None => None,
        }
    }

    pub fn of_digit(d: u8) -> (r: Encoding)
        ensures
            r == encoding_of_digit(d),
    {
        if d <= 3 {
            Encoding::Ascii
        } else {
            Encoding::Binary
        }
    }
}

/// An RGB color with 8 bits per channel.
#[derive(Clone, Copy, Debug, PartialEq, Eq, Structural)]
pub struct Color8 {
    pub red: u8,
    pub green: u8,
    pub blue: u8,
}

impl Color8 {
    /// A color from its red, green and blue components.
    pub fn new(red: u8, green: u8, blue: u8) -> (r: Color8)
        ensures
            r == (Color8 { red, green, blue }),
    {
        Color8 { red, green, blue }
    }
}

/// The samples of a row of colors: red, green and blue of each in turn.
pub open spec fn flatten(c: Seq<Color8>) -> Seq<u8> {
    Seq::new(
        3 * c.len(),
        |i: int|
            if i % 3 == 0 {
                c[i / 3].red
            } else if i % 3 == 1 {
                c[i / 3].green
            } else {
                c[i / 3].blue
            },
    )
}

/// The pixel buffer of an image; its shape follows the image's format.
pub enum ImageData {
    /// One byte per pixel, zero or not.
    Bitmap(Vec<u8>),
    /// One gray sample per pixel.
    Graymap(Vec<u8>),
    /// One color per pixel.
    Pixmap(Vec<Color8>),
}

/// A Netpbm image, with its pixels in row-major order.
pub struct Image {
    /// Width in pixels.
    pub width: usize,
    /// Height in pixels.
    pub height: usize,
    /// Format, which the shape of `data` matches.
    pub format: Format,
    /// Pixel data, whose shape and length `wf` ties to the other fields; every operation
    /// requires `wf`, and `is_well_formed` tests it.
    pub data: ImageData,
}

impl Image {
    /// The buffer's shape matches the format and holds one entry per pixel.
    pub open spec fn wf(&self) -> bool {
        &&& self.width * self.height <= usize::MAX
        &&& match self.data {
            ImageData::Bitmap(v) => self.format == Format::Bitmap && v@.len() == self.width
                * self.height,
            ImageData::Graymap(v) => self.format == Format::Graymap && v@.len() == self.width
                * self.height,
            ImageData::Pixmap(v) => self.format == Format::Pixmap && v@.len() == self.width
                * self.height,
        }
    }

    /// All samples of the image in row-major order (three per pixel for a pixmap).
    pub open spec fn samples(&self) -> Seq<u8> {
        match self.data {
            ImageData::Bitmap(v) => v@,
            ImageData::Graymap(v) => v@,
            ImageData::Pixmap(v) => flatten(v@),
        }
    }

    /// Whether the buffer's shape matches the format and holds one entry per pixel.
    pub fn is_well_formed(&self) -> (r: bool)
        ensures
            r == self.wf(),
    {
        let n = match self.width.checked_mul(self.height) {
            Some(n) => n,
            None => return false,
        };
        match &self.data {
            ImageData::Bitmap(v) => matches!(self.format, Format::Bitmap) && v.len() == n,
            ImageData::Graymap(v) => matches!(self.format, Format::Graymap) && v.len() == n,
            ImageData::Pixmap(v) => matches!(self.format, Format::Pixmap) && v.len() == n,
        }
    }

    /// A zero-filled image of the given format and dimensions.
    pub fn new(image_type: Format, width: usize, height: usize) -> (r: Image)
        requires
            width * height <= usize::MAX,
        ensures
            r.wf(),
            r.width == width,
            r.height == height,
            r.format == image_type,
            r.samples() == Seq::new((image_type.channels() * width * height) as nat, |i: int| 0u8),
    {
        let count = width * height;
        let data = match image_type {
            Format::Bitmap => ImageData::Bitmap(vec![0u8; count]),
            Format::Graymap => ImageData::Graymap(vec![0u8; count]),
            Format::Pixmap => ImageData::Pixmap(vec![Color8::new(0, 0, 0); count]),
        };
        let r = Image { format: image_type, width, height, data };
        proof {
            assert(image_type.channels() * width * height == image_type.channels() * (width
                * height)) by (nonlinear_arith);
            assert(r.samples() =~= Seq::new(
                (image_type.channels() * width * height) as nat,
                |i: int| 0u8,
            ));
        }
        r
    }

    pub fn width(&self) -> (r: usize)
        ensures
            r == self.width,
    {
        self.width
    }

    pub fn height(&self) -> (r: usize)
        ensures
            r == self.height,
    {
        self.height
    }

    /// The samples after pixel `(x, y)` is set to gray value `v` (all three channels of a color).
    pub open spec fn samples_set(&self, x: int, y: int, v: u8) -> Seq<u8> {
        let i = y * self.width + x;
        match self.format {
            Format::Pixmap => self.samples().update(3 * i, v).update(3 * i + 1, v).update(
                3 * i + 2,
                v,
            ),
            _ => self.samples().update(i, v),
        }
    }

    /// Sets pixel `(x, y)` to `value`; a color pixel becomes the gray `(value, value, value)`.
    pub fn set_pixel(&mut self, x: usize, y: usize, value: u8) -> (r: Result<(), Error>)
        requires
            old(self).wf(),
        ensures
            final(self).wf(),
            final(self).width == old(self).width,
            final(self).height == old(self).height,
            final(self).format == old(self).format,
            x < old(self).width && y < old(self).height ==> r == Ok::<(), Error>(())
                && final(self).samples() == old(self).samples_set(x as int, y as int, value),
            !(x < old(self).width && y < old(self).height) ==> r == Err::<(), Error>(
                Error::OutOfBounds,
            ) && final(self).samples() == old(self).samples(),
    {
        if x >= self.width || y >= self.height {
            return Err(Error::OutOfBounds);
        }
        proof {
            assert(y * self.width + x < self.width * self.height) by (nonlinear_arith)
                requires
                    x < self.width,
                    y < self.height,
            ;
        }
        let i = y * self.width + x;
        let ghost before = self.samples();
        match &mut self.data {
            ImageData::Bitmap(data) => {
                data.set(i, value);
            },
            ImageData::Graymap(data) => {
                data.set(i, value);
            },
            ImageData::Pixmap(data) => {
                data.set(i, Color8::new(value, value, value));
            },
        }
        proof {
            assert(self.samples() =~= old(self).samples_set(x as int, y as int, value));
        }
        Ok(())
    }

    /// The value of pixel `(x, y)` of a bitmap or graymap.
    pub fn get_pixel(&self, x: usize, y: usize) -> (r: Result<u8, Error>)
        requires
            self.wf(),
        ensures
            self.format == Format::Pixmap ==> r == Err::<u8, Error>(Error::UnsupportedForFormat),
            self.format != Format::Pixmap && !(x < self.width && y < self.height) ==> r == Err::<
                u8,
                Error,
            >(Error::OutOfBounds),
            self.format != Format::Pixmap && x < self.width && y < self.height ==> r == Ok::<
                u8,
                Error,
            >(self.samples()[y * self.width + x]),
    {
        if let ImageData::Pixmap(_) = &self.data {
            return Err(Error::UnsupportedForFormat);
        }
        if x >= self.width || y >= self.height {
            return Err(Error::OutOfBounds);
        }
        proof {
            assert(y * self.width + x < self.width * self.height) by (nonlinear_arith)
                requires
                    x < self.width,
                    y < self.height,
            ;
        }
        let i = y * self.width + x;
        match &self.data {
            ImageData::Bitmap(data) => Ok(data[i]),
            ImageData::Graymap(data) => Ok(data[i]),
            ImageData::Pixmap(_) => Err(Error::UnsupportedForFormat),
        }
    }
}

} // verus!
