use vstd::prelude::*;

use crate::image::{Error, Format, Image};

verus! {

/// Checks that a square kernel of side `size` comes with `count` weights.
pub fn check_weight_count(size: usize, count: usize) -> (r: Result<(), Error>)
    ensures
        count == size * size ==> r == Ok::<(), Error>(()),
        count != size * size ==> r == Err::<(), Error>(Error::WeightCountMismatch),
{
    if size != 0 && count / size != size {
        proof {
            assert(count != size * size) by (nonlinear_arith)
                requires
                    size != 0,
                    count / size != size,
            ;
        }
        return Err(Error::WeightCountMismatch);
    }
    if size != 0 && count % size != 0 {
        proof {
            assert(count != size * size) by (nonlinear_arith)
                requires
                    size != 0,
                    count % size != 0,
            ;
        }
        return Err(Error::WeightCountMismatch);
    }
    if size == 0 && count != 0 {
        return Err(Error::WeightCountMismatch);
    }
    proof {
        assert(count == size * size) by (nonlinear_arith)
            requires
                size == 0 ==> count == 0,
                size != 0 ==> count / size == size && count % size == 0,
        ;
    }
    Ok(())
}

/// Checks that a kernel can read `src` and write `dst`: the two share their dimensions
/// and `src` has one sample per pixel.
pub fn check_apply(src: &Image, dst: &Image) -> (r: Result<(), Error>)
    ensures
        (src.width != dst.width || src.height != dst.height) ==> r == Err::<(), Error>(
            Error::DimensionMismatch,
        ),
        src.width == dst.width && src.height == dst.height && src.format == Format::Pixmap ==> r
            == Err::<(), Error>(Error::UnsupportedForFormat),
        src.width == dst.width && src.height == dst.height && src.format != Format::Pixmap ==> r
            == Ok::<(), Error>(()),
{
    if src.width != dst.width || src.height != dst.height {
        return Err(Error::DimensionMismatch);
    }
    if let Format::Pixmap = src.format {
        return Err(Error::UnsupportedForFormat);
    }
    Ok(())
}

/// The sample of `src` under offset `(i, j)` of a kernel of side `size` centred on
/// `(x, y)`, that is at `(x + i - size / 2, y + j - size / 2)`.
pub fn window_sample(src: &Image, x: usize, y: usize, i: usize, j: usize, size: usize) -> (r:
    Result<u8, Error>)
    requires
        src.wf(),
    ensures
        ({
            let sx = x + i - size / 2;
            let sy = y + j - size / 2;
            if src.format == Format::Pixmap {
                r == Err::<u8, Error>(Error::UnsupportedForFormat)
            } else if 0 <= sx < src.width && 0 <= sy < src.height {
                r == Ok::<u8, Error>(src.samples()[sy * src.width + sx])
            } else {
                r == Err::<u8, Error>(Error::OutOfBounds)
            }
        }),
{
    if let Format::Pixmap = src.format {
        return src.get_pixel(0, 0);
    }
    let half = size / 2;
    match (shifted(x, i, half, src.width), shifted(y, j, half, src.height)) {
        (Some(sx), Some(sy)) => src.get_pixel(sx, sy),
        _ => Err(Error::OutOfBounds),
    }
}

/// The coordinate `c + off - half`, if it lies in `0..limit`.
fn shifted(c: usize, off: usize, half: usize, limit: usize) -> (r: Option<usize>)
    ensures
        0 <= c + off - half < limit ==> r == Some((c + off - half) as usize),
        !(0 <= c + off - half < limit) ==> r is None,
{
    if off >= half {
        let d = off - half;
        if c >= limit || d >= limit - c {
            None
        } else {
            Some(c + d)
        }
    } else {
        let d = half - off;
        if c < d || c - d >= limit {
            None
        } else {
            Some(c - d)
        }
    }
}

} // verus!
