use vstd::prelude::*;

use crate::decode::{packed_row_len, row_bytes};
use crate::image::{digit_of, flatten, Color8, Encoding, Format, Image, ImageData};
use crate::number::{decimal, push_decimal};

verus! {

/// The ink bit that a stored bitmap value encodes to: 1 for 0, else 0.
pub open spec fn ink(v: u8) -> u8 {
    if v == 0 {
        1
    } else {
        0
    }
}

/// The header `P<d>\n<w> <h>\n`, followed by `255\n` for every variant but the bitmaps.
pub open spec fn header_bytes(d: u8, w: nat, h: nat) -> Seq<u8> {
    let dims = seq![80u8, (48 + d) as u8, 10u8] + decimal(w) + seq![32u8] + decimal(h) + seq![
        10u8,
    ];
    if d == 1 || d == 4 {
        dims
    } else {
        dims + decimal(255) + seq![10u8]
    }
}

/// A text bitmap body: the character of each pixel's ink bit, each followed by a space.
pub open spec fn text_bits(s: Seq<u8>) -> Seq<u8>
    decreases s.len(),
{
    if s.len() == 0 {
        Seq::empty()
    } else {
        text_bits(s.drop_last()) + seq![(48 + ink(s.last())) as u8, 32u8]
    }
}

/// A text body: each sample in decimal, followed by a space.
pub open spec fn text_numbers(s: Seq<u8>) -> Seq<u8>
    decreases s.len(),
{
    if s.len() == 0 {
        Seq::empty()
    } else {
        text_numbers(s.drop_last()) + decimal(s.last() as nat) + seq![32u8]
    }
}

/// The first `t` bits, most significant first, of byte `k` of packed row `y`; pixels past
/// the row's end give zero bits.
pub open spec fn pack_bits(s: Seq<u8>, w: nat, y: nat, k: nat, t: nat) -> nat
    decreases t,
{
    if t == 0 {
        0
    } else {
        let x = 8 * k + t - 1;
        pack_bits(s, w, y, k, (t - 1) as nat) * 2 + if x < w {
            ink(s[y * w + x]) as nat
        } else {
            0
        }
    }
}

/// Two to the power `t`.
pub open spec fn cap(t: nat) -> nat
    decreases t,
{
    if t == 0 {
        1
    } else {
        2 * cap((t - 1) as nat)
    }
}

pub proof fn lemma_pack_bits_bound(s: Seq<u8>, w: nat, y: nat, k: nat, t: nat)
    ensures
        pack_bits(s, w, y, k, t) < cap(t),
    decreases t,
{
    if t > 0 {
        lemma_pack_bits_bound(s, w, y, k, (t - 1) as nat);
    }
}

pub proof fn lemma_cap8()
    ensures
        cap(0) == 1,
        cap(1) == 2,
        cap(2) == 4,
        cap(3) == 8,
        cap(4) == 16,
        cap(5) == 32,
        cap(6) == 64,
        cap(7) == 128,
        cap(8) == 256,
{
    assert(cap(0) == 1);
    assert(cap(1) == 2);
    assert(cap(2) == 4);
    assert(cap(3) == 8);
    assert(cap(4) == 16);
    assert(cap(5) == 32);
    assert(cap(6) == 64);
    assert(cap(7) == 128);
}

pub proof fn lemma_cap_bounds(t: nat)
    ensures
        1 <= cap(t),
        t <= 8 ==> cap(t) <= 256,
    decreases t,
{
    lemma_cap8();
    if t > 0 {
        lemma_cap_bounds((t - 1) as nat);
    }
    if t <= 8 {
        assert(t == 0 || t == 1 || t == 2 || t == 3 || t == 4 || t == 5 || t == 6 || t == 7 || t
            == 8);
    }
}

/// A binary bitmap body: each row packed into bytes, eight pixels to a byte.
pub open spec fn packed_body(s: Seq<u8>, w: nat, h: nat) -> Seq<u8> {
    Seq::new(
        h * row_bytes(w),
        |i: int| pack_bits(s, w, (i / row_bytes(w) as int) as nat, (i % row_bytes(w) as int) as nat, 8) as u8,
    )
}

/// The bytes that encoding an image of format `f`, dimensions `w` by `h` and samples `s`
/// with `enc` gives.
pub open spec fn encode_spec(f: Format, w: nat, h: nat, s: Seq<u8>, enc: Encoding) -> Seq<u8> {
    let body = match (f, enc) {
        (Format::Bitmap, Encoding::Ascii) => text_bits(s),
        (Format::Bitmap, Encoding::Binary) => packed_body(s, w, h),
        (_, Encoding::Ascii) => text_numbers(s),
        (_, Encoding::Binary) => s,
    };
    header_bytes(digit_of(f, enc), w, h) + body
}

/// Appends the header of variant `P<d>`.
fn write_header(out: &mut Vec<u8>, d: u8, w: usize, h: usize)
    requires
        1 <= d <= 6,
    ensures
        final(out)@ == old(out)@ + header_bytes(d, w as nat, h as nat),
{
    out.push(80u8);
    out.push(48u8 + d);
    out.push(10u8);
    push_decimal(out, w as u64);
    out.push(32u8);
    push_decimal(out, h as u64);
    out.push(10u8);
    if d != 1 && d != 4 {
        push_decimal(out, 255);
        out.push(10u8);
    }
    proof {
        assert(final(out)@ =~= old(out)@ + header_bytes(d, w as nat, h as nat));
    }
}

/// Appends a text bitmap body.
fn write_pbm_ascii(out: &mut Vec<u8>, data: &Vec<u8>)
    ensures
        final(out)@ == old(out)@ + text_bits(data@),
{
    let mut i: usize = 0;
    while i < data.len()
        invariant
            i <= data@.len(),
            out@ == old(out)@ + text_bits(data@.subrange(0, i as int)),
        decreases data@.len() - i,
    {
        let c = if data[i] == 0 {
            49u8
        } else {
            48u8
        };
        out.push(c);
        out.push(32u8);
        proof {
            assert(data@.subrange(0, i + 1).drop_last() =~= data@.subrange(0, i as int));
            assert(out@ =~= old(out)@ + text_bits(data@.subrange(0, i + 1)));
        }
        i = i + 1;
    }
    proof {
        assert(data@.subrange(0, i as int) =~= data@);
    }
}

/// Appends each sample of `s` in decimal, each followed by a space.
fn write_numbers(out: &mut Vec<u8>, s: &[u8])
    ensures
        final(out)@ == old(out)@ + text_numbers(s@),
{
    let mut i: usize = 0;
    while i < s.len()
        invariant
            i <= s@.len(),
            out@ == old(out)@ + text_numbers(s@.subrange(0, i as int)),
        decreases s@.len() - i,
    {
        push_decimal(out, s[i] as u64);
        out.push(32u8);
        proof {
            assert(s@.subrange(0, i + 1).drop_last() =~= s@.subrange(0, i as int));
            assert(out@ =~= old(out)@ + text_numbers(s@.subrange(0, i + 1)));
        }
        i = i + 1;
    }
    proof {
        assert(s@.subrange(0, i as int) =~= s@);
    }
}

/// Appends the raw bytes of `s`.
fn write_raw(out: &mut Vec<u8>, s: &[u8])
    ensures
        final(out)@ == old(out)@ + s@,
{
    let mut i: usize = 0;
    while i < s.len()
        invariant
            i <= s@.len(),
            out@ == old(out)@ + s@.subrange(0, i as int),
        decreases s@.len() - i,
    {
        out.push(s[i]);
        i = i + 1;
        proof {
            assert(out@ =~= old(out)@ + s@.subrange(0, i as int));
        }
    }
    proof {
        assert(s@.subrange(0, i as int) =~= s@);
    }
}

/// Appends a text graymap body.
fn write_pgm_ascii(out: &mut Vec<u8>, data: &Vec<u8>)
    ensures
        final(out)@ == old(out)@ + text_numbers(data@),
{
    write_numbers(out, data.as_slice());
}

/// Appends a binary graymap body.
fn write_pgm_binary(out: &mut Vec<u8>, data: &Vec<u8>)
    ensures
        final(out)@ == old(out)@ + data@,
{
    write_raw(out, data.as_slice());
}

proof fn lemma_flatten_push(c: Seq<Color8>, x: Color8)
    ensures
        flatten(c.push(x)) == flatten(c) + seq![x.red, x.green, x.blue],
{
    assert(flatten(c.push(x)) =~= flatten(c) + seq![x.red, x.green, x.blue]);
}

/// Appends a text pixmap body: the red, green and blue of each pixel in decimal.
fn write_ppm_ascii(out: &mut Vec<u8>, data: &Vec<Color8>)
    ensures
        final(out)@ == old(out)@ + text_numbers(flatten(data@)),
{
    let mut k: usize = 0;
    while k < data.len()
        invariant
            k <= data@.len(),
            out@ == old(out)@ + text_numbers(flatten(data@.subrange(0, k as int))),
        decreases data@.len() - k,
    {
        let c = data[k];
        let ghost before = flatten(data@.subrange(0, k as int));
        push_decimal(out, c.red as u64);
        out.push(32u8);
        push_decimal(out, c.green as u64);
        out.push(32u8);
        push_decimal(out, c.blue as u64);
        out.push(32u8);
        proof {
            assert(data@.subrange(0, k + 1) =~= data@.subrange(0, k as int).push(c));
            lemma_flatten_push(data@.subrange(0, k as int), c);
            let s3 = before + seq![c.red, c.green, c.blue];
            assert(s3.drop_last() =~= before + seq![c.red, c.green]);
            assert(s3.drop_last().drop_last() =~= before + seq![c.red]);
            assert(s3.drop_last().drop_last().drop_last() =~= before);
            let s2 = s3.drop_last();
            let s1 = s2.drop_last();
            assert(text_numbers(s1) == text_numbers(before) + decimal(c.red as nat) + seq![32u8]);
            assert(text_numbers(s2) == text_numbers(s1) + decimal(c.green as nat) + seq![32u8]);
            assert(text_numbers(s3) == text_numbers(s2) + decimal(c.blue as nat) + seq![32u8]);
            assert(out@ =~= old(out)@ + text_numbers(s3));
        }
        k = k + 1;
    }
    proof {
        assert(data@.subrange(0, k as int) =~= data@);
    }
}

/// Appends a binary pixmap body: the red, green and blue byte of each pixel.
fn write_ppm_binary(out: &mut Vec<u8>, data: &Vec<Color8>)
    ensures
        final(out)@ == old(out)@ + flatten(data@),
{
    let mut k: usize = 0;
    while k < data.len()
        invariant
            k <= data@.len(),
            out@ == old(out)@ + flatten(data@.subrange(0, k as int)),
        decreases data@.len() - k,
    {
        let c = data[k];
        out.push(c.red);
        out.push(c.green);
        out.push(c.blue);
        proof {
            assert(data@.subrange(0, k + 1) =~= data@.subrange(0, k as int).push(c));
            lemma_flatten_push(data@.subrange(0, k as int), c);
            assert(out@ =~= old(out)@ + flatten(data@.subrange(0, k + 1)));
        }
        k = k + 1;
    }
    proof {
        assert(data@.subrange(0, k as int) =~= data@);
    }
}

/// Appends a binary bitmap body of `w` by `h` pixels: eight pixels to a byte, most
/// significant bit first, each row padded with zero bits.
fn write_pbm_binary(out: &mut Vec<u8>, data: &Vec<u8>, w: usize, h: usize)
    requires
        data@.len() == w * h,
    ensures
        final(out)@ == old(out)@ + packed_body(data@, w as nat, h as nat),
{
    let rb = packed_row_len(w);
    let ghost body = packed_body(data@, w as nat, h as nat);
    let len = data.len();
    proof {
        assert(rb == row_bytes(w as nat));
    }
    let mut y: usize = 0;
    while y < h
        invariant
            y <= h,
            data@.len() == w * h,
            rb == row_bytes(w as nat),
            len == data@.len(),
            body == packed_body(data@, w as nat, h as nat),
            out@ == old(out)@ + body.subrange(0, y * rb),
            y * rb <= h * rb,
        decreases h - y,
    {
        proof {
            assert(y * rb + rb <= h * rb) by (nonlinear_arith)
                requires
                    y < h,
            ;
        }
        let mut k: usize = 0;
        while k < rb
            invariant
                y < h,
                k <= rb,
                data@.len() == w * h,
                rb == row_bytes(w as nat),
                len == data@.len(),
                body == packed_body(data@, w as nat, h as nat),
                out@ == old(out)@ + body.subrange(0, y * rb + k),
                y * rb + rb <= h * rb,
            decreases rb - k,
        {
            let mut byte: u32 = 0;
            let mut t: usize = 0;
            while t < 8
                invariant
                    y < h,
                    k < rb,
                    t <= 8,
                    rb == row_bytes(w as nat),
                    data@.len() == w * h,
                    len == data@.len(),
                    byte as nat == pack_bits(data@, w as nat, y as nat, k as nat, t as nat),
                decreases 8 - t,
            {
                proof {
                    lemma_pack_bits_bound(data@, w as nat, y as nat, k as nat, t as nat);
                    lemma_cap8();
                    lemma_cap_bounds(t as nat);
                }
                let x = 8 * k + t;
                let bit: u32 = if x < w {
                    proof {
                        assert(y * w + x < w * h) by (nonlinear_arith)
                            requires
                                y < h,
                                x < w,
                        ;
                    }
                    if data[y * w + x] == 0 {
                        1
                    } else {
                        0
                    }
                } else {
                    0
                };
                byte = byte * 2 + bit;
                t = t + 1;
            }
            proof {
                lemma_pack_bits_bound(data@, w as nat, y as nat, k as nat, 8);
                lemma_cap8();
                let i = y * rb + k;
                assert(i / rb as int == y && i % rb as int == k) by (nonlinear_arith)
                    requires
                        i == y * rb + k,
                        k < rb,
                ;
                assert(i < h * rb) by (nonlinear_arith)
                    requires
                        i == y * rb + k,
                        k < rb,
                        y < h,
                ;
            }
            out.push(byte as u8);
            proof {
                assert(out@ =~= old(out)@ + body.subrange(0, y * rb + k + 1));
            }
            k = k + 1;
        }
        proof {
            assert((y + 1) * rb == y * rb + rb) by (nonlinear_arith);
            assert((y + 1) * rb <= h * rb) by (nonlinear_arith)
                requires
                    y < h,
            ;
        }
        y = y + 1;
    }
    proof {
        assert(body.subrange(0, y * rb) =~= body);
    }
}

impl Image {
    /// Appends the image, header and body, in the given encoding.
    pub fn write_to(&self, writer: &mut Vec<u8>, encoding: Encoding)
        requires
            self.wf(),
        ensures
            final(writer)@ == old(writer)@ + encode_spec(
                self.format,
                self.width as nat,
                self.height as nat,
                self.samples(),
                encoding,
            ),
    {
        let (w, h) = (self.width, self.height);
        match (&self.data, encoding) {
            (ImageData::Pixmap(data), Encoding::Binary) => {
                write_header(writer, 6, w, h);
                write_ppm_binary(writer, data);
            },
            (ImageData::Pixmap(data), Encoding::Ascii) => {
                write_header(writer, 3, w, h);
                write_ppm_ascii(writer, data);
            },
            (ImageData::Graymap(data), Encoding::Binary) => {
                write_header(writer, 5, w, h);
                write_pgm_binary(writer, data);
            },
            (ImageData::Graymap(data), Encoding::Ascii) => {
                write_header(writer, 2, w, h);
                write_pgm_ascii(writer, data);
            },
            (ImageData::Bitmap(data), Encoding::Binary) => {
                write_header(writer, 4, w, h);
                write_pbm_binary(writer, data, w, h);
            },
            (ImageData::Bitmap(data), Encoding::Ascii) => {
                write_header(writer, 1, w, h);
                write_pbm_ascii(writer, data);
            },
        }
        proof {
            assert(final(writer)@ =~= old(writer)@ + encode_spec(
                self.format,
                self.width as nat,
                self.height as nat,
                self.samples(),
                encoding,
            ));
        }
    }
}

} // verus!
