use vstd::prelude::*;

use crate::image::{
    flatten, format_of_digit, magic_digit, magic_digit_of, Color8, Error, Format, Image, ImageData,
};
use crate::number::{number_at, parse_number};
use crate::text::{
    after_line, first_nonspace, first_token_from, is_line_end, lemma_rest_len, next_token, rest,
    skip_space, toks,
};

verus! {

/// Largest sample value a text body or a header may hold.
pub const SAMPLE_LIMIT: u64 = 65535;

/// A decoded header: magic digit, width, height, maximum sample value (0 for bitmaps),
/// the end of its last token and the end of that token's line.
pub struct Header {
    pub digit: u8,
    pub width: usize,
    pub height: usize,
    pub maxval: u16,
    pub last: usize,
    pub end: usize,
}

/// What the header at the start of `b` holds: (digit, width, height, maxval, end of its
/// last token, end of that token's line), or the error it gives. The magic number stands
/// alone on its line; the width, height and maxval that follow are whitespace-separated
/// tokens, on one line or on several.
pub open spec fn header_spec(b: Seq<u8>) -> Result<(u8, nat, nat, nat, int, int), Error> {
    let t0 = toks(b, 0, false);
    if t0.len() == 0 {
        Err(Error::UnexpectedEof)
    } else if magic_digit(b.subrange(t0[0].0, t0[0].1)) is None || first_nonspace(
        b,
        t0[0].1,
        t0[0].2,
    ) != t0[0].2 {
        Err(Error::UnrecognizedMagic)
    } else {
        let d = magic_digit(b.subrange(t0[0].0, t0[0].1))->Some_0;
        let ds = rest(b, t0[0].2, t0[0].2, false);
        if ds.len() == 0 {
            Err(Error::UnexpectedEof)
        } else if number_at(b, ds[0].0, ds[0].1, usize::MAX as nat) is None {
            Err(Error::InvalidDimension)
        } else if ds.len() == 1 {
            Err(Error::UnexpectedEof)
        } else if number_at(b, ds[1].0, ds[1].1, usize::MAX as nat) is None {
            Err(Error::InvalidDimension)
        } else {
            let w = number_at(b, ds[0].0, ds[0].1, usize::MAX as nat)->Some_0;
            let h = number_at(b, ds[1].0, ds[1].1, usize::MAX as nat)->Some_0;
            if w * h > usize::MAX {
                Err(Error::InvalidDimension)
            } else if d == 1 || d == 4 {
                Ok((d, w, h, 0nat, ds[1].1, ds[1].2))
            } else {
                let ms = rest(b, ds[1].1, ds[1].2, false);
                if ms.len() == 0 {
                    Err(Error::UnexpectedEof)
                } else {
                    match number_at(b, ms[0].0, ms[0].1, SAMPLE_LIMIT as nat) {
                        Some(m) => if m > 0 {
                            Ok((d, w, h, m, ms[0].1, ms[0].2))
                        } else {
                            Err(Error::InvalidMaxval)
                        },
                        None => Err(Error::InvalidMaxval),
                    }
                }
            }
        }
    }
}

/// A sample `v` of range `0..=m` rescaled to `0..=255` with rounding, narrowed to 8 bits.
pub open spec fn rescale(v: nat, m: nat) -> u8 {
    ((v * 510 + m) / (2 * m) % 256) as u8
}

/// Stored value of a text bitmap pixel: `0` for the character `0`, else 1.
pub open spec fn bit_of_char(c: u8) -> u8 {
    if c == 48u8 {
        0
    } else {
        1
    }
}

/// Pixel `x` of a row of a binary bitmap whose packed bytes start at `row`: bit
/// `7 - x % 8` of byte `x / 8`, most significant bit first.
pub open spec fn unpacked(b: Seq<u8>, row: int, x: int) -> u8 {
    (b[row + x / 8] >> ((7 - x % 8) as u8)) & 1u8
}

/// Bytes of one packed bitmap row of width `w`.
pub open spec fn row_bytes(w: nat) -> nat {
    (w + 7) / 8
}

/// The value of text token `tok`, rescaled to maxval `m`, if it is a number in range.
pub open spec fn token_sample(b: Seq<u8>, tok: (int, int, int), m: nat) -> Option<u8> {
    match number_at(b, tok.0, tok.1, SAMPLE_LIMIT as nat) {
        Some(v) => Some(rescale(v, m)),
        None => None,
    }
}

/// The `k` samples of a text body with tokens `ts`, or the error it gives: an invalid
/// token among the first `k`, else too few tokens.
pub open spec fn text_samples(b: Seq<u8>, ts: Seq<(int, int, int)>, k: nat, m: nat) -> Result<
    Seq<u8>,
    Error,
> {
    if exists|i: int| 0 <= i < k && i < ts.len() && (#[trigger] token_sample(b, ts[i], m)) is None {
        Err(Error::InvalidPixelValue)
    } else if ts.len() < k {
        Err(Error::UnexpectedEof)
    } else {
        Ok(Seq::new(k, |i: int| token_sample(b, ts[i], m)->Some_0))
    }
}

/// The samples of the body that follows a header whose last token ends at `t`, on a line
/// ending at `e`, or the error it gives. A text body goes on from the next token; a
/// binary body starts on the next line.
pub open spec fn body_spec(b: Seq<u8>, d: u8, w: nat, h: nat, m: nat, t: int, e: int) -> Result<
    Seq<u8>,
    Error,
> {
    let n = w * h;
    let p = after_line(b, e);
    if d == 1 {
        let ts = rest(b, t, e, true);
        if ts.len() < n {
            Err(Error::UnexpectedEof)
        } else {
            Ok(Seq::new(n, |i: int| bit_of_char(b[ts[i].0])))
        }
    } else if d == 2 {
        text_samples(b, rest(b, t, e, false), n, m)
    } else if d == 3 {
        text_samples(b, rest(b, t, e, false), 3 * n, m)
    } else if d == 4 {
        if p + row_bytes(w) * h > b.len() {
            Err(Error::UnexpectedEof)
        } else {
            Ok(Seq::new(n, |i: int| unpacked(b, p + (i / w as int) * row_bytes(w), i % w as int)))
        }
    } else {
        let c: nat = if d == 5 {
            1
        } else {
            3
        };
        if m >= 256 {
            Err(Error::SixteenBitSamples)
        } else if p + c * n > b.len() {
            Err(Error::UnexpectedEof)
        } else {
            Ok(b.subrange(p, p + c * n))
        }
    }
}

/// What decoding `b` gives: (format, width, height, samples), or the error.
pub open spec fn decode_spec(b: Seq<u8>) -> Result<(Format, nat, nat, Seq<u8>), Error> {
    match header_spec(b) {
        Err(e) => Err(e),
        Ok((d, w, h, m, t, e)) => match body_spec(b, d, w, h, m, t, e) {
            Err(x) => Err(x),
            Ok(s) => Ok((format_of_digit(d), w, h, s)),
        },
    }
}

/// Reads the header at the start of `b`.
pub fn read_header(b: &[u8]) -> (r: Result<Header, Error>)
    ensures
        match r {
            Ok(hd) => header_spec(b@) == Ok::<(u8, nat, nat, nat, int, int), Error>(
                (
                    hd.digit,
                    hd.width as nat,
                    hd.height as nat,
                    hd.maxval as nat,
                    hd.last as int,
                    hd.end as int,
                ),
            ) && is_line_end(b@, hd.end as int) && 1 <= hd.last <= hd.end && 1 <= hd.digit <= 6,
            Err(x) => header_spec(b@) == Err::<(u8, nat, nat, nat, int, int), Error>(x),
        },
{
    let (s0, t0, e0) = match first_token_from(b, 0, false) {
        None => return Err(Error::UnexpectedEof),
        Some(tok) => tok,
    };
    let d = match magic_digit_of(b, s0, t0) {
        None => return Err(Error::UnrecognizedMagic),
        Some(d) => d,
    };
    if skip_space(b, t0, e0) != e0 {
        return Err(Error::UnrecognizedMagic);
    }
    let (s1, t1, e1) = match next_token(b, e0, e0, false) {
        None => return Err(Error::UnexpectedEof),
        Some(tok) => tok,
    };
    let w = match parse_number(b, s1, t1, usize::MAX as u64) {
        None => return Err(Error::InvalidDimension),
        Some(v) => v as usize,
    };
    let (s2, t2, e2) = match next_token(b, t1, e1, false) {
        None => return Err(Error::UnexpectedEof),
        Some(tok) => tok,
    };
    let h = match parse_number(b, s2, t2, usize::MAX as u64) {
        None => return Err(Error::InvalidDimension),
        Some(v) => v as usize,
    };
    if h != 0 && w > usize::MAX / h {
        proof {
            assert(w * h > usize::MAX) by (nonlinear_arith)
                requires
                    h != 0,
                    w > usize::MAX / h,
            ;
        }
        return Err(Error::InvalidDimension);
    }
    proof {
        assert(w * h <= usize::MAX) by (nonlinear_arith)
            requires
                h == 0 || w <= usize::MAX / h,
        ;
    }
    if d == 1 || d == 4 {
        return Ok(Header { digit: d, width: w, height: h, maxval: 0, last: t2, end: e2 });
    }
    let (s3, t3, e3) = match next_token(b, t2, e2, false) {
        None => return Err(Error::UnexpectedEof),
        Some(tok) => tok,
    };
    let m = match parse_number(b, s3, t3, SAMPLE_LIMIT) {
        None => return Err(Error::InvalidMaxval),
        Some(v) => v,
    };
    if m == 0 {
        return Err(Error::InvalidMaxval);
    }
    Ok(Header { digit: d, width: w, height: h, maxval: m as u16, last: t3, end: e3 })
}

/// Rescales sample `v` of range `0..=m` to `0..=255`.
pub fn rescale_sample(v: u64, m: u64) -> (r: u8)
    requires
        v <= SAMPLE_LIMIT,
        1 <= m <= SAMPLE_LIMIT,
    ensures
        r == rescale(v as nat, m as nat),
{
    proof {
        assert(v * 510 + m <= 40000000) by (nonlinear_arith)
            requires
                v <= SAMPLE_LIMIT,
                m <= SAMPLE_LIMIT,
        ;
    }
    ((v * 510 + m) / (2 * m) % 256) as u8
}

/// Reads the next text sample after position `q` of the line ending at `e`.
fn read_text_sample(b: &[u8], q: usize, e: usize, m: u16) -> (r: Result<
    (u8, usize, usize),
    Error,
>)
    requires
        q <= e,
        is_line_end(b@, e as int),
        m >= 1,
    ensures
        ({
            let ts = rest(b@, q as int, e as int, false);
            match r {
                Ok((v, q2, e2)) => ts.len() > 0 && token_sample(b@, ts[0], m as nat) == Some(v)
                    && rest(b@, q2 as int, e2 as int, false) == ts.drop_first() && q2 <= e2
                    && is_line_end(b@, e2 as int),
                Err(x) => (ts.len() == 0 && x == Error::UnexpectedEof) || (ts.len() > 0
                    && token_sample(b@, ts[0], m as nat) is None && x == Error::InvalidPixelValue),
            }
        }),
{
    match next_token(b, q, e, false) {
        None => Err(Error::UnexpectedEof),
        Some((s, t, e2)) => match parse_number(b, s, t, SAMPLE_LIMIT) {
            None => Err(Error::InvalidPixelValue),
            Some(v) => Ok((rescale_sample(v, m as u64), t, e2)),
        },
    }
}

/// Reads the first `n` samples of a text body.
fn read_text_samples(b: &[u8], start: usize, e: usize, n: usize, m: u16) -> (r: Result<
    Vec<u8>,
    Error,
>)
    requires
        start <= e,
        is_line_end(b@, e as int),
        m >= 1,
    ensures
        match r {
            Ok(v) => text_samples(b@, rest(b@, start as int, e as int, false), n as nat, m as nat)
                == Ok::<Seq<u8>, Error>(v@),
            Err(x) => text_samples(b@, rest(b@, start as int, e as int, false), n as nat, m as nat)
                == Err::<Seq<u8>, Error>(x),
        },
{
    let ghost ts = rest(b@, start as int, e as int, false);
    let mut out: Vec<u8> = Vec::new();
    let mut q = start;
    let mut le = e;
    let mut i: usize = 0;
    while i < n
        invariant
            m >= 1,
            i <= n,
            i <= ts.len(),
            q <= le,
            is_line_end(b@, le as int),
            ts == rest(b@, start as int, e as int, false),
            rest(b@, q as int, le as int, false) == ts.skip(i as int),
            out@.len() == i,
            forall|k: int| 0 <= k < i ==> token_sample(b@, ts[k], m as nat) == Some(#[trigger] out@[k]),
        decreases n - i,
    {
        match read_text_sample(b, q, le, m) {
            Ok((v, q2, e2)) => {
                proof {
                    assert(ts.skip(i as int)[0] == ts[i as int]);
                    assert(ts.skip(i as int).drop_first() =~= ts.skip(i + 1));
                }
                out.push(v);
                q = q2;
                le = e2;
                i = i + 1;
            },
            Err(x) => {
                proof {
                    if x == Error::InvalidPixelValue {
                        assert(ts.skip(i as int)[0] == ts[i as int]);
                        assert(token_sample(b@, ts[i as int], m as nat) is None);
                    } else {
                        assert(ts.len() == i);
                        assert forall|k: int| 0 <= k < n && k < ts.len() implies (#[trigger] token_sample(b@, ts[k], m as nat)) is Some by {
                            assert(token_sample(b@, ts[k], m as nat) == Some(out@[k]));
                        }
                    }
                }
                return Err(x);
            },
        }
    }
    proof {
        assert forall|k: int| 0 <= k < n && k < ts.len() implies (#[trigger] token_sample(b@, ts[k], m as nat)) is Some by {
            assert(token_sample(b@, ts[k], m as nat) == Some(out@[k]));
        }
        assert(out@ =~= Seq::new(n as nat, |k: int| token_sample(b@, ts[k], m as nat)->Some_0));
    }
    Ok(out)
}


proof fn lemma_text_samples_past_end(b: Seq<u8>, ts: Seq<(int, int, int)>, k1: nat, k2: nat, m: nat)
    requires
        k1 > ts.len(),
        k2 > ts.len(),
    ensures
        text_samples(b, ts, k1, m) == text_samples(b, ts, k2, m),
{
    if exists|i: int| 0 <= i < k1 && i < ts.len() && (#[trigger] token_sample(b, ts[i], m)) is None {
        let i = choose|i: int| 0 <= i < k1 && i < ts.len() && (#[trigger] token_sample(b, ts[i], m)) is None;
        assert(0 <= i < k2 && i < ts.len() && token_sample(b, ts[i], m) is None);
    } else if exists|i: int| 0 <= i < k2 && i < ts.len() && (#[trigger] token_sample(b, ts[i], m)) is None {
        let i = choose|i: int| 0 <= i < k2 && i < ts.len() && (#[trigger] token_sample(b, ts[i], m)) is None;
        assert(0 <= i < k1 && i < ts.len() && token_sample(b, ts[i], m) is None);
    }
}

/// Reads the `n` gray samples of a text graymap body.
fn read_pgm_ascii(b: &[u8], start: usize, e: usize, n: usize, m: u16) -> (r: Result<Vec<u8>, Error>)
    requires
        start <= e,
        is_line_end(b@, e as int),
        m >= 1,
    ensures
        match r {
            Ok(v) => body_spec(b@, 2, n as nat, 1, m as nat, start as int, e as int) == Ok::<Seq<u8>, Error>(v@),
            Err(x) => body_spec(b@, 2, n as nat, 1, m as nat, start as int, e as int) == Err::<Seq<u8>, Error>(x),
        },
{
    read_text_samples(b, start, e, n, m)
}

/// Groups `3 * n` samples of `v` from `start` on into colors.
fn group_colors(v: &[u8], start: usize, n: usize) -> (r: Vec<Color8>)
    requires
        start + 3 * n <= v@.len(),
    ensures
        r@.len() == n,
        flatten(r@) == v@.subrange(start as int, start + 3 * n),
{
    let len = v.len();
    let mut out: Vec<Color8> = Vec::new();
    let mut k: usize = 0;
    while k < n
        invariant
            len == v@.len(),
            k <= n,
            start + 3 * n <= v@.len(),
            out@.len() == k,
            forall|j: int| 0 <= j < k ==> #[trigger] out@[j] == (Color8 {
                red: v@[start + 3 * j],
                green: v@[start + 3 * j + 1],
                blue: v@[start + 3 * j + 2],
            }),
        decreases n - k,
    {
        let i = start + 3 * k;
        out.push(Color8::new(v[i], v[i + 1], v[i + 2]));
        k = k + 1;
    }
    proof {
        assert forall|j: int| 0 <= j < 3 * n implies #[trigger] flatten(out@)[j] == v@.subrange(start as int, start + 3 * n)[j] by {
            let c = j / 3;
            assert(0 <= c < n);
            assert(out@[c] == (Color8 {
                red: v@[start + 3 * c],
                green: v@[start + 3 * c + 1],
                blue: v@[start + 3 * c + 2],
            }));
        }
        assert(flatten(out@) =~= v@.subrange(start as int, start + 3 * n));
    }
    out
}

/// Reads the `n` colors of a text pixmap body.
fn read_ppm_ascii(b: &[u8], start: usize, e: usize, n: usize, m: u16) -> (r: Result<Vec<Color8>, Error>)
    requires
        1 <= start <= e,
        is_line_end(b@, e as int),
        m >= 1,
    ensures
        match r {
            Ok(v) => body_spec(b@, 3, n as nat, 1, m as nat, start as int, e as int) == Ok::<Seq<u8>, Error>(flatten(v@)),
            Err(x) => body_spec(b@, 3, n as nat, 1, m as nat, start as int, e as int) == Err::<Seq<u8>, Error>(x),
        },
{
    let ghost ts = rest(b@, start as int, e as int, false);
    let len = b.len();
    if n > usize::MAX / 3 {
        proof {
            assert(len <= usize::MAX);
            lemma_rest_len(b@, start as int, e as int);
            lemma_text_samples_past_end(b@, ts, usize::MAX as nat, 3 * n as nat, m as nat);
        }
        return match read_text_samples(b, start, e, usize::MAX, m) {
            Ok(_) => Err(Error::UnexpectedEof),
            Err(x) => Err(x),
        };
    }
    match read_text_samples(b, start, e, 3 * n, m) {
        Ok(v) => {
            let r = group_colors(&v, 0, n);
            proof {
                assert(v@.subrange(0, 3 * n) =~= v@);
            }
            Ok(r)
        },
        Err(x) => Err(x),
    }
}

/// Reads the `n` pixels of a text bitmap body, one character each.
fn read_pbm_ascii(b: &[u8], start: usize, e: usize, n: usize) -> (r: Result<Vec<u8>, Error>)
    requires
        start <= e,
        is_line_end(b@, e as int),
    ensures
        match r {
            Ok(v) => body_spec(b@, 1, n as nat, 1, 0, start as int, e as int) == Ok::<Seq<u8>, Error>(v@),
            Err(x) => body_spec(b@, 1, n as nat, 1, 0, start as int, e as int) == Err::<Seq<u8>, Error>(x),
        },
{
    let ghost ts = rest(b@, start as int, e as int, true);
    let mut out: Vec<u8> = Vec::new();
    let mut q = start;
    let mut le = e;
    let mut i: usize = 0;
    while i < n
        invariant
            i <= n,
            i <= ts.len(),
            q <= le,
            is_line_end(b@, le as int),
            ts == rest(b@, start as int, e as int, true),
            rest(b@, q as int, le as int, true) == ts.skip(i as int),
            out@.len() == i,
            forall|k: int| 0 <= k < i ==> #[trigger] out@[k] == bit_of_char(b@[ts[k].0]),
        decreases n - i,
    {
        match next_token(b, q, le, true) {
            Some((s, t, e2)) => {
                proof {
                    assert(ts.skip(i as int)[0] == ts[i as int]);
                    assert(ts.skip(i as int).drop_first() =~= ts.skip(i + 1));
                }
                out.push(if b[s] == 48u8 {
                    0u8
                } else {
                    1u8
                });
                q = t;
                le = e2;
                i = i + 1;
            },
            None => {
                return Err(Error::UnexpectedEof);
            },
        }
    }
    proof {
        assert(out@ =~= Seq::new(n as nat, |k: int| bit_of_char(b@[ts[k].0])));
    }
    Ok(out)
}

/// Bytes that one packed bitmap row of width `w` takes.
pub fn packed_row_len(w: usize) -> (r: usize)
    ensures
        r == row_bytes(w as nat),
        r <= w,
{
    w / 8 + if w % 8 != 0 {
        1
    } else {
        0
    }
}

/// Reads a binary bitmap body of `w` by `h` pixels starting at `p`.
fn read_pbm_binary(b: &[u8], e: usize, w: usize, h: usize) -> (r: Result<Vec<u8>, Error>)
    requires
        is_line_end(b@, e as int),
        w * h <= usize::MAX,
    ensures
        match r {
            Ok(v) => body_spec(b@, 4, w as nat, h as nat, 0, e as int, e as int) == Ok::<Seq<u8>, Error>(v@),
            Err(x) => body_spec(b@, 4, w as nat, h as nat, 0, e as int, e as int) == Err::<Seq<u8>, Error>(x),
        },
{
    let p = if e < b.len() {
        e + 1
    } else {
        e
    };
    let rb = packed_row_len(w);
    proof {
        assert(rb * h <= w * h) by (nonlinear_arith)
            requires
                rb <= w,
        ;
    }
    if rb * h > b.len() - p {
        return Err(Error::UnexpectedEof);
    }
    let n = w * h;
    let len = b.len();
    let mut out: Vec<u8> = Vec::new();
    let mut i: usize = 0;
    while i < n
        invariant
            len == b@.len(),
            i <= n,
            n == w * h,
            rb == row_bytes(w as nat),
            rb <= w,
            p + rb * h <= b@.len(),
            p == after_line(b@, e as int),
            out@.len() == i,
            forall|k: int| 0 <= k < i ==> #[trigger] out@[k] == unpacked(b@, p + (k / w as int) * rb, k % w as int),
        decreases n - i,
    {
        let y = i / w;
        let x = i % w;
        proof {
            assert(y < h) by (nonlinear_arith)
                requires
                    i < w * h,
                    y == i / w,
                    w > 0,
            ;
            assert(x / 8 < rb) by (nonlinear_arith)
                requires
                    x < w,
                    rb == (w + 7) / 8,
            ;
            assert(y * rb + x / 8 < rb * h) by (nonlinear_arith)
                requires
                    y < h,
                    x / 8 < rb,
            ;
            assert(y * rb <= rb * h) by (nonlinear_arith)
                requires
                    y < h,
            ;
        }
        let byte = b[p + y * rb + x / 8];
        let shift = (7 - x % 8) as u8;
        out.push((byte >> shift) & 1u8);
        i = i + 1;
    }
    proof {
        assert(out@ =~= Seq::new(n as nat, |k: int| unpacked(b@, p + (k / w as int) * row_bytes(w as nat), k % w as int)));
    }
    Ok(out)
}

/// Reads a binary graymap or pixmap body of `n` samples starting at `p`.
fn read_raw_samples(b: &[u8], e: usize, n: usize, m: u16) -> (r: Result<Vec<u8>, Error>)
    requires
        is_line_end(b@, e as int),
    ensures
        match r {
            Ok(v) => body_spec(b@, 5, n as nat, 1, m as nat, e as int, e as int) == Ok::<Seq<u8>, Error>(v@),
            Err(x) => body_spec(b@, 5, n as nat, 1, m as nat, e as int, e as int) == Err::<Seq<u8>, Error>(x),
        },
{
    if m >= 256 {
        return Err(Error::SixteenBitSamples);
    }
    let p = if e < b.len() {
        e + 1
    } else {
        e
    };
    if n > b.len() - p {
        return Err(Error::UnexpectedEof);
    }
    let len = b.len();
    let mut out: Vec<u8> = Vec::new();
    let mut i: usize = 0;
    while i < n
        invariant
            len == b@.len(),
            i <= n,
            p + n <= b@.len(),
            out@ == b@.subrange(p as int, p + i),
        decreases n - i,
    {
        out.push(b[p + i]);
        i = i + 1;
        proof {
            assert(out@ =~= b@.subrange(p as int, p + i));
        }
    }
    Ok(out)
}

/// Reads a binary graymap body of `n` samples.
fn read_pgm_binary(b: &[u8], e: usize, n: usize, m: u16) -> (r: Result<Vec<u8>, Error>)
    requires
        is_line_end(b@, e as int),
    ensures
        match r {
            Ok(v) => body_spec(b@, 5, n as nat, 1, m as nat, e as int, e as int) == Ok::<Seq<u8>, Error>(v@),
            Err(x) => body_spec(b@, 5, n as nat, 1, m as nat, e as int, e as int) == Err::<Seq<u8>, Error>(x),
        },
{
    read_raw_samples(b, e, n, m)
}

/// Reads a binary pixmap body of `n` colors.
fn read_ppm_binary(b: &[u8], e: usize, n: usize, m: u16) -> (r: Result<Vec<Color8>, Error>)
    requires
        is_line_end(b@, e as int),
    ensures
        match r {
            Ok(v) => body_spec(b@, 6, n as nat, 1, m as nat, e as int, e as int) == Ok::<Seq<u8>, Error>(flatten(v@)),
            Err(x) => body_spec(b@, 6, n as nat, 1, m as nat, e as int, e as int) == Err::<Seq<u8>, Error>(x),
        },
{
    if m >= 256 {
        return Err(Error::SixteenBitSamples);
    }
    let p = if e < b.len() {
        e + 1
    } else {
        e
    };
    if n > (b.len() - p) / 3 {
        return Err(Error::UnexpectedEof);
    }
    Ok(group_colors(b, p, n))
}

impl Image {
    /// Decodes a Netpbm image from the bytes of a whole stream.
    pub fn read_from(bytes: &[u8]) -> (r: Result<Image, Error>)
        ensures
            match r {
                Ok(img) => img.wf() && decode_spec(bytes@) == Ok::<(Format, nat, nat, Seq<u8>), Error>(
                    (img.format, img.width as nat, img.height as nat, img.samples()),
                ),
                Err(x) => decode_spec(bytes@) == Err::<(Format, nat, nat, Seq<u8>), Error>(x),
            },
    {
        let hd = read_header(bytes)?;
        let (w, h, m, t, e) = (hd.width, hd.height, hd.maxval, hd.last, hd.end);
        let n = w * h;
        proof {
            assert(n as nat * 1 == w as nat * h as nat);
        }
        let ghost body = body_spec(bytes@, hd.digit, w as nat, h as nat, m as nat, t as int, e as int);
        let data = if hd.digit == 1 {
            let v = read_pbm_ascii(bytes, t, e, n)?;
            proof {
                assert(body == Ok::<Seq<u8>, Error>(v@));
            }
            ImageData::Bitmap(v)
        } else if hd.digit == 2 {
            let v = read_pgm_ascii(bytes, t, e, n, m)?;
            proof {
                assert(body == Ok::<Seq<u8>, Error>(v@));
            }
            ImageData::Graymap(v)
        } else if hd.digit == 3 {
            let v = read_ppm_ascii(bytes, t, e, n, m)?;
            proof {
                assert(body == Ok::<Seq<u8>, Error>(flatten(v@)));
            }
            ImageData::Pixmap(v)
        } else if hd.digit == 4 {
            let v = read_pbm_binary(bytes, e, w, h)?;
            proof {
                assert(body == Ok::<Seq<u8>, Error>(v@));
            }
            ImageData::Bitmap(v)
        } else if hd.digit == 5 {
            let v = read_pgm_binary(bytes, e, n, m)?;
            proof {
                assert(body == Ok::<Seq<u8>, Error>(v@));
            }
            ImageData::Graymap(v)
        } else {
            let v = read_ppm_binary(bytes, e, n, m)?;
            proof {
                assert(body == Ok::<Seq<u8>, Error>(flatten(v@)));
            }
            ImageData::Pixmap(v)
        };
        let img = Image { width: w, height: h, format: Format::of_digit(hd.digit), data };
        proof {
            assert(img.samples().len() == img.format.channels() * n);
        }
        Ok(img)
    }
}

} // verus!
