use vstd::prelude::*;

use crate::decode::{
    bit_of_char, decode_spec, header_spec, rescale, row_bytes, token_sample, unpacked,
};
use crate::encode::{
    cap, encode_spec, lemma_cap8, lemma_cap_bounds, lemma_pack_bits_bound, header_bytes, ink, pack_bits, packed_body, text_bits,
    text_numbers,
};
use crate::image::{digit_of, Encoding, Error, Format};
use crate::number::{all_digits, decimal, digits_value, is_digit, number_at};
use crate::text::{
    after_line, first_nonspace, is_space, lemma_first_nonspace_bounds, lemma_line_end_bounds,
    lemma_token_end_bounds, line_end, rest, skipped, token_end, toks, toks_in,
};

verus! {

/// A binary body that ends before all its pixels are read gives `UnexpectedEof`, never a
/// partial image.
pub proof fn truncated_binary_body_fails(b: Seq<u8>)
    requires
        header_spec(b) is Ok,
        ({
            let (d, w, h, m, t, e) = header_spec(b)->Ok_0;
            let p = after_line(b, e);
            ||| d == 4 && p + row_bytes(w) * h > b.len()
            ||| d == 5 && m < 256 && p + w * h > b.len()
            ||| d == 6 && m < 256 && p + 3 * (w * h) > b.len()
        }),
    ensures
        decode_spec(b) == Err::<(Format, nat, nat, Seq<u8>), Error>(Error::UnexpectedEof),
{
}

proof fn lemma_decimal(n: nat)
    ensures
        all_digits(decimal(n)),
        digits_value(decimal(n)) == n,
    decreases n,
{
    if n >= 10 {
        lemma_decimal(n / 10);
        let s = decimal(n);
        assert(s.drop_last() =~= decimal(n / 10));
        assert(s.last() == (48 + n % 10) as u8);
        assert(digits_value(s) == digits_value(decimal(n / 10)) * 10 + n % 10);
        assert(n == (n / 10) * 10 + n % 10);
        assert forall|i: int| 0 <= i < s.len() implies is_digit(#[trigger] s[i]) by {
            if i < s.len() - 1 {
                assert(s[i] == decimal(n / 10)[i]);
            }
        }
    } else {
        assert(decimal(n).drop_last() =~= Seq::<u8>::empty());
        assert(digits_value(Seq::<u8>::empty()) == 0);
        assert(digits_value(decimal(n)) == digits_value(decimal(n).drop_last()) * 10 + n);
    }
}

proof fn lemma_line_end_at(b: Seq<u8>, p: int, q: int)
    requires
        0 <= p <= q <= b.len(),
        q == b.len() || b[q] == 10u8,
        forall|i: int| p <= i < q ==> #[trigger] b[i] != 10u8,
    ensures
        line_end(b, p) == q,
    decreases q - p,
{
    if p < q {
        lemma_line_end_at(b, p + 1, q);
    }
}

proof fn lemma_token_end_at(b: Seq<u8>, q: int, t: int, e: int)
    requires
        q <= t <= e,
        forall|i: int| q <= i < t ==> !is_space(#[trigger] b[i]),
        t == e || is_space(b[t]),
    ensures
        token_end(b, q, e) == t,
    decreases t - q,
{
    if q < t {
        lemma_token_end_at(b, q + 1, t, e);
    }
}

proof fn lemma_first_nonspace_at(b: Seq<u8>, q: int, f: int, e: int)
    requires
        q <= f <= e,
        forall|i: int| q <= i < f ==> is_space(#[trigger] b[i]),
        f == e || !is_space(b[f]),
    ensures
        first_nonspace(b, q, e) == f,
    decreases f - q,
{
    if q < f {
        lemma_first_nonspace_at(b, q + 1, f, e);
    }
}

/// `b[s..s + |decimal(n)|]` holds `decimal(n)`: a token that reads back as `n`.
proof fn lemma_number_token(b: Seq<u8>, s: int, n: nat, limit: nat)
    requires
        0 <= s,
        s + decimal(n).len() <= b.len(),
        b.subrange(s, s + decimal(n).len()) == decimal(n),
        n <= limit,
    ensures
        number_at(b, s, s + decimal(n).len(), limit) == Some(n),
        forall|i: int| s <= i < s + decimal(n).len() ==> !is_space(#[trigger] b[i]) && b[i]
            != 10u8 && b[i] != 35u8,
{
    lemma_decimal(n);
    assert(b[s] == decimal(n)[0]);
    assert(is_digit(decimal(n)[0]));
    assert forall|i: int| s <= i < s + decimal(n).len() implies !is_space(#[trigger] b[i]) && b[i]
        != 10u8 && b[i] != 35u8 by {
        assert(b[i] == decimal(n)[i - s]);
        assert(is_digit(decimal(n)[i - s]));
    }
}

/// The header that the encoder writes reads back as the same digit and dimensions,
/// whatever follows it.
proof fn lemma_header_round_trip(d: u8, w: nat, h: nat, body: Seq<u8>)
    requires
        1 <= d <= 6,
        w <= usize::MAX,
        h <= usize::MAX,
        w * h <= usize::MAX,
    ensures
        header_spec(header_bytes(d, w, h) + body) == Ok::<(u8, nat, nat, nat, int, int), Error>(
            (
                d,
                w,
                h,
                if d == 1 || d == 4 {
                    0nat
                } else {
                    255nat
                },
                header_bytes(d, w, h).len() - 1,
                header_bytes(d, w, h).len() - 1,
            ),
        ),
{
    let hb = header_bytes(d, w, h);
    let b = hb + body;
    let dw = decimal(w);
    let dh = decimal(h);
    let d255 = decimal(255);
    lemma_decimal(w);
    lemma_decimal(h);
    lemma_decimal(255);
    let sp: int = 3 + dw.len() as int;
    let nl1: int = sp + 1 + dh.len() as int;
    let nl2: int = nl1 + 1 + d255.len() as int;
    assert(b[0] == 80u8);
    assert(b[1] == (48 + d) as u8);
    assert(b[2] == 10u8);
    assert(b.subrange(3, sp) =~= dw);
    assert(b[sp] == 32u8);
    assert(b.subrange(sp + 1, nl1) =~= dh);
    assert(b[nl1] == 10u8);
    lemma_number_token(b, 3, w, usize::MAX as nat);
    lemma_number_token(b, sp + 1, h, usize::MAX as nat);
    // The magic line.
    lemma_line_end_at(b, 0, 2);
    lemma_first_nonspace_at(b, 0, 0, 2);
    lemma_token_end_at(b, 0, 2, 2);
    lemma_first_nonspace_at(b, 2, 2, 2);
    assert(toks_in(b, 2, 2, false) =~= Seq::<(int, int, int)>::empty());
    assert(toks_in(b, 0, 2, false) =~= seq![(0int, 2int, 2int)]);
    let t0 = toks(b, 0, false);
    assert(t0 =~= seq![(0int, 2int, 2int)] + toks(b, 3, false));
    assert(b.subrange(0, 2) =~= seq![80u8, (48 + d) as u8]);
    // The dimensions line.
    lemma_line_end_at(b, 3, nl1);
    lemma_first_nonspace_at(b, 3, 3, nl1);
    lemma_token_end_at(b, 3, sp, nl1);
    lemma_first_nonspace_at(b, sp, sp + 1, nl1);
    lemma_token_end_at(b, sp + 1, nl1, nl1);
    lemma_first_nonspace_at(b, nl1, nl1, nl1);
    assert(toks_in(b, nl1, nl1, false) =~= Seq::<(int, int, int)>::empty());
    assert(toks_in(b, sp, nl1, false) =~= seq![(sp + 1, nl1, nl1)]);
    assert(toks_in(b, 3, nl1, false) =~= seq![(3int, sp, nl1), (sp + 1, nl1, nl1)]);
    let ds = rest(b, 2, 2, false);
    assert(ds =~= seq![(3int, sp, nl1), (sp + 1, nl1, nl1)] + toks(b, nl1 + 1, false));
    if d == 1 || d == 4 {
        assert(hb.len() == nl1 + 1);
    } else {
        assert(hb.len() == nl2 + 1);
        assert(b.subrange(nl1 + 1, nl2) =~= d255);
        assert(b[nl2] == 10u8);
        lemma_number_token(b, nl1 + 1, 255, 65535);
        lemma_line_end_at(b, nl1 + 1, nl2);
        lemma_first_nonspace_at(b, nl1 + 1, nl1 + 1, nl2);
        lemma_token_end_at(b, nl1 + 1, nl2, nl2);
        lemma_first_nonspace_at(b, nl2, nl2, nl2);
        assert(toks_in(b, nl2, nl2, false) =~= Seq::<(int, int, int)>::empty());
        assert(toks_in(b, nl1 + 1, nl2, false) =~= seq![(nl1 + 1, nl2, nl2)]);
        let ms = rest(b, nl1, nl1, false);
        assert(ms =~= seq![(nl1 + 1, nl2, nl2)] + toks(b, nl2 + 1, false));
    }
}

proof fn binary_round_trip(f: Format, w: nat, h: nat, s: Seq<u8>)
    requires
        f != Format::Bitmap,
        w <= usize::MAX,
        h <= usize::MAX,
        w * h <= usize::MAX,
        s.len() == f.channels() * (w * h),
    ensures
        decode_spec(encode_spec(f, w, h, s, Encoding::Binary)) == Ok::<
            (Format, nat, nat, Seq<u8>),
            Error,
        >((f, w, h, s)),
{
    let d = digit_of(f, Encoding::Binary);
    let hb = header_bytes(d, w, h);
    let b = hb + s;
    lemma_header_round_trip(d, w, h, s);
    assert(encode_spec(f, w, h, s, Encoding::Binary) == b);
    assert(after_line(b, hb.len() - 1) == hb.len());
    assert(b.subrange(hb.len() as int, hb.len() + s.len() as int) =~= s);
}

proof fn lemma_text_numbers_front(s: Seq<u8>)
    requires
        s.len() > 0,
    ensures
        text_numbers(s) == decimal(s[0] as nat) + seq![32u8] + text_numbers(s.drop_first()),
    decreases s.len(),
{
    if s.len() == 1 {
        assert(s.drop_last() =~= Seq::<u8>::empty());
        assert(s.drop_first() =~= Seq::<u8>::empty());
        assert(text_numbers(s) =~= decimal(s[0] as nat) + seq![32u8] + text_numbers(s.drop_first()));
    } else {
        lemma_text_numbers_front(s.drop_last());
        assert(s.drop_first().drop_last() =~= s.drop_last().drop_first());
        assert(s.drop_first().last() == s.last());
        assert(text_numbers(s) =~= decimal(s[0] as nat) + seq![32u8] + text_numbers(s.drop_first()));
    }
}

proof fn lemma_text_bits_front(s: Seq<u8>)
    requires
        s.len() > 0,
    ensures
        text_bits(s) == seq![(48 + ink(s[0])) as u8, 32u8] + text_bits(s.drop_first()),
    decreases s.len(),
{
    if s.len() == 1 {
        assert(s.drop_last() =~= Seq::<u8>::empty());
        assert(s.drop_first() =~= Seq::<u8>::empty());
        assert(text_bits(s) =~= seq![(48 + ink(s[0])) as u8, 32u8] + text_bits(s.drop_first()));
    } else {
        lemma_text_bits_front(s.drop_last());
        assert(s.drop_first().drop_last() =~= s.drop_last().drop_first());
        assert(s.drop_first().last() == s.last());
        assert(text_bits(s) =~= seq![(48 + ink(s[0])) as u8, 32u8] + text_bits(s.drop_first()));
    }
}

proof fn lemma_skip_space_toks(b: Seq<u8>, q: int, e: int, single: bool)
    requires
        q < e,
        is_space(b[q]),
    ensures
        toks_in(b, q, e, single) == toks_in(b, q + 1, e, single),
{
    assert(first_nonspace(b, q, e) == first_nonspace(b, q + 1, e));
}

/// Every byte of a text body is a digit or a space.
proof fn lemma_text_numbers_bytes(s: Seq<u8>)
    ensures
        forall|i: int| 0 <= i < text_numbers(s).len() ==> is_digit(#[trigger] text_numbers(s)[i])
            || text_numbers(s)[i] == 32u8,
    decreases s.len(),
{
    if s.len() > 0 {
        lemma_text_numbers_bytes(s.drop_last());
        lemma_decimal(s.last() as nat);
        let a = text_numbers(s.drop_last());
        let d = decimal(s.last() as nat);
        assert forall|i: int| 0 <= i < text_numbers(s).len() implies is_digit(#[trigger] text_numbers(s)[i])
            || text_numbers(s)[i] == 32u8 by {
            if i < a.len() {
                assert(text_numbers(s)[i] == a[i]);
            } else if i < a.len() + d.len() {
                assert(text_numbers(s)[i] == d[i - a.len()]);
            }
        }
    }
}

proof fn lemma_text_bits_bytes(s: Seq<u8>)
    ensures
        forall|i: int| 0 <= i < text_bits(s).len() ==> #[trigger] text_bits(s)[i] == 48u8
            || text_bits(s)[i] == 49u8 || text_bits(s)[i] == 32u8,
    decreases s.len(),
{
    if s.len() > 0 {
        lemma_text_bits_bytes(s.drop_last());
        let a = text_bits(s.drop_last());
        assert forall|i: int| 0 <= i < text_bits(s).len() implies #[trigger] text_bits(s)[i] == 48u8
            || text_bits(s)[i] == 49u8 || text_bits(s)[i] == 32u8 by {
            if i < a.len() {
                assert(text_bits(s)[i] == a[i]);
            }
        }
    }
}

proof fn lemma_rescale_full(v: nat)
    requires
        v <= 255,
    ensures
        rescale(v, 255) == v,
{
    assert((v * 510 + 255) / (2 * 255) == v) by (nonlinear_arith)
        requires
            v <= 255,
    ;
}

/// The tokens of a text body that runs to the end of `b` from `q` read back as its
/// samples.
proof fn lemma_numbers_tokens(b: Seq<u8>, q: int, s: Seq<u8>)
    requires
        0 <= q <= b.len(),
        b.subrange(q, b.len() as int) == text_numbers(s),
    ensures
        toks_in(b, q, b.len() as int, false).len() == s.len(),
        forall|i: int| 0 <= i < s.len() ==> token_sample(b, #[trigger] toks_in(b, q, b.len() as int, false)[i], 255) == Some(s[i]),
    decreases s.len(),
{
    let l = b.len() as int;
    let sub = b.subrange(q, l);
    if s.len() == 0 {
        assert(sub.len() == 0);
        lemma_first_nonspace_at(b, q, l, l);
        assert(toks_in(b, q, l, false) =~= Seq::<(int, int, int)>::empty());
    } else {
        lemma_text_numbers_front(s);
        let d = decimal(s[0] as nat);
        let t: int = q + d.len() as int;
        let tail = text_numbers(s.drop_first());
        assert(sub == d + seq![32u8] + tail);
        assert forall|i: int| 0 <= i < d.len() implies b[q + i] == d[i] by {
            assert(sub[i] == b[q + i]);
        }
        assert(b.subrange(q, t) =~= d);
        assert(sub[d.len() as int] == 32u8);
        assert(b[t] == sub[d.len() as int]);
        assert forall|i: int| 0 <= i < tail.len() implies b[t + 1 + i] == tail[i] by {
            assert(sub[d.len() + 1 + i] == b[t + 1 + i]);
        }
        assert(b.subrange(t + 1, l) =~= tail);
        lemma_number_token(b, q, s[0] as nat, 65535);
        lemma_rescale_full(s[0] as nat);
        lemma_first_nonspace_at(b, q, q, l);
        lemma_token_end_at(b, q, t, l);
        lemma_skip_space_toks(b, t, l, false);
        lemma_numbers_tokens(b, t + 1, s.drop_first());
        let ts = toks_in(b, q, l, false);
        assert(ts =~= seq![(q, t, l)] + toks_in(b, t + 1, l, false));
        assert forall|i: int| 0 <= i < s.len() implies token_sample(b, #[trigger] ts[i], 255) == Some(s[i]) by {
            if i > 0 {
                assert(ts[i] == toks_in(b, t + 1, l, false)[i - 1]);
                assert(s.drop_first()[i - 1] == s[i]);
            }
        }
    }
}

/// The tokens of a text bitmap body that runs to the end of `b` from `q` read back as
/// the ink bits of its pixels.
proof fn lemma_bits_tokens(b: Seq<u8>, q: int, s: Seq<u8>)
    requires
        0 <= q <= b.len(),
        b.subrange(q, b.len() as int) == text_bits(s),
    ensures
        toks_in(b, q, b.len() as int, true).len() == s.len(),
        forall|i: int| 0 <= i < s.len() ==> bit_of_char(b[(#[trigger] toks_in(b, q, b.len() as int, true)[i]).0]) == ink(s[i]),
    decreases s.len(),
{
    let l = b.len() as int;
    let sub = b.subrange(q, l);
    if s.len() == 0 {
        assert(sub.len() == 0);
        lemma_first_nonspace_at(b, q, l, l);
        assert(toks_in(b, q, l, true) =~= Seq::<(int, int, int)>::empty());
    } else {
        lemma_text_bits_front(s);
        let tail = text_bits(s.drop_first());
        assert(sub == seq![(48 + ink(s[0])) as u8, 32u8] + tail);
        assert(sub[0] == b[q]);
        assert(sub[1] == b[q + 1]);
        assert(b[q] == (48 + ink(s[0])) as u8);
        assert(b[q + 1] == 32u8);
        assert forall|i: int| 0 <= i < tail.len() implies b[q + 2 + i] == tail[i] by {
            assert(sub[2 + i] == b[q + 2 + i]);
        }
        assert(b.subrange(q + 2, l) =~= tail);
        lemma_first_nonspace_at(b, q, q, l);
        lemma_skip_space_toks(b, q + 1, l, true);
        lemma_bits_tokens(b, q + 2, s.drop_first());
        let ts = toks_in(b, q, l, true);
        assert(ts =~= seq![(q, q + 1, l)] + toks_in(b, q + 2, l, true));
        assert forall|i: int| 0 <= i < s.len() implies bit_of_char(b[(#[trigger] ts[i]).0]) == ink(s[i]) by {
            if i > 0 {
                assert(ts[i] == toks_in(b, q + 2, l, true)[i - 1]);
                assert(s.drop_first()[i - 1] == s[i]);
            }
        }
    }
}

proof fn text_round_trip(f: Format, w: nat, h: nat, s: Seq<u8>)
    requires
        f != Format::Bitmap,
        w <= usize::MAX,
        h <= usize::MAX,
        w * h <= usize::MAX,
        s.len() == f.channels() * (w * h),
    ensures
        decode_spec(encode_spec(f, w, h, s, Encoding::Ascii)) == Ok::<
            (Format, nat, nat, Seq<u8>),
            Error,
        >((f, w, h, s)),
{
    let d = digit_of(f, Encoding::Ascii);
    let hb = header_bytes(d, w, h);
    let body = text_numbers(s);
    let b = hb + body;
    let p = hb.len() as int;
    let l = b.len() as int;
    lemma_header_round_trip(d, w, h, body);
    assert(encode_spec(f, w, h, s, Encoding::Ascii) == b);
    assert(after_line(b, p - 1) == p);
    assert(b.subrange(p, l) =~= body);
    lemma_numbers_tokens(b, p, s);
    lemma_text_numbers_bytes(s);
    let ts = rest(b, p - 1, p - 1, false);
    lemma_first_nonspace_at(b, p - 1, p - 1, p - 1);
    assert(toks_in(b, p - 1, p - 1, false) =~= Seq::<(int, int, int)>::empty());
    if p < l {
        assert forall|i: int| p <= i < l implies #[trigger] b[i] != 10u8 by {
            assert(b[i] == body[i - p]);
        }
        lemma_line_end_at(b, p, l);
        lemma_text_numbers_front(s);
        lemma_decimal(s[0] as nat);
        assert(body[0] == decimal(s[0] as nat)[0]);
        assert(b[p] == body[0]);
        lemma_first_nonspace_at(b, p, p, l);
        assert(toks(b, l, false) =~= Seq::<(int, int, int)>::empty());
        assert(ts =~= toks_in(b, p, l, false));
    } else {
        assert(ts =~= toks_in(b, p, l, false));
    }
    assert(!exists|i: int| 0 <= i < s.len() && i < ts.len() && (#[trigger] token_sample(b, ts[i], 255)) is None);
    assert(Seq::new(s.len(), |i: int| token_sample(b, ts[i], 255)->Some_0) =~= s);
}

proof fn bitmap_text_round_trip(w: nat, h: nat, s: Seq<u8>)
    requires
        w <= usize::MAX,
        h <= usize::MAX,
        w * h <= usize::MAX,
        s.len() == w * h,
    ensures
        decode_spec(encode_spec(Format::Bitmap, w, h, s, Encoding::Ascii)) == Ok::<
            (Format, nat, nat, Seq<u8>),
            Error,
        >((Format::Bitmap, w, h, s.map_values(|v: u8| ink(v)))),
{
    let hb = header_bytes(1, w, h);
    let body = text_bits(s);
    let b = hb + body;
    let p = hb.len() as int;
    let l = b.len() as int;
    lemma_header_round_trip(1, w, h, body);
    assert(encode_spec(Format::Bitmap, w, h, s, Encoding::Ascii) == b);
    assert(b.subrange(p, l) =~= body);
    lemma_bits_tokens(b, p, s);
    lemma_text_bits_bytes(s);
    let ts = rest(b, p - 1, p - 1, true);
    lemma_first_nonspace_at(b, p - 1, p - 1, p - 1);
    assert(toks_in(b, p - 1, p - 1, true) =~= Seq::<(int, int, int)>::empty());
    if p < l {
        assert forall|i: int| p <= i < l implies #[trigger] b[i] != 10u8 by {
            assert(b[i] == body[i - p]);
        }
        lemma_line_end_at(b, p, l);
        lemma_text_bits_front(s);
        assert(b[p] == body[0]);
        lemma_first_nonspace_at(b, p, p, l);
        assert(toks(b, l, true) =~= Seq::<(int, int, int)>::empty());
        assert(ts =~= toks_in(b, p, l, true));
    } else {
        assert(ts =~= toks_in(b, p, l, true));
    }
    assert(Seq::new(s.len(), |i: int| bit_of_char(b[ts[i].0])) =~= s.map_values(|v: u8| ink(v)));
}

proof fn lemma_pack_prefix(s: Seq<u8>, w: nat, y: nat, k: nat, t: nat, j: nat)
    ensures
        pack_bits(s, w, y, k, t) * cap(j) <= pack_bits(s, w, y, k, t + j),
        pack_bits(s, w, y, k, t + j) < (pack_bits(s, w, y, k, t) + 1) * cap(j),
    decreases j,
{
    let a = pack_bits(s, w, y, k, t);
    if j > 0 {
        let j1 = (j - 1) as nat;
        lemma_pack_prefix(s, w, y, k, t, j1);
        let p = pack_bits(s, w, y, k, t + j1);
        let c = cap(j1);
        let x = 8 * k + (t + j) - 1;
        let bit: nat = if x < w {
            ink(s[y * w + x]) as nat
        } else {
            0
        };
        assert(pack_bits(s, w, y, k, t + j) == p * 2 + bit);
        assert(cap(j) == 2 * c);
        assert(a * (2 * c) <= p * 2 + bit && p * 2 + bit < (a + 1) * (2 * c)) by (nonlinear_arith)
            requires
                a * c <= p,
                p < (a + 1) * c,
                bit <= 1,
        ;
    } else {
        assert(cap(0) == 1);
    }
}

proof fn lemma_shift_bit(v: u8, sh: u8)
    requires
        sh < 8,
    ensures
        (v >> sh) & 1u8 == (v as nat / cap(sh as nat)) % 2,
{
    lemma_cap8();
    if sh == 0 {
        assert((v >> 0u8) & 1u8 == v % 2) by (bit_vector);
    } else if sh == 1 {
        assert((v >> 1u8) & 1u8 == (v / 2) % 2) by (bit_vector);
    } else if sh == 2 {
        assert((v >> 2u8) & 1u8 == (v / 4) % 2) by (bit_vector);
    } else if sh == 3 {
        assert((v >> 3u8) & 1u8 == (v / 8) % 2) by (bit_vector);
    } else if sh == 4 {
        assert((v >> 4u8) & 1u8 == (v / 16) % 2) by (bit_vector);
    } else if sh == 5 {
        assert((v >> 5u8) & 1u8 == (v / 32) % 2) by (bit_vector);
    } else if sh == 6 {
        assert((v >> 6u8) & 1u8 == (v / 64) % 2) by (bit_vector);
    } else {
        assert((v >> 7u8) & 1u8 == (v / 128) % 2) by (bit_vector);
    }
}

/// Bit `7 - t` of packed byte `k` of row `y` is the ink bit of pixel `8 * k + t`, or zero
/// past the row's end.
proof fn lemma_packed_bit(s: Seq<u8>, w: nat, y: nat, k: nat, t: nat)
    requires
        t < 8,
    ensures
        ((pack_bits(s, w, y, k, 8) as u8) >> ((7 - t) as u8)) & 1u8 == if 8 * k + t < w {
            ink(s[(y * w + 8 * k + t) as int])
        } else {
            0u8
        },
{
    let j = (7 - t) as nat;
    lemma_pack_prefix(s, w, y, k, t + 1, j);
    lemma_cap_bounds(8);
    lemma_cap_bounds(j);
    lemma_pack_bits_bound(s, w, y, k, 8);
    lemma_cap8();
    let full = pack_bits(s, w, y, k, 8);
    let a = pack_bits(s, w, y, k, t + 1);
    let c = cap(j);
    assert(t + 1 + j == 8);
    assert(full / c == a) by (nonlinear_arith)
        requires
            a * c <= full,
            full < (a + 1) * c,
            c > 0,
    ;
    let bit: nat = if 8 * k + t < w {
        ink(s[(y * w + (8 * k + t)) as int]) as nat
    } else {
        0
    };
    assert(a == pack_bits(s, w, y, k, t) * 2 + bit);
    assert(a % 2 == bit) by (nonlinear_arith)
        requires
            a == pack_bits(s, w, y, k, t) * 2 + bit,
            bit <= 1,
    ;
    lemma_shift_bit(full as u8, (7 - t) as u8);
}

proof fn bitmap_binary_round_trip(w: nat, h: nat, s: Seq<u8>)
    requires
        w <= usize::MAX,
        h <= usize::MAX,
        w * h <= usize::MAX,
        s.len() == w * h,
    ensures
        decode_spec(encode_spec(Format::Bitmap, w, h, s, Encoding::Binary)) == Ok::<
            (Format, nat, nat, Seq<u8>),
            Error,
        >((Format::Bitmap, w, h, s.map_values(|v: u8| ink(v)))),
{
    let hb = header_bytes(4, w, h);
    let body = packed_body(s, w, h);
    let b = hb + body;
    let p = hb.len() as int;
    let rb = row_bytes(w);
    lemma_header_round_trip(4, w, h, body);
    assert(encode_spec(Format::Bitmap, w, h, s, Encoding::Binary) == b);
    assert(after_line(b, p - 1) == p);
    assert(rb == row_bytes(w));
    assert(body.len() == h * rb);
    assert(p + rb * h <= b.len()) by (nonlinear_arith)
        requires
            b.len() == p + h * rb,
    ;
    let n = w * h;
    let dec = Seq::new(n, |i: int| unpacked(b, p + (i / w as int) * rb, i % w as int));
    assert forall|i: int| 0 <= i < n implies #[trigger] dec[i] == ink(s[i]) by {
        let y = i / w as int;
        let x = i % w as int;
        let k = x / 8;
        let t = x % 8;
        assert(w > 0) by (nonlinear_arith)
            requires
                0 <= i < w * h,
        ;
        assert(0 <= y < h && 0 <= x < w && i == y * w + x) by (nonlinear_arith)
            requires
                0 <= i < w * h,
                y == i / w as int,
                x == i % w as int,
                w > 0,
        ;
        assert(0 <= k < rb && x == 8 * k + t && 0 <= t < 8) by (nonlinear_arith)
            requires
                0 <= x < w,
                k == x / 8,
                t == x % 8,
                rb == (w + 7) / 8,
        ;
        let j = y * rb + k;
        assert(j / rb as int == y && j % rb as int == k && 0 <= j < h * rb) by (nonlinear_arith)
            requires
                j == y * rb + k,
                0 <= k < rb,
                0 <= y < h,
        ;
        assert(b[p + y * rb + k] == body[j]);
        lemma_packed_bit(s, w, y as nat, k as nat, t as nat);
        assert(s[y * w + 8 * k + t] == s[i]);
    }
    assert(dec =~= s.map_values(|v: u8| ink(v)));
}

/// Position `i` of a stream after a line of length `c` is inserted at line start `x`.
pub open spec fn shift_pos(i: int, x: int, c: int) -> int {
    if i < x {
        i
    } else {
        i + c
    }
}

/// Token `t` after a line of length `c` is inserted at line start `x`.
pub open spec fn shift_tok(t: (int, int, int), x: int, c: int) -> (int, int, int) {
    (shift_pos(t.0, x, c), shift_pos(t.1, x, c), shift_pos(t.2, x, c))
}

/// A line that the header grammar passes over: blank or a comment, ended by a newline.
pub open spec fn is_skipped_line(c: Seq<u8>) -> bool {
    &&& c.len() > 0
    &&& c.last() == 10u8
    &&& forall|i: int| 0 <= i < c.len() - 1 ==> #[trigger] c[i] != 10u8
    &&& skipped(c, 0, c.len() - 1)
}

/// `x` is empty or ends with a newline, so that what follows it starts a line.
pub open spec fn ends_line(x: Seq<u8>) -> bool {
    x.len() == 0 || x.last() == 10u8
}

/// The shape of a token of `b`: a non-empty range inside the line that ends at its third
/// component.
pub open spec fn tok_shape(b: Seq<u8>, t: (int, int, int)) -> bool {
    0 <= t.0 < t.1 <= t.2 <= b.len() && line_end(b, t.0) == t.2
}

proof fn lemma_line_end_inside(b: Seq<u8>, p: int, i: int)
    requires
        0 <= p <= i <= line_end(b, p),
    ensures
        line_end(b, i) == line_end(b, p),
    decreases i - p,
{
    if p < i {
        lemma_line_end_bounds(b, p);
        assert(b[p] != 10u8);
        lemma_line_end_inside(b, p + 1, i);
    }
}

proof fn lemma_line_end_before(b: Seq<u8>, p: int, q: int)
    requires
        0 <= p <= q < b.len(),
        b[q] == 10u8,
    ensures
        line_end(b, p) <= q,
    decreases q - p,
{
    if p < q && b[p] != 10u8 {
        lemma_line_end_before(b, p + 1, q);
    }
}

proof fn lemma_toks_in_shape(b: Seq<u8>, q: int, e: int, s: bool)
    requires
        0 <= q <= e <= b.len(),
        forall|i: int| q <= i <= e ==> line_end(b, i) == e,
    ensures
        forall|k: int| 0 <= k < toks_in(b, q, e, s).len() ==> tok_shape(b, #[trigger] toks_in(b, q, e, s)[k]) && q <= toks_in(b, q, e, s)[k].0 && toks_in(b, q, e, s)[k].2 == e,
    decreases e - q,
{
    lemma_first_nonspace_bounds(b, q, e);
    let f = first_nonspace(b, q, e);
    if f < e {
        lemma_token_end_bounds(b, f, e);
        let t = if s {
            f + 1
        } else {
            token_end(b, f, e)
        };
        lemma_toks_in_shape(b, t, e, s);
        let ts = toks_in(b, q, e, s);
        assert(ts == seq![(f, t, e)] + toks_in(b, t, e, s));
        assert forall|k: int| 0 <= k < ts.len() implies tok_shape(b, #[trigger] ts[k]) && q <= ts[k].0 && ts[k].2 == e by {
            if k > 0 {
                assert(ts[k] == toks_in(b, t, e, s)[k - 1]);
            }
        }
    }
}

proof fn lemma_toks_shape(b: Seq<u8>, p: int, s: bool)
    requires
        0 <= p,
    ensures
        forall|k: int| 0 <= k < toks(b, p, s).len() ==> tok_shape(b, #[trigger] toks(b, p, s)[k]) && p <= toks(b, p, s)[k].0,
    decreases b.len() - p,
{
    if p < b.len() {
        lemma_line_end_bounds(b, p);
        let e = line_end(b, p);
        assert forall|i: int| p <= i <= e implies line_end(b, i) == e by {
            lemma_line_end_inside(b, p, i);
        }
        lemma_toks_in_shape(b, p, e, s);
        lemma_toks_shape(b, after_line(b, e), s);
        let ts = toks(b, p, s);
        if skipped(b, p, e) {
            assert(ts == toks(b, after_line(b, e), s));
            assert(after_line(b, e) >= p);
        } else {
            let a = toks_in(b, p, e, s);
            assert forall|k: int| 0 <= k < ts.len() implies tok_shape(b, #[trigger] ts[k]) && p <= ts[k].0 by {
                if k < a.len() {
                    assert(ts[k] == a[k]);
                } else {
                    assert(ts[k] == toks(b, after_line(b, e), s)[k - a.len()]);
                }
            }
        }
    } else {
        assert(toks(b, p, s).len() == 0);
    }
}

/// Token `t` moved by `d`.
pub open spec fn add_tok(t: (int, int, int), d: int) -> (int, int, int) {
    (t.0 + d, t.1 + d, t.2 + d)
}

proof fn lemma_scan_shift(u: Seq<u8>, v: Seq<u8>, q: int, e: int, d: int)
    requires
        0 <= q <= e <= u.len(),
        0 <= q + d,
        forall|i: int| q <= i < e ==> v[i + d] == #[trigger] u[i],
    ensures
        first_nonspace(v, q + d, e + d) == first_nonspace(u, q, e) + d,
        token_end(v, q + d, e + d) == token_end(u, q, e) + d,
    decreases e - q,
{
    if q < e {
        assert(v[q + d] == u[q]);
        lemma_scan_shift(u, v, q + 1, e, d);
        assert(q + 1 + d == q + d + 1);
    }
}

proof fn lemma_toks_in_shift(u: Seq<u8>, v: Seq<u8>, q: int, e: int, d: int, s: bool)
    requires
        0 <= q <= e <= u.len(),
        0 <= q + d,
        forall|i: int| q <= i < e ==> v[i + d] == #[trigger] u[i],
    ensures
        toks_in(v, q + d, e + d, s) == toks_in(u, q, e, s).map_values(|t: (int, int, int)| add_tok(t, d)),
    decreases e - q,
{
    lemma_scan_shift(u, v, q, e, d);
    lemma_first_nonspace_bounds(u, q, e);
    let f = first_nonspace(u, q, e);
    if f < e {
        lemma_token_end_bounds(u, f, e);
        lemma_scan_shift(u, v, f, e, d);
        let t = if s {
            f + 1
        } else {
            token_end(u, f, e)
        };
        lemma_toks_in_shift(u, v, t, e, d, s);
        let a = toks_in(u, t, e, s);
        assert(toks_in(u, q, e, s) == seq![(f, t, e)] + a);
        assert(toks_in(v, q + d, e + d, s) == seq![(f + d, t + d, e + d)] + toks_in(v, t + d, e + d, s));
        assert((seq![(f, t, e)] + a).map_values(|t: (int, int, int)| add_tok(t, d)) =~= seq![(f + d, t + d, e + d)] + a.map_values(|t: (int, int, int)| add_tok(t, d)));
    } else {
        assert(toks_in(v, q + d, e + d, s) =~= Seq::<(int, int, int)>::empty());
        assert(toks_in(u, q, e, s).map_values(|t: (int, int, int)| add_tok(t, d)) =~= Seq::<(int, int, int)>::empty());
    }
}

/// Where `v` ends with a copy of `u` from `p` on, moved by `d`, so do its lines and
/// tokens.
proof fn lemma_toks_tail_shift(u: Seq<u8>, v: Seq<u8>, p: int, d: int, s: bool)
    requires
        0 <= p,
        0 <= d,
        v.len() == u.len() + d,
        forall|i: int| p <= i < u.len() ==> v[i + d] == #[trigger] u[i],
    ensures
        toks(v, p + d, s) == toks(u, p, s).map_values(|t: (int, int, int)| add_tok(t, d)),
        line_end(v, p + d) == line_end(u, p) + d || p > u.len(),
    decreases u.len() - p,
{
    if p < u.len() {
        lemma_line_end_bounds(u, p);
        let e = line_end(u, p);
        lemma_line_end_tail_shift(u, v, p, d);
        assert(forall|i: int| p <= i < e ==> v[i + d] == #[trigger] u[i]);
        lemma_scan_shift(u, v, p, e, d);
        lemma_toks_in_shift(u, v, p, e, d, s);
        let n = after_line(u, e);
        assert(after_line(v, e + d) == n + d);
        lemma_toks_tail_shift(u, v, n, d, s);
        lemma_first_nonspace_bounds(u, p, e);
        let f = first_nonspace(u, p, e);
        if f < e {
            assert(v[f + d] == u[f]);
        }
        assert(skipped(v, p + d, e + d) == skipped(u, p, e));
        let tail = toks(u, n, s);
        if skipped(u, p, e) {
            assert(toks(v, p + d, s) == toks(v, n + d, s));
        } else {
            let a = toks_in(u, p, e, s);
            assert(toks(v, p + d, s) == toks_in(v, p + d, e + d, s) + toks(v, n + d, s));
            assert((a + tail).map_values(|t: (int, int, int)| add_tok(t, d)) =~= a.map_values(|t: (int, int, int)| add_tok(t, d)) + tail.map_values(|t: (int, int, int)| add_tok(t, d)));
        }
    } else {
        assert(toks(v, p + d, s) =~= Seq::<(int, int, int)>::empty());
        assert(toks(u, p, s).map_values(|t: (int, int, int)| add_tok(t, d)) =~= Seq::<(int, int, int)>::empty());
    }
}

proof fn lemma_line_end_tail_shift(u: Seq<u8>, v: Seq<u8>, p: int, d: int)
    requires
        0 <= p <= u.len(),
        0 <= d,
        v.len() == u.len() + d,
        forall|i: int| p <= i < u.len() ==> v[i + d] == #[trigger] u[i],
    ensures
        line_end(v, p + d) == line_end(u, p) + d,
    decreases u.len() - p,
{
    if p < u.len() {
        assert(v[p + d] == u[p]);
        if u[p] != 10u8 {
            lemma_line_end_tail_shift(u, v, p + 1, d);
            assert(p + 1 + d == p + d + 1);
        }
    }
}


proof fn lemma_line_end_prefix(u: Seq<u8>, v: Seq<u8>, p: int, x: int)
    requires
        0 <= p < x <= u.len(),
        x <= v.len(),
        u[x - 1] == 10u8,
        forall|i: int| 0 <= i < x ==> v[i] == #[trigger] u[i],
    ensures
        line_end(v, p) == line_end(u, p),
        line_end(u, p) < x,
    decreases x - p,
{
    assert(v[p] == u[p]);
    if u[p] != 10u8 {
        lemma_line_end_prefix(u, v, p + 1, x);
    }
}

/// Every component of a token of `toks(b, p)` lies at or after `p`.
proof fn lemma_toks_from(b: Seq<u8>, p: int, s: bool)
    requires
        0 <= p,
    ensures
        forall|k: int| 0 <= k < toks(b, p, s).len() ==> p <= (#[trigger] toks(b, p, s)[k]).0 && toks(b, p, s)[k].0 < toks(b, p, s)[k].1 <= toks(b, p, s)[k].2,
{
    lemma_toks_shape(b, p, s);
}

/// Before the inserted line, the tokens of the longer stream are those of the shorter
/// one, moved past the insertion.
proof fn lemma_toks_insert(x: Seq<u8>, c: Seq<u8>, y: Seq<u8>, p: int, s: bool)
    requires
        ends_line(x),
        is_skipped_line(c),
        0 <= p <= x.len(),
    ensures
        toks(x + c + y, p, s) == toks(x + y, p, s).map_values(|t: (int, int, int)| shift_tok(t, x.len() as int, c.len() as int)),
    decreases x.len() - p,
{
    let b = x + y;
    let b2 = x + c + y;
    let xl = x.len() as int;
    let cl = c.len() as int;
    assert forall|i: int| xl <= i < b.len() implies b2[i + cl] == #[trigger] b[i] by {
        assert(b[i] == y[i - xl]);
        assert(b2[i + cl] == y[i - xl]);
    }
    assert forall|i: int| 0 <= i < xl implies b2[i] == #[trigger] b[i] by {
        assert(b[i] == x[i]);
        assert(b2[i] == x[i]);
    }
    if p == xl {
        let ce = xl + cl - 1;
        assert forall|i: int| xl <= i < ce implies #[trigger] b2[i] != 10u8 by {
            assert(b2[i] == c[i - xl]);
        }
        assert(b2[ce] == c[cl - 1]);
        lemma_line_end_at(b2, xl, ce);
        assert forall|i: int| 0 <= i < cl - 1 implies b2[i + xl] == #[trigger] c[i] by {
            assert(b2[i + xl] == c[i]);
        }
        lemma_scan_shift(c, b2, 0, cl - 1, xl);
        lemma_first_nonspace_bounds(c, 0, cl - 1);
        let f = first_nonspace(c, 0, cl - 1);
        if f < cl - 1 {
            assert(b2[f + xl] == c[f]);
        }
        assert(skipped(b2, xl, ce));
        assert(after_line(b2, ce) == xl + cl);
        assert(toks(b2, xl, s) == toks(b2, xl + cl, s));
        lemma_toks_tail_shift(b, b2, xl, cl, s);
        lemma_toks_from(b, xl, s);
        let ts = toks(b, xl, s);
        assert(ts.map_values(|t: (int, int, int)| add_tok(t, cl)) =~= ts.map_values(|t: (int, int, int)| shift_tok(t, xl, cl)));
    } else {
        assert(x.last() == 10u8);
        assert(b[xl - 1] == 10u8);
        lemma_line_end_prefix(b, b2, p, xl);
        let e = line_end(b, p);
        assert forall|i: int| p <= i <= e implies line_end(b, i) == e by {
            lemma_line_end_inside(b, p, i);
        }
        lemma_line_end_bounds(b, p);
        assert forall|i: int| p <= i < e implies b2[i + 0] == #[trigger] b[i] by {
            assert(b2[i] == b[i]);
        }
        lemma_scan_shift(b, b2, p, e, 0);
        lemma_toks_in_shift(b, b2, p, e, 0, s);
        lemma_toks_in_shape(b, p, e, s);
        lemma_first_nonspace_bounds(b, p, e);
        let f = first_nonspace(b, p, e);
        if f < e {
            assert(b2[f] == b[f]);
        }
        assert(skipped(b2, p, e) == skipped(b, p, e));
        assert(after_line(b2, e) == e + 1);
        assert(after_line(b, e) == e + 1);
        lemma_toks_insert(x, c, y, e + 1, s);
        let a = toks_in(b, p, e, s);
        let tail = toks(b, e + 1, s);
        assert(a.map_values(|t: (int, int, int)| add_tok(t, 0)) =~= a);
        assert(a.map_values(|t: (int, int, int)| shift_tok(t, xl, cl)) =~= a);
        if skipped(b, p, e) {
            assert(toks(b2, p, s) == toks(b2, e + 1, s));
            assert(toks(b, p, s) == tail);
        } else {
            assert(toks(b2, p, s) == toks_in(b2, p, e, s) + toks(b2, e + 1, s));
            assert(toks(b, p, s) == a + tail);
            assert((a + tail).map_values(|t: (int, int, int)| shift_tok(t, xl, cl)) =~= a.map_values(|t: (int, int, int)| shift_tok(t, xl, cl)) + tail.map_values(|t: (int, int, int)| shift_tok(t, xl, cl)));
        }
    }
}


proof fn lemma_toks_in_bounds(b: Seq<u8>, q: int, e: int, s: bool)
    requires
        q <= e,
    ensures
        forall|k: int| 0 <= k < toks_in(b, q, e, s).len() ==> q <= (#[trigger] toks_in(b, q, e, s)[k]).0 && toks_in(b, q, e, s)[k].0 <= toks_in(b, q, e, s)[k].1 <= e && toks_in(b, q, e, s)[k].2 == e,
    decreases e - q,
{
    lemma_first_nonspace_bounds(b, q, e);
    let f = first_nonspace(b, q, e);
    if f < e {
        lemma_token_end_bounds(b, f, e);
        let t = if s {
            f + 1
        } else {
            token_end(b, f, e)
        };
        lemma_toks_in_bounds(b, t, e, s);
        let ts = toks_in(b, q, e, s);
        assert(ts == seq![(f, t, e)] + toks_in(b, t, e, s));
        assert forall|k: int| 0 <= k < ts.len() implies q <= (#[trigger] ts[k]).0 && ts[k].0 <= ts[k].1 <= e && ts[k].2 == e by {
            if k > 0 {
                assert(ts[k] == toks_in(b, t, e, s)[k - 1]);
            }
        }
    }
}

/// The tokens after position `q` of a line of the shorter stream ending at `e` are those
/// after the matching position of the longer one.
proof fn lemma_rest_insert(x: Seq<u8>, c: Seq<u8>, y: Seq<u8>, q: int, e: int, s: bool)
    requires
        ends_line(x),
        is_skipped_line(c),
        0 <= q <= e <= (x + y).len(),
        q < x.len() ==> e < x.len(),
    ensures
        rest(x + c + y, shift_pos(q, x.len() as int, c.len() as int), shift_pos(e, x.len() as int, c.len() as int), s)
            == rest(x + y, q, e, s).map_values(|t: (int, int, int)| shift_tok(t, x.len() as int, c.len() as int)),
{
    let b = x + y;
    let b2 = x + c + y;
    let xl = x.len() as int;
    let cl = c.len() as int;
    let q2 = shift_pos(q, xl, cl);
    let e2 = shift_pos(e, xl, cl);
    let a = toks_in(b, q, e, s);
    lemma_toks_in_bounds(b, q, e, s);
    if q < xl {
        assert forall|i: int| q <= i < e implies b2[i + 0] == #[trigger] b[i] by {
            assert(b[i] == x[i]);
            assert(b2[i] == x[i]);
        }
        lemma_toks_in_shift(b, b2, q, e, 0, s);
        assert(a.map_values(|t: (int, int, int)| add_tok(t, 0)) =~= a);
        assert(a.map_values(|t: (int, int, int)| shift_tok(t, xl, cl)) =~= a);
    } else {
        assert forall|i: int| q <= i < e implies b2[i + cl] == #[trigger] b[i] by {
            assert(b[i] == y[i - xl]);
            assert(b2[i + cl] == y[i - xl]);
        }
        lemma_toks_in_shift(b, b2, q, e, cl, s);
        assert(a.map_values(|t: (int, int, int)| add_tok(t, cl)) =~= a.map_values(|t: (int, int, int)| shift_tok(t, xl, cl)));
    }
    let tail = toks(b, after_line(b, e), s);
    if e < xl {
        assert(after_line(b2, e) == e + 1);
        assert(after_line(b, e) == e + 1);
        lemma_toks_insert(x, c, y, e + 1, s);
    } else {
        let n = after_line(b, e);
        assert(after_line(b2, e + cl) == n + cl);
        assert forall|i: int| n <= i < b.len() implies b2[i + cl] == #[trigger] b[i] by {
            assert(b[i] == y[i - xl]);
            assert(b2[i + cl] == y[i - xl]);
        }
        lemma_toks_tail_shift(b, b2, n, cl, s);
        lemma_toks_from(b, n, s);
        assert(tail.map_values(|t: (int, int, int)| add_tok(t, cl)) =~= tail.map_values(|t: (int, int, int)| shift_tok(t, xl, cl)));
    }
    assert(rest(b2, q2, e2, s) == toks_in(b2, q2, e2, s) + toks(b2, after_line(b2, e2), s));
    assert((a + tail).map_values(|t: (int, int, int)| shift_tok(t, xl, cl)) =~= a.map_values(|t: (int, int, int)| shift_tok(t, xl, cl)) + tail.map_values(|t: (int, int, int)| shift_tok(t, xl, cl)));
}

/// A token of the shorter stream reads the same in the longer one.
proof fn lemma_tok_insert(x: Seq<u8>, c: Seq<u8>, y: Seq<u8>, t: (int, int, int))
    requires
        ends_line(x),
        is_skipped_line(c),
        tok_shape(x + y, t),
    ensures
        ({
            let b = x + y;
            let b2 = x + c + y;
            let t2 = shift_tok(t, x.len() as int, c.len() as int);
            &&& b2.subrange(t2.0, t2.1) == b.subrange(t.0, t.1)
            &&& (first_nonspace(b2, t2.1, t2.2) == t2.2) == (first_nonspace(b, t.1, t.2) == t.2)
            &&& t2.2 == shift_pos(t.2, x.len() as int, c.len() as int)
            &&& 0 <= t.1 <= t.2 <= b.len()
            &&& (t.1 < x.len() ==> t.2 < x.len())
            &&& forall|l: nat| #[trigger] number_at(b2, t2.0, t2.1, l) == number_at(b, t.0, t.1, l)
        }),
{
    let b = x + y;
    let b2 = x + c + y;
    let xl = x.len() as int;
    let cl = c.len() as int;
    let t2 = shift_tok(t, xl, cl);
    lemma_first_nonspace_bounds(b, t.1, t.2);
    if t.0 < xl {
        assert(x.last() == 10u8);
        assert(b[xl - 1] == 10u8);
        lemma_line_end_before(b, t.0, xl - 1);
        assert forall|i: int| t.1 <= i < t.2 implies b2[i + 0] == #[trigger] b[i] by {
            assert(b[i] == x[i]);
            assert(b2[i] == x[i]);
        }
        lemma_scan_shift(b, b2, t.1, t.2, 0);
        assert forall|i: int| 0 <= i < t.1 - t.0 implies b2.subrange(t2.0, t2.1)[i] == b.subrange(t.0, t.1)[i] by {
            assert(b[t.0 + i] == x[t.0 + i]);
            assert(b2[t.0 + i] == x[t.0 + i]);
        }
        assert(b2.subrange(t2.0, t2.1) =~= b.subrange(t.0, t.1));
    } else {
        assert forall|i: int| t.1 <= i < t.2 implies b2[i + cl] == #[trigger] b[i] by {
            assert(b[i] == y[i - xl]);
            assert(b2[i + cl] == y[i - xl]);
        }
        lemma_scan_shift(b, b2, t.1, t.2, cl);
        assert forall|i: int| 0 <= i < t.1 - t.0 implies b2.subrange(t2.0, t2.1)[i] == b.subrange(t.0, t.1)[i] by {
            assert(b[t.0 + i] == y[t.0 + i - xl]);
            assert(b2[t.0 + i + cl] == y[t.0 + i - xl]);
        }
        assert(b2.subrange(t2.0, t2.1) =~= b.subrange(t.0, t.1));
    }
    let u = b.subrange(t.0, t.1);
    assert(u[0] == b[t.0]);
    assert(b2.subrange(t2.0, t2.1)[0] == b2[t2.0]);
    assert(b.subrange(t.0 + 1, t.1) =~= u.subrange(1, u.len() as int));
    assert(b2.subrange(t2.0 + 1, t2.1) =~= b2.subrange(t2.0, t2.1).subrange(1, u.len() as int));
    assert forall|l: nat| #[trigger] number_at(b2, t2.0, t2.1, l) == number_at(b, t.0, t.1, l) by {
        assert(t2.1 - t2.0 == t.1 - t.0);
    }
}

/// A blank or comment line inserted at the start of any line leaves the header as it
/// reads: the same magic number, width, height and maximum sample value, or the same
/// error. Only the positions where the header ends move past the inserted line.
pub proof fn skipped_line_keeps_header(x: Seq<u8>, c: Seq<u8>, y: Seq<u8>)
    requires
        ends_line(x),
        is_skipped_line(c),
    ensures
        match header_spec(x + y) {
            Ok((d, w, h, m, t, e)) => header_spec(x + c + y) == Ok::<
                (u8, nat, nat, nat, int, int),
                Error,
            >(
                (
                    d,
                    w,
                    h,
                    m,
                    shift_pos(t, x.len() as int, c.len() as int),
                    shift_pos(e, x.len() as int, c.len() as int),
                ),
            ),
            Err(er) => header_spec(x + c + y) == Err::<(u8, nat, nat, nat, int, int), Error>(er),
        },
{
    let b = x + y;
    let b2 = x + c + y;
    let xl = x.len() as int;
    let cl = c.len() as int;
    lemma_toks_insert(x, c, y, 0, false);
    lemma_toks_shape(b, 0, false);
    let t0 = toks(b, 0, false);
    if t0.len() > 0 {
        lemma_tok_insert(x, c, y, t0[0]);
        let e0 = t0[0].2;
        lemma_rest_insert(x, c, y, e0, e0, false);
        let ds = rest(b, e0, e0, false);
        assert(ds == toks(b, after_line(b, e0), false));
        lemma_toks_shape(b, after_line(b, e0), false);
        if ds.len() > 0 {
            lemma_tok_insert(x, c, y, ds[0]);
        }
        if ds.len() > 1 {
            lemma_tok_insert(x, c, y, ds[1]);
            let (t1, e1) = (ds[1].1, ds[1].2);
            lemma_rest_insert(x, c, y, t1, e1, false);
            let ms = rest(b, t1, e1, false);
            assert forall|i: int| t1 <= i <= e1 implies line_end(b, i) == e1 by {
                lemma_line_end_inside(b, ds[1].0, i);
            }
            lemma_toks_in_shape(b, t1, e1, false);
            lemma_toks_shape(b, after_line(b, e1), false);
            if ms.len() > 0 {
                let a = toks_in(b, t1, e1, false);
                if a.len() > 0 {
                    assert(ms[0] == a[0]);
                } else {
                    assert(ms[0] == toks(b, after_line(b, e1), false)[0]);
                }
                lemma_tok_insert(x, c, y, ms[0]);
            }
        }
    }
}


/// Encoding a graymap or pixmap, as text or in binary, and decoding the result gives
/// back its format, its dimensions and every sample.
pub proof fn round_trip(f: Format, w: nat, h: nat, s: Seq<u8>, enc: Encoding)
    requires
        f != Format::Bitmap,
        w <= usize::MAX,
        h <= usize::MAX,
        w * h <= usize::MAX,
        s.len() == f.channels() * (w * h),
    ensures
        decode_spec(encode_spec(f, w, h, s, enc)) == Ok::<(Format, nat, nat, Seq<u8>), Error>(
            (f, w, h, s),
        ),
{
    match enc {
        Encoding::Ascii => text_round_trip(f, w, h, s),
        Encoding::Binary => binary_round_trip(f, w, h, s),
    }
}

/// Encoding a bitmap, as text or in binary, and decoding the result gives its format and
/// dimensions and, for every pixel, the ink bit: 1 where the stored value was 0, and 0
/// elsewhere.
pub proof fn bitmap_round_trip_gives_ink(w: nat, h: nat, s: Seq<u8>, enc: Encoding)
    requires
        w <= usize::MAX,
        h <= usize::MAX,
        w * h <= usize::MAX,
        s.len() == w * h,
    ensures
        decode_spec(encode_spec(Format::Bitmap, w, h, s, enc)) == Ok::<
            (Format, nat, nat, Seq<u8>),
            Error,
        >((Format::Bitmap, w, h, s.map_values(|v: u8| ink(v)))),
{
    match enc {
        Encoding::Ascii => bitmap_text_round_trip(w, h, s),
        Encoding::Binary => bitmap_binary_round_trip(w, h, s),
    }
}

/// In a binary bitmap body, bit `7 - x % 8` of byte `y * row_bytes(w) + x / 8` is the ink
/// bit of pixel `(x, y)`, 1 where the stored value is 0 and 0 elsewhere; the bits that pad
/// a row to a whole byte are zero.
pub proof fn packed_bitmap_bits(s: Seq<u8>, w: nat, h: nat, x: nat, y: nat)
    requires
        s.len() == w * h,
        y < h,
        x < 8 * row_bytes(w),
    ensures
        ({
            let rb = row_bytes(w);
            let body = packed_body(s, w, h);
            &&& body.len() == h * rb
            &&& (body[(y * rb + x / 8) as int] >> ((7 - x % 8) as u8)) & 1u8 == if x < w {
                ink(s[(y * w + x) as int])
            } else {
                0u8
            }
        }),
{
    let rb = row_bytes(w);
    let k = x / 8;
    let t = x % 8;
    let j: int = (y * rb + k) as int;
    assert(x == 8 * k + t && t < 8 && k < rb) by (nonlinear_arith)
        requires
            k == x / 8,
            t == x % 8,
            x < 8 * rb,
    ;
    assert(j / (rb as int) == y && j % (rb as int) == k && j < h * rb) by (nonlinear_arith)
        requires
            j == y * rb + k,
            k < rb,
            y < h,
    ;
    lemma_packed_bit(s, w, y, k, t);
}

/// `b` with each line of `ins` inserted in turn, at its position in the stream as it
/// stands by then.
pub open spec fn inserted(b: Seq<u8>, ins: Seq<(int, Seq<u8>)>) -> Seq<u8>
    decreases ins.len(),
{
    if ins.len() == 0 {
        b
    } else {
        let cur = inserted(b, ins.drop_last());
        let (p, c) = ins.last();
        cur.take(p) + c + cur.skip(p)
    }
}

/// Each line of `ins` is blank or a comment and goes in at the start of a line.
pub open spec fn insertions_at_line_starts(b: Seq<u8>, ins: Seq<(int, Seq<u8>)>) -> bool
    decreases ins.len(),
{
    ins.len() == 0 || {
        let cur = inserted(b, ins.drop_last());
        let (p, c) = ins.last();
        &&& insertions_at_line_starts(b, ins.drop_last())
        &&& 0 <= p <= cur.len()
        &&& ends_line(cur.take(p))
        &&& is_skipped_line(c)
    }
}

/// The magic digit, width, height and maxval that a header holds, or its error.
pub open spec fn header_values(b: Seq<u8>) -> Result<(u8, nat, nat, nat), Error> {
    match header_spec(b) {
        Ok((d, w, h, m, t, e)) => Ok((d, w, h, m)),
        Err(x) => Err(x),
    }
}

/// Any number of blank or comment lines, inserted at the starts of lines anywhere in the
/// stream, leave the header as it reads: the same magic number, width, height and maxval,
/// or the same error.
pub proof fn skipped_lines_keep_header(b: Seq<u8>, ins: Seq<(int, Seq<u8>)>)
    requires
        insertions_at_line_starts(b, ins),
    ensures
        header_values(inserted(b, ins)) == header_values(b),
    decreases ins.len(),
{
    if ins.len() > 0 {
        skipped_lines_keep_header(b, ins.drop_last());
        let cur = inserted(b, ins.drop_last());
        let (p, c) = ins.last();
        let x = cur.take(p);
        let y = cur.skip(p);
        assert(x + y =~= cur);
        skipped_line_keeps_header(x, c, y);
    }
}

} // verus!
