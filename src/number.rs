use vstd::prelude::*;

verus! {

pub open spec fn is_digit(c: u8) -> bool {
    48u8 <= c && c <= 57u8
}

/// A non-empty run of decimal digits.
pub open spec fn all_digits(s: Seq<u8>) -> bool {
    s.len() > 0 && forall|i: int| 0 <= i < s.len() ==> is_digit(#[trigger] s[i])
}

/// The number that a run of decimal digits spells.
pub open spec fn digits_value(s: Seq<u8>) -> nat
    decreases s.len(),
{
    if s.len() == 0 {
        0
    } else {
        digits_value(s.drop_last()) * 10 + (s.last() - 48) as nat
    }
}

/// The number spelled in decimal by `b[s..t]`, if it is one and at most `limit`.
pub open spec fn digits_at(b: Seq<u8>, s: int, t: int, limit: nat) -> Option<nat> {
    let d = b.subrange(s, t);
    if all_digits(d) && digits_value(d) <= limit {
        Some(digits_value(d))
    } else {
        None
    }
}

/// The number spelled in decimal by `b[s..t]`, with an optional leading `+`, if it is one
/// and at most `limit`.
pub open spec fn number_at(b: Seq<u8>, s: int, t: int, limit: nat) -> Option<nat> {
    if s < t && b[s] == 43u8 {
        digits_at(b, s + 1, t, limit)
    } else {
        digits_at(b, s, t, limit)
    }
}

/// The decimal digits of `n`, without leading zeros.
pub open spec fn decimal(n: nat) -> Seq<u8>
    decreases n,
{
    if n < 10 {
        seq![(48 + n) as u8]
    } else {
        decimal(n / 10) + seq![(48 + n % 10) as u8]
    }
}

proof fn lemma_prefix_value_le(s: Seq<u8>, i: int)
    requires
        0 <= i <= s.len(),
        forall|k: int| 0 <= k < s.len() ==> is_digit(#[trigger] s[k]),
    ensures
        digits_value(s.subrange(0, i)) <= digits_value(s),
    decreases s.len(),
{
    if i < s.len() {
        let p = s.drop_last();
        assert(p.subrange(0, i) =~= s.subrange(0, i));
        assert forall|k: int| 0 <= k < p.len() implies is_digit(#[trigger] p[k]) by {
            assert(p[k] == s[k]);
        }
        lemma_prefix_value_le(p, i);
    } else {
        assert(s.subrange(0, i) =~= s);
    }
}

/// Reads the decimal number in `b[s..t]`, with an optional leading `+`, if it is one and
/// at most `limit`.
pub fn parse_number(b: &[u8], s: usize, t: usize, limit: u64) -> (r: Option<u64>)
    requires
        s <= t <= b@.len(),
    ensures
        match r {
            Some(v) => number_at(b@, s as int, t as int, limit as nat) == Some(v as nat),
            None => number_at(b@, s as int, t as int, limit as nat) is None,
        },
{
    if s < t && b[s] == 43u8 {
        parse_digits(b, s + 1, t, limit)
    } else {
        parse_digits(b, s, t, limit)
    }
}

/// Reads the number that the digits `b[s..t]` spell, if they are digits and it is at most
/// `limit`.
fn parse_digits(b: &[u8], s: usize, t: usize, limit: u64) -> (r: Option<u64>)
    requires
        s <= t <= b@.len(),
    ensures
        match r {
            Some(v) => digits_at(b@, s as int, t as int, limit as nat) == Some(v as nat),
            None => digits_at(b@, s as int, t as int, limit as nat) is None,
        },
{
    let ghost d = b@.subrange(s as int, t as int);
    if s == t {
        return None;
    }
    let mut acc: u64 = 0;
    let mut i = s;
    while i < t
        invariant
            s <= i <= t <= b@.len(),
            d == b@.subrange(s as int, t as int),
            forall|k: int| s <= k < i ==> is_digit(#[trigger] b@[k]),
            acc as nat == digits_value(b@.subrange(s as int, i as int)),
            acc <= limit,
        decreases t - i,
    {
        let c = b[i];
        if c < 48u8 || c > 57u8 {
            proof {
                assert(d[i - s] == c);
            }
            return None;
        }
        let dig = (c - 48u8) as u64;
        proof {
            assert(b@.subrange(s as int, i + 1).drop_last() =~= b@.subrange(s as int, i as int));
        }
        if dig > limit || acc > (limit - dig) / 10 {
            proof {
                assert(acc * 10 + dig > limit) by (nonlinear_arith)
                    requires
                        dig > limit || acc > (limit - dig) / 10,
                ;
                assert(digits_value(b@.subrange(s as int, i + 1)) > limit);
                if all_digits(d) {
                    lemma_prefix_value_le(d, i + 1 - s);
                    assert(d.subrange(0, i + 1 - s) =~= b@.subrange(s as int, i + 1));
                }
            }
            return None;
        }
        proof {
            assert(acc * 10 + dig <= limit) by (nonlinear_arith)
                requires
                    dig <= limit,
                    acc <= (limit - dig) / 10,
            ;
        }
        acc = acc * 10 + dig;
        i = i + 1;
    }
    proof {
        assert(b@.subrange(s as int, i as int) =~= d);
        assert forall|k: int| 0 <= k < d.len() implies is_digit(#[trigger] d[k]) by {
            assert(d[k] == b@[s + k]);
        }
    }
    Some(acc)
}

/// Appends the decimal digits of `n` to `out`.
pub fn push_decimal(out: &mut Vec<u8>, n: u64)
    ensures
        final(out)@ == old(out)@ + decimal(n as nat),
    decreases n,
{
    if n >= 10 {
        push_decimal(out, n / 10);
    }
    out.push((48 + n % 10) as u8);
    proof {
        if n < 10 {
            assert(final(out)@ =~= old(out)@ + decimal(n as nat));
        } else {
            assert(final(out)@ =~= old(out)@ + decimal(n as nat));
        }
    }
}

} // verus!
