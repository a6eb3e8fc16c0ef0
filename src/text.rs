use vstd::prelude::*;

verus! {

/// A whitespace byte: space, tab, newline, vertical tab, form feed or carriage return.
pub open spec fn is_space(c: u8) -> bool {
    c == 32u8 || (9u8 <= c && c <= 13u8)
}

/// Index of the newline that ends the line holding position `p`, or the end of input.
pub open spec fn line_end(b: Seq<u8>, p: int) -> int
    decreases b.len() - p,
{
    if p >= b.len() {
        b.len() as int
    } else if b[p] == 10u8 {
        p
    } else {
        line_end(b, p + 1)
    }
}

/// Start of the line after the one that ends at `e`.
pub open spec fn after_line(b: Seq<u8>, e: int) -> int {
    if e < b.len() {
        e + 1
    } else {
        b.len() as int
    }
}

/// First non-whitespace position in `[q, e)`, or `e`.
pub open spec fn first_nonspace(b: Seq<u8>, q: int, e: int) -> int
    decreases e - q,
{
    if q >= e {
        e
    } else if is_space(b[q]) {
        first_nonspace(b, q + 1, e)
    } else {
        q
    }
}

/// First whitespace position in `[q, e)`, or `e`.
pub open spec fn token_end(b: Seq<u8>, q: int, e: int) -> int
    decreases e - q,
{
    if q >= e {
        e
    } else if is_space(b[q]) {
        q
    } else {
        token_end(b, q + 1, e)
    }
}

/// The line `[s, e)` is blank or a comment: empty after trimming, or starting with `#`.
pub open spec fn skipped(b: Seq<u8>, s: int, e: int) -> bool {
    let f = first_nonspace(b, s, e);
    f >= e || b[f] == 35u8
}

/// The tokens in `[q, e)` of one line, each as (start, end, end of its line). With
/// `single`, every non-whitespace byte is a token of its own; otherwise a token is a
/// maximal run of non-whitespace bytes.
pub open spec fn toks_in(b: Seq<u8>, q: int, e: int, single: bool) -> Seq<(int, int, int)>
    decreases e - q,
    via toks_in_decreases
{
    let f = first_nonspace(b, q, e);
    if f >= e {
        Seq::empty()
    } else {
        let t = if single {
            f + 1
        } else {
            token_end(b, f, e)
        };
        seq![(f, t, e)] + toks_in(b, t, e, single)
    }
}

pub proof fn lemma_first_nonspace_bounds(b: Seq<u8>, q: int, e: int)
    requires
        q <= e,
    ensures
        q <= first_nonspace(b, q, e) <= e,
        first_nonspace(b, q, e) < e ==> !is_space(b[first_nonspace(b, q, e)]),
    decreases e - q,
{
    if q < e && is_space(b[q]) {
        lemma_first_nonspace_bounds(b, q + 1, e);
    }
}

pub proof fn lemma_token_end_bounds(b: Seq<u8>, q: int, e: int)
    requires
        q <= e,
    ensures
        q <= token_end(b, q, e) <= e,
        q < e && !is_space(b[q]) ==> q < token_end(b, q, e),
    decreases e - q,
{
    if q < e && !is_space(b[q]) {
        lemma_token_end_bounds(b, q + 1, e);
    }
}

pub proof fn lemma_line_end_bounds(b: Seq<u8>, p: int)
    requires
        0 <= p,
    ensures
        p <= line_end(b, p) || p > b.len(),
        line_end(b, p) <= b.len(),
        line_end(b, p) < b.len() ==> b[line_end(b, p)] == 10u8,
    decreases b.len() - p,
{
    if p < b.len() && b[p] != 10u8 {
        lemma_line_end_bounds(b, p + 1);
    }
}

#[via_fn]
proof fn toks_in_decreases(b: Seq<u8>, q: int, e: int, single: bool) {
    if q <= e {
        lemma_first_nonspace_bounds(b, q, e);
        let f = first_nonspace(b, q, e);
        if f < e {
            lemma_token_end_bounds(b, f, e);
        }
    } else {
        assert(first_nonspace(b, q, e) == e);
    }
}

/// The tokens of all lines from line start `p` to the end of input, blank and comment
/// lines left out.
pub open spec fn toks(b: Seq<u8>, p: int, single: bool) -> Seq<(int, int, int)>
    decreases b.len() - p,
    via toks_decreases
{
    if p < 0 || p >= b.len() {
        Seq::empty()
    } else {
        let e = line_end(b, p);
        if skipped(b, p, e) {
            toks(b, after_line(b, e), single)
        } else {
            toks_in(b, p, e, single) + toks(b, after_line(b, e), single)
        }
    }
}

#[via_fn]
proof fn toks_decreases(b: Seq<u8>, p: int, single: bool) {
    if 0 <= p {
        lemma_line_end_bounds(b, p);
    }
}

/// The tokens that follow position `q` of a line that ends at `e`.
pub open spec fn rest(b: Seq<u8>, q: int, e: int, single: bool) -> Seq<(int, int, int)> {
    toks_in(b, q, e, single) + toks(b, after_line(b, e), single)
}

/// Where `e` may end a line.
pub open spec fn is_line_end(b: Seq<u8>, e: int) -> bool {
    0 <= e <= b.len() && (e == b.len() || b[e] == 10u8)
}

pub fn is_space_byte(c: u8) -> (r: bool)
    ensures
        r == is_space(c),
{
    c == 32u8 || (9u8 <= c && c <= 13u8)
}

/// Index of the newline that ends the line holding `p`, or the end of input.
pub fn find_line_end(b: &[u8], p: usize) -> (r: usize)
    requires
        p <= b@.len(),
    ensures
        r == line_end(b@, p as int),
        p <= r <= b@.len(),
{
    let mut i = p;
    while i < b.len() && b[i] != 10u8
        invariant
            p <= i <= b@.len(),
            line_end(b@, i as int) == line_end(b@, p as int),
        decreases b@.len() - i,
    {
        i = i + 1;
    }
    i
}

pub fn skip_space(b: &[u8], q: usize, e: usize) -> (r: usize)
    requires
        q <= e <= b@.len(),
    ensures
        r == first_nonspace(b@, q as int, e as int),
        q <= r <= e,
{
    let mut i = q;
    while i < e && is_space_byte(b[i])
        invariant
            q <= i <= e <= b@.len(),
            first_nonspace(b@, i as int, e as int) == first_nonspace(b@, q as int, e as int),
        decreases e - i,
    {
        i = i + 1;
    }
    i
}

pub fn find_token_end(b: &[u8], q: usize, e: usize) -> (r: usize)
    requires
        q <= e <= b@.len(),
    ensures
        r == token_end(b@, q as int, e as int),
        q <= r <= e,
{
    let mut i = q;
    while i < e && !is_space_byte(b[i])
        invariant
            q <= i <= e <= b@.len(),
            token_end(b@, i as int, e as int) == token_end(b@, q as int, e as int),
        decreases e - i,
    {
        i = i + 1;
    }
    i
}

/// The first token of the lines from line start `p` on, with the end of its line.
pub fn first_token_from(b: &[u8], start: usize, single: bool) -> (r: Option<(usize, usize, usize)>)
    requires
        start <= b@.len(),
    ensures
        r is None <==> toks(b@, start as int, single).len() == 0,
        r matches Some((s, t, e)) ==> {
            let ts = toks(b@, start as int, single);
            &&& ts[0] == (s as int, t as int, e as int)
            &&& ts.drop_first() == rest(b@, t as int, e as int, single)
            &&& s < t <= e
            &&& is_line_end(b@, e as int)
        },
{
    let mut p = start;
    while p < b.len()
        invariant
            p <= b@.len(),
            toks(b@, p as int, single) == toks(b@, start as int, single),
        decreases b@.len() - p,
    {
        let e = find_line_end(b, p);
        proof {
            lemma_line_end_bounds(b@, p as int);
        }
        let f = skip_space(b, p, e);
        let next = if e < b.len() {
            e + 1
        } else {
            e
        };
        if f < e && b[f] != 35u8 {
            let t = if single {
                f + 1
            } else {
                find_token_end(b, f, e)
            };
            proof {
                lemma_first_nonspace_bounds(b@, p as int, e as int);
                lemma_token_end_bounds(b@, f as int, e as int);
                assert(first_nonspace(b@, p as int, e as int) == f);
                let ti = toks_in(b@, p as int, e as int, single);
                assert(ti[0] == (f as int, t as int, e as int));
                assert(ti.drop_first() =~= toks_in(b@, t as int, e as int, single));
                assert(toks(b@, p as int, single) =~= ti + toks(
                    b@,
                    after_line(b@, e as int),
                    single,
                ));
                assert(toks(b@, p as int, single).drop_first() =~= rest(
                    b@,
                    t as int,
                    e as int,
                    single,
                ));
            }
            return Some((f, t, e));
        }
        p = next;
    }
    None
}

/// The token that follows position `q` of a line ending at `e`, with the end of its line.
pub fn next_token(b: &[u8], q: usize, e: usize, single: bool) -> (r: Option<
    (usize, usize, usize),
>)
    requires
        q <= e,
        is_line_end(b@, e as int),
    ensures
        r is None <==> rest(b@, q as int, e as int, single).len() == 0,
        r matches Some((s, t, e2)) ==> {
            let ts = rest(b@, q as int, e as int, single);
            &&& ts[0] == (s as int, t as int, e2 as int)
            &&& ts.drop_first() == rest(b@, t as int, e2 as int, single)
            &&& s < t <= e2
            &&& is_line_end(b@, e2 as int)
        },
{
    let f = skip_space(b, q, e);
    if f < e {
        let t = if single {
            f + 1
        } else {
            find_token_end(b, f, e)
        };
        proof {
            lemma_first_nonspace_bounds(b@, q as int, e as int);
            lemma_token_end_bounds(b@, f as int, e as int);
            let ti = toks_in(b@, q as int, e as int, single);
            assert(ti[0] == (f as int, t as int, e as int));
            assert(ti.drop_first() =~= toks_in(b@, t as int, e as int, single));
            assert(rest(b@, q as int, e as int, single).drop_first() =~= rest(
                b@,
                t as int,
                e as int,
                single,
            ));
        }
        Some((f, t, e))
    } else {
        let next = if e < b.len() {
            e + 1
        } else {
            e
        };
        proof {
            assert(toks_in(b@, q as int, e as int, single) =~= Seq::empty());
            assert(rest(b@, q as int, e as int, single) =~= toks(b@, next as int, single));
        }
        first_token_from(b, next, single)
    }
}

proof fn lemma_toks_in_len(b: Seq<u8>, q: int, e: int, single: bool)
    requires
        q <= e,
    ensures
        toks_in(b, q, e, single).len() <= e - q,
    decreases e - q,
{
    lemma_first_nonspace_bounds(b, q, e);
    let f = first_nonspace(b, q, e);
    if f < e {
        lemma_token_end_bounds(b, f, e);
        let t = if single {
            f + 1
        } else {
            token_end(b, f, e)
        };
        lemma_toks_in_len(b, t, e, single);
    }
}

proof fn lemma_toks_len(b: Seq<u8>, p: int, single: bool)
    requires
        0 <= p,
    ensures
        toks(b, p, single).len() <= b.len() - p || p > b.len(),
    decreases b.len() - p,
{
    if p < b.len() {
        lemma_line_end_bounds(b, p);
        let e = line_end(b, p);
        lemma_toks_len(b, after_line(b, e), single);
        lemma_toks_in_len(b, p, e, single);
    }
}

/// Fewer tokens follow a position past the first than there are bytes.
pub proof fn lemma_rest_len(b: Seq<u8>, q: int, e: int)
    requires
        1 <= q <= e,
        is_line_end(b, e),
    ensures
        rest(b, q, e, false).len() < b.len(),
{
    lemma_toks_in_len(b, q, e, false);
    lemma_toks_len(b, after_line(b, e), false);
}

} // verus!
