//! Textual persistence of the site list: a flat array of two-element
//! numeric pairs, `[[120.5,340.0],[88.0,12.25]]`, no header, no
//! versioning. Numbers carry at most twelve integer digits and at most
//! six fractional digits (the store's resolution); whitespace between
//! tokens is accepted. Saving and loading round-trip exactly.

use vstd::prelude::*;

use crate::geom::all_ok;
use crate::geom::Site;
use crate::geom::MAX_COORD;

verus! {

pub const B_SPACE: u8 = 32;

pub const B_TAB: u8 = 9;

pub const B_LF: u8 = 10;

pub const B_CR: u8 = 13;

pub const B_LBRACKET: u8 = 91;

pub const B_RBRACKET: u8 = 93;

pub const B_COMMA: u8 = 44;

pub const B_MINUS: u8 = 45;

pub const B_DOT: u8 = 46;

pub const B_ZERO: u8 = 48;

pub const B_NINE: u8 = 57;

/// Micro-units per canvas unit, as an `int` for spec arithmetic.
pub open spec fn unit() -> int {
    1_000_000
}

pub open spec fn is_ws(c: u8) -> bool {
    c == B_SPACE || c == B_TAB || c == B_LF || c == B_CR
}

pub open spec fn is_digit(c: u8) -> bool {
    B_ZERO <= c <= B_NINE
}

/// Ten to the `n`th power.
pub open spec fn pow10(n: int) -> int
    decreases n,
{
    if n <= 0 {
        1
    } else {
        10 * pow10(n - 1)
    }
}

// ------------------------------------------------------------------
// Formatting
// ------------------------------------------------------------------
/// The decimal digits of `n`, most significant first.
pub open spec fn fmt_nat(n: int) -> Seq<u8>
    decreases n,
{
    if n < 10 {
        seq![(n + B_ZERO) as u8]
    } else {
        fmt_nat(n / 10).push((n % 10 + B_ZERO) as u8)
    }
}

/// The decimal digits of `n`, zero-padded to exactly `width` digits.
pub open spec fn fmt_padded(n: int, width: int) -> Seq<u8>
    decreases width,
{
    if width <= 0 {
        Seq::empty()
    } else {
        fmt_padded(n / 10, width - 1).push((n % 10 + B_ZERO) as u8)
    }
}

/// One coordinate: optional minus sign, integer part, a dot, and all six
/// fractional digits of the micro-unit value.
pub open spec fn fmt_coord(v: int) -> Seq<u8> {
    let m = if v < 0 {
        -v
    } else {
        v
    };
    let sign: Seq<u8> = if v < 0 {
        seq![B_MINUS]
    } else {
        Seq::empty()
    };
    sign + fmt_nat(m / unit()) + seq![B_DOT] + fmt_padded(m % unit(), 6)
}

/// One site: `[x,y]`.
pub open spec fn fmt_pair(p: Site) -> Seq<u8> {
    seq![B_LBRACKET] + fmt_coord(p.x as int) + seq![B_COMMA] + fmt_coord(p.y as int) + seq![
        B_RBRACKET,
    ]
}

/// Every site after the first, each preceded by a comma.
pub open spec fn fmt_rest(sites: Seq<Site>) -> Seq<u8>
    decreases sites.len(),
{
    if sites.len() == 0 {
        Seq::empty()
    } else {
        seq![B_COMMA] + fmt_pair(sites[0]) + fmt_rest(sites.drop_first())
    }
}

/// The persisted text of a site sequence, in store order.
pub open spec fn fmt_sites(sites: Seq<Site>) -> Seq<u8> {
    if sites.len() == 0 {
        seq![B_LBRACKET, B_RBRACKET]
    } else {
        seq![B_LBRACKET] + fmt_pair(sites[0]) + fmt_rest(sites.drop_first()) + seq![B_RBRACKET]
    }
}

// ------------------------------------------------------------------
// Parsing
// ------------------------------------------------------------------
/// The first position at or after `i` holding no whitespace.
pub open spec fn skip_ws(s: Seq<u8>, i: int) -> int
    decreases s.len() - i,
{
    if 0 <= i < s.len() && is_ws(s[i]) {
        skip_ws(s, i + 1)
    } else {
        i
    }
}

/// The first position at or after `i` holding no digit.
pub open spec fn digit_run_end(s: Seq<u8>, i: int) -> int
    decreases s.len() - i,
{
    if 0 <= i < s.len() && is_digit(s[i]) {
        digit_run_end(s, i + 1)
    } else {
        i
    }
}

/// The value of the digits `s[i .. j]`.
pub open spec fn digits_val(s: Seq<u8>, i: int, j: int) -> int
    decreases j - i,
{
    if i < j {
        digits_val(s, i, j - 1) * 10 + (s[j - 1] - B_ZERO)
    } else {
        0
    }
}

/// An optional fractional part at `j`: nothing, or a dot and one to six
/// digits. Yields the fraction in micro-units and the end position.
pub open spec fn parse_frac(s: Seq<u8>, j: int) -> Option<(int, int)> {
    if 0 <= j < s.len() && s[j] == B_DOT {
        let k = digit_run_end(s, j + 1);
        if k == j + 1 || k - (j + 1) > 6 {
            None
        } else {
            Some((digits_val(s, j + 1, k) * pow10(6 - (k - (j + 1))), k))
        }
    } else {
        Some((0, j))
    }
}

/// A number at `i`: optional minus sign, one to twelve integer digits,
/// optional fraction. Yields the micro-unit value and the end position.
pub open spec fn parse_number(s: Seq<u8>, i: int) -> Option<(i64, int)> {
    let neg = 0 <= i < s.len() && s[i] == B_MINUS;
    let i1 = if neg {
        i + 1
    } else {
        i
    };
    let j = digit_run_end(s, i1);
    if j == i1 || j - i1 > 12 {
        None
    } else {
        match parse_frac(s, j) {
            Some((fr, end)) => {
                let mag = digits_val(s, i1, j) * unit() + fr;
                Some(
                    (
                        (if neg {
                            -mag
                        } else {
                            mag
                        }) as i64,
                        end,
                    ),
                )
            },
            None => None,
        }
    }
}

/// A pair at `i`: `[`, number, `,`, number, `]`, whitespace allowed
/// between tokens. Yields the site and the end position.
pub open spec fn parse_pair(s: Seq<u8>, i: int) -> Option<(Site, int)> {
    if !(0 <= i < s.len() && s[i] == B_LBRACKET) {
        None
    } else {
        let i1 = skip_ws(s, i + 1);
        match parse_number(s, i1) {
            Some((x, i2)) => {
                let i3 = skip_ws(s, i2);
                if !(i3 < s.len() && s[i3] == B_COMMA) {
                    None
                } else {
                    let i4 = skip_ws(s, i3 + 1);
                    match parse_number(s, i4) {
                        Some((y, i5)) => {
                            let i6 = skip_ws(s, i5);
                            if i6 < s.len() && s[i6] == B_RBRACKET {
                                Some((Site { x, y }, i6 + 1))
                            } else {
                                None
                            }
                        },
                        None => None,
                    }
                }
            },
            None => None,
        }
    }
}

// ------------------------------------------------------------------
// Basic bounds
// ------------------------------------------------------------------
pub proof fn lemma_skip_ws_bounds(s: Seq<u8>, i: int)
    requires
        0 <= i <= s.len(),
    ensures
        i <= skip_ws(s, i) <= s.len(),
        skip_ws(s, i) < s.len() ==> !is_ws(s[skip_ws(s, i)]),
    decreases s.len() - i,
{
    if i < s.len() && is_ws(s[i]) {
        lemma_skip_ws_bounds(s, i + 1);
    }
}

pub proof fn lemma_digit_run_bounds(s: Seq<u8>, i: int)
    requires
        0 <= i <= s.len(),
    ensures
        i <= digit_run_end(s, i) <= s.len(),
        digit_run_end(s, i) < s.len() ==> !is_digit(s[digit_run_end(s, i)]),
        forall|t: int| i <= t < digit_run_end(s, i) ==> is_digit(#[trigger] s[t]),
    decreases s.len() - i,
{
    if i < s.len() && is_digit(s[i]) {
        lemma_digit_run_bounds(s, i + 1);
    }
}

/// A run of digits bounded on the right by a non-digit (or the end)
/// is exactly what `digit_run_end` finds.
pub proof fn lemma_run_end_is(s: Seq<u8>, i: int, j: int)
    requires
        0 <= i <= j <= s.len(),
        forall|t: int| i <= t < j ==> is_digit(#[trigger] s[t]),
        j == s.len() || !is_digit(s[j]),
    ensures
        digit_run_end(s, i) == j,
    decreases j - i,
{
    if i < j {
        lemma_run_end_is(s, i + 1, j);
    }
}

pub proof fn lemma_pow10_positive(n: int)
    ensures
        pow10(n) >= 1,
    decreases n,
{
    if n > 0 {
        lemma_pow10_positive(n - 1);
    }
}

pub proof fn lemma_pow10_mono(a: int, b: int)
    requires
        a <= b,
    ensures
        pow10(a) <= pow10(b),
    decreases b - a,
{
    if a < b {
        lemma_pow10_mono(a, b - 1);
        lemma_pow10_positive(b - 1);
    }
}

pub proof fn lemma_pow10_values()
    ensures
        pow10(6) == 1_000_000,
        pow10(12) == 1_000_000_000_000,
{
    reveal_with_fuel(pow10, 13);
}

pub proof fn lemma_digits_val_bounds(s: Seq<u8>, i: int, j: int)
    requires
        i <= j,
        forall|t: int| i <= t < j ==> is_digit(#[trigger] s[t]),
    ensures
        0 <= digits_val(s, i, j) < pow10(j - i),
    decreases j - i,
{
    if i < j {
        lemma_digits_val_bounds(s, i, j - 1);
        lemma_pow10_positive(j - 1 - i);
    }
}


pub proof fn lemma_pow10_mul(a: int, b: int)
    requires
        0 <= a,
        0 <= b,
    ensures
        pow10(a) * pow10(b) == pow10(a + b),
    decreases a,
{
    if a == 0 {
        assert(pow10(0) * pow10(b) == pow10(b));
    } else {
        lemma_pow10_mul(a - 1, b);
        assert(pow10(a) * pow10(b) == 10 * (pow10(a - 1) * pow10(b))) by (nonlinear_arith)
            requires
                pow10(a) == 10 * pow10(a - 1),
        ;
    }
}

pub proof fn lemma_parse_number_advances(s: Seq<u8>, i: int)
    requires
        0 <= i <= s.len(),
    ensures
        parse_number(s, i) is Some ==> i < parse_number(s, i).unwrap().1 <= s.len(),
{
    let neg = 0 <= i < s.len() && s[i] == B_MINUS;
    let i1: int = if neg {
        i + 1
    } else {
        i
    };
    lemma_digit_run_bounds(s, i1);
    let j = digit_run_end(s, i1);
    if 0 <= j < s.len() && s[j] == B_DOT {
        lemma_digit_run_bounds(s, j + 1);
    }
}

pub proof fn lemma_parse_pair_advances(s: Seq<u8>, i: int)
    requires
        0 <= i <= s.len(),
    ensures
        parse_pair(s, i) is Some ==> i < parse_pair(s, i).unwrap().1 <= s.len(),
{
    if 0 <= i < s.len() && s[i] == B_LBRACKET {
        lemma_skip_ws_bounds(s, i + 1);
        let i1 = skip_ws(s, i + 1);
        lemma_parse_number_advances(s, i1);
        if parse_number(s, i1) is Some {
            let i2 = parse_number(s, i1).unwrap().1;
            lemma_skip_ws_bounds(s, i2);
            let i3 = skip_ws(s, i2);
            if i3 < s.len() && s[i3] == B_COMMA {
                lemma_skip_ws_bounds(s, i3 + 1);
                let i4 = skip_ws(s, i3 + 1);
                lemma_parse_number_advances(s, i4);
                if parse_number(s, i4) is Some {
                    let i5 = parse_number(s, i4).unwrap().1;
                    lemma_skip_ws_bounds(s, i5);
                }
            }
        }
    }
}

/// The remaining pairs of the list at `i`: either the closing bracket
/// (followed only by whitespace), or a comma and a pair, repeated.
pub open spec fn parse_rest(s: Seq<u8>, i: int, acc: Seq<Site>) -> Option<Seq<Site>>
    decreases s.len() - i,
    via parse_rest_decreases
{
    if !(0 <= i <= s.len()) {
        None
    } else {
        let j = skip_ws(s, i);
        if j < s.len() && s[j] == B_RBRACKET {
            if skip_ws(s, j + 1) == s.len() {
                Some(acc)
            } else {
                None
            }
        } else if j < s.len() && s[j] == B_COMMA {
            let k = skip_ws(s, j + 1);
            match parse_pair(s, k) {
                Some((p, m)) => parse_rest(s, m, acc.push(p)),
                None => None,
            }
        } else {
            None
        }
    }
}

#[via_fn]
proof fn parse_rest_decreases(s: Seq<u8>, i: int, acc: Seq<Site>) {
    if 0 <= i <= s.len() {
        lemma_skip_ws_bounds(s, i);
        let j = skip_ws(s, i);
        if !(j < s.len() && s[j] == B_RBRACKET) && j < s.len() && s[j] == B_COMMA {
            lemma_skip_ws_bounds(s, j + 1);
            let k = skip_ws(s, j + 1);
            lemma_parse_pair_advances(s, k);
        }
    }
}

/// The sites a persisted text holds, or nothing where the text is not a
/// well-formed array of two-element numeric pairs.
pub open spec fn parse_sites(s: Seq<u8>) -> Option<Seq<Site>> {
    let i = skip_ws(s, 0);
    if !(i < s.len() && s[i] == B_LBRACKET) {
        None
    } else {
        let j = skip_ws(s, i + 1);
        if j < s.len() && s[j] == B_RBRACKET {
            if skip_ws(s, j + 1) == s.len() {
                Some(Seq::empty())
            } else {
                None
            }
        } else {
            match parse_pair(s, j) {
                Some((p, k)) => parse_rest(s, k, seq![p]),
                None => None,
            }
        }
    }
}

// ------------------------------------------------------------------
// Round trip: parsing recovers exactly what formatting produced
// ------------------------------------------------------------------
pub proof fn lemma_fmt_nat_digits(n: int)
    requires
        0 <= n,
    ensures
        fmt_nat(n).len() >= 1,
        forall|t: int| 0 <= t < fmt_nat(n).len() ==> is_digit(#[trigger] fmt_nat(n)[t]),
    decreases n,
{
    if n >= 10 {
        lemma_fmt_nat_digits(n / 10);
    }
}

pub proof fn lemma_fmt_nat_len(n: int, k: int)
    requires
        1 <= k,
        0 <= n < pow10(k),
    ensures
        fmt_nat(n).len() <= k,
    decreases n,
{
    if n >= 10 {
        lemma_pow10_positive(k - 1);
        assert(n < 10 * pow10(k - 1));
        assert(n / 10 < pow10(k - 1));
        assert(k - 1 >= 1) by {
            if k - 1 < 1 {
                assert(pow10(k) == 10);
            }
        }
        lemma_fmt_nat_len(n / 10, k - 1);
    }
}

pub proof fn lemma_fmt_padded_props(n: int, w: int)
    requires
        0 <= n,
        0 <= w,
    ensures
        fmt_padded(n, w).len() == w,
        forall|t: int| 0 <= t < w ==> is_digit(#[trigger] fmt_padded(n, w)[t]),
    decreases w,
{
    if w > 0 {
        lemma_fmt_padded_props(n / 10, w - 1);
    }
}

pub proof fn lemma_digits_val_of_fmt_nat(s: Seq<u8>, i: int, n: int)
    requires
        0 <= n,
        0 <= i,
        i + fmt_nat(n).len() <= s.len(),
        s.subrange(i, i + fmt_nat(n).len()) == fmt_nat(n),
    ensures
        digits_val(s, i, i + fmt_nat(n).len()) == n,
    decreases n,
{
    let d = fmt_nat(n);
    let len = d.len() as int;
    assert forall|t: int| 0 <= t < len implies s[i + t] == d[t] by {
        assert(s.subrange(i, i + len)[t] == s[i + t]);
    }
    if n < 10 {
        assert(digits_val(s, i, i) == 0);
        assert(digits_val(s, i, i + 1) == s[i] - B_ZERO);
        assert(s[i] == d[0]);
        assert(d[0] == (n + B_ZERO) as u8);
        assert((n + B_ZERO) as u8 == n + B_ZERO);
        assert(len == 1);
    } else {
        let dd = fmt_nat(n / 10);
        assert(d == dd.push((n % 10 + B_ZERO) as u8));
        assert(s.subrange(i, i + dd.len()) =~= dd);
        lemma_digits_val_of_fmt_nat(s, i, n / 10);
        assert(digits_val(s, i, i + len - 1) == n / 10);
        assert(s[i + len - 1] == d[len - 1]);
        assert(d[len - 1] == (n % 10 + B_ZERO) as u8);
        assert((n % 10 + B_ZERO) as u8 == n % 10 + B_ZERO);
        assert(digits_val(s, i, i + len) == digits_val(s, i, i + len - 1) * 10 + (s[i + len - 1]
            - B_ZERO));
        assert((n / 10) * 10 + n % 10 == n);
    }
}

pub proof fn lemma_digits_val_of_fmt_padded(s: Seq<u8>, i: int, n: int, w: int)
    requires
        0 <= w,
        0 <= n < pow10(w),
        0 <= i,
        i + w <= s.len(),
        s.subrange(i, i + w) == fmt_padded(n, w),
    ensures
        digits_val(s, i, i + w) == n,
    decreases w,
{
    let d = fmt_padded(n, w);
    lemma_fmt_padded_props(n, w);
    assert forall|t: int| 0 <= t < w implies s[i + t] == d[t] by {
        assert(s.subrange(i, i + w)[t] == s[i + t]);
    }
    if w == 0 {
        assert(pow10(0) == 1);
    } else {
        let dd = fmt_padded(n / 10, w - 1);
        lemma_fmt_padded_props(n / 10, w - 1);
        assert(d == dd.push((n % 10 + B_ZERO) as u8));
        assert(s.subrange(i, i + w - 1) =~= dd);
        assert(n / 10 < pow10(w - 1)) by {
            assert(pow10(w) == 10 * pow10(w - 1));
        }
        lemma_digits_val_of_fmt_padded(s, i, n / 10, w - 1);
        assert(s[i + w - 1] == d[w - 1]);
        assert(d[w - 1] == (n % 10 + B_ZERO) as u8);
    }
}

/// A formatted coordinate standing at `i`, bounded on the right by a
/// non-digit, parses back to exactly that coordinate.
#[verifier::rlimit(100)]
pub proof fn lemma_parse_number_of_fmt(s: Seq<u8>, i: int, v: i64)
    requires
        -MAX_COORD <= v <= MAX_COORD,
        0 <= i,
        i + fmt_coord(v as int).len() <= s.len(),
        s.subrange(i, i + fmt_coord(v as int).len()) == fmt_coord(v as int),
        i + fmt_coord(v as int).len() == s.len() || !is_digit(
            s[i + fmt_coord(v as int).len()],
        ),
    ensures
        parse_number(s, i) == Some((v, i + fmt_coord(v as int).len())),
{
    let d = fmt_coord(v as int);
    let dlen = d.len() as int;
    let m: int = if v < 0 {
        -(v as int)
    } else {
        v as int
    };
    let sl: int = if v < 0 {
        1int
    } else {
        0int
    };
    let sign: Seq<u8> = if v < 0 {
        seq![B_MINUS]
    } else {
        Seq::empty()
    };
    let ip = m / 1_000_000;
    let fp = m % 1_000_000;
    let dn = fmt_nat(ip);
    let l = dn.len() as int;
    let dp = fmt_padded(fp, 6);
    lemma_pow10_values();
    lemma_fmt_nat_digits(ip);
    assert(ip < pow10(12));
    lemma_fmt_nat_len(ip, 12);
    lemma_fmt_padded_props(fp, 6);
    assert(d == sign + dn + seq![B_DOT] + dp);
    assert(dlen == sl + l + 7);
    assert forall|u: int| i <= u < i + dlen implies s[u] == d[u - i] by {
        assert(s.subrange(i, i + dlen)[u - i] == s[u]);
    }
    let i1 = i + sl;
    let neg = 0 <= i < s.len() && s[i] == B_MINUS;
    if v < 0 {
        assert(s[i] == d[0] && d[0] == B_MINUS);
        assert(neg);
    } else {
        assert(s[i] == d[0] && d[0] == dn[0]);
        assert(is_digit(s[i]));
        assert(!neg);
    }
    // the integer digit run
    assert forall|t: int| i1 <= t < i1 + l implies is_digit(#[trigger] s[t]) by {
        assert(s[t] == d[t - i]);
        assert(d[t - i] == dn[t - i - sl]);
    }
    assert(s[i1 + l] == d[sl + l] && d[sl + l] == B_DOT);
    assert(!is_digit(B_DOT));
    lemma_run_end_is(s, i1, i1 + l);
    let j = i1 + l;
    assert(j != i1 && j - i1 <= 12);
    assert(s.subrange(i1, i1 + l) =~= dn);
    lemma_digits_val_of_fmt_nat(s, i1, ip);
    // the fractional digit run
    assert forall|t: int| j + 1 <= t < j + 7 implies is_digit(#[trigger] s[t]) by {
        assert(s[t] == d[t - i]);
        assert(d[t - i] == dp[t - i - sl - l - 1]);
    }
    assert(j + 7 == i + dlen);
    lemma_run_end_is(s, j + 1, j + 7);
    assert(s.subrange(j + 1, j + 7) =~= dp);
    assert(fp < pow10(6));
    lemma_digits_val_of_fmt_padded(s, j + 1, fp, 6);
    assert(parse_frac(s, j) == Some((fp * pow10(0), j + 7)));
    assert(fp * pow10(0) == fp);
    assert(digits_val(s, i1, j) * unit() + fp == ip * 1_000_000 + fp);
    assert(ip * 1_000_000 + fp == m);
}

/// A formatted pair standing at `i` parses back to exactly that site.
#[verifier::rlimit(100)]
#[verifier::spinoff_prover]
pub proof fn lemma_parse_pair_of_fmt(s: Seq<u8>, i: int, p: Site)
    requires
        p.ok(),
        0 <= i,
        i + fmt_pair(p).len() <= s.len(),
        s.subrange(i, i + fmt_pair(p).len()) == fmt_pair(p),
    ensures
        parse_pair(s, i) == Some((p, i + fmt_pair(p).len())),
{
    let d = fmt_pair(p);
    let dlen = d.len() as int;
    let dx = fmt_coord(p.x as int);
    let dy = fmt_coord(p.y as int);
    let lx = dx.len() as int;
    let ly = dy.len() as int;
    assert(d == seq![B_LBRACKET] + dx + seq![B_COMMA] + dy + seq![B_RBRACKET]);
    assert(dlen == lx + ly + 3);
    assert forall|u: int| i <= u < i + dlen implies s[u] == d[u - i] by {
        assert(s.subrange(i, i + dlen)[u - i] == s[u]);
    }
    lemma_fmt_coord_head(p.x as int);
    lemma_fmt_coord_head(p.y as int);
    assert(s[i] == d[0] && d[0] == B_LBRACKET);
    assert(s[i + 1] == d[1] && d[1] == dx[0]);
    assert(skip_ws(s, i + 1) == i + 1);
    assert(s.subrange(i + 1, i + 1 + lx) =~= dx);
    assert(s[i + 1 + lx] == d[1 + lx] && d[1 + lx] == B_COMMA);
    lemma_parse_number_of_fmt(s, i + 1, p.x);
    let i2 = i + 1 + lx;
    assert(skip_ws(s, i2) == i2);
    let i4 = i2 + 1;
    assert(s[i4] == d[i4 - i] && d[i4 - i] == dy[0]);
    assert(skip_ws(s, i4) == i4);
    assert(s.subrange(i4, i4 + ly) =~= dy);
    assert(s[i4 + ly] == d[2 + lx + ly] && d[2 + lx + ly] == B_RBRACKET);
    lemma_parse_number_of_fmt(s, i4, p.y);
    let i5 = i4 + ly;
    assert(skip_ws(s, i5) == i5);
    assert(parse_pair(s, i) == Some((Site { x: p.x, y: p.y }, i5 + 1)));
    assert(Site { x: p.x, y: p.y } == p);
}

/// A formatted coordinate starts with a minus sign or a digit — never
/// with whitespace, a bracket or a comma — and spans at least eight bytes.
pub proof fn lemma_fmt_coord_head(v: int)
    ensures
        fmt_coord(v).len() >= 8,
        fmt_coord(v)[0] == B_MINUS || is_digit(fmt_coord(v)[0]),
        !is_ws(fmt_coord(v)[0]),
{
    let m = if v < 0 {
        -v
    } else {
        v
    };
    lemma_fmt_nat_digits(m / 1_000_000);
    lemma_fmt_padded_props(m % 1_000_000, 6);
    if v < 0 {
    } else {
        assert(fmt_coord(v)[0] == fmt_nat(m / 1_000_000)[0]);
    }
}

/// The tail of a formatted list standing at `i` — the remaining pairs and
/// the closing bracket, ending the text — parses back to exactly those
/// sites, appended to what was already collected.
#[verifier::rlimit(100)]
pub proof fn lemma_parse_rest_of_fmt(s: Seq<u8>, i: int, ss: Seq<Site>, acc: Seq<Site>)
    requires
        all_ok(ss),
        0 <= i,
        s.len() == i + fmt_rest(ss).len() + 1,
        s.subrange(i, s.len() as int) == fmt_rest(ss) + seq![B_RBRACKET],
    ensures
        parse_rest(s, i, acc) == Some(acc + ss),
    decreases ss.len(),
{
    let tail = fmt_rest(ss) + seq![B_RBRACKET];
    let tlen = tail.len() as int;
    assert forall|u: int| i <= u < s.len() implies s[u] == tail[u - i] by {
        assert(s.subrange(i, s.len() as int)[u - i] == s[u]);
    }
    if ss.len() == 0 {
        assert(s[i] == tail[0] && tail[0] == B_RBRACKET);
        assert(skip_ws(s, i) == i);
        assert(skip_ws(s, i + 1) == i + 1);
        assert(i + 1 == s.len());
        assert(acc + ss =~= acc);
    } else {
        let p0 = ss[0];
        let fp = fmt_pair(p0);
        let lp = fp.len() as int;
        let rest = fmt_rest(ss.drop_first());
        assert(fmt_rest(ss) == seq![B_COMMA] + fp + rest);
        assert(s[i] == tail[0] && tail[0] == B_COMMA);
        assert(skip_ws(s, i) == i);
        assert(s[i + 1] == tail[1] && tail[1] == fp[0]);
        assert(fp[0] == B_LBRACKET);
        assert(skip_ws(s, i + 1) == i + 1);
        assert(s.subrange(i + 1, i + 1 + lp) =~= fp);
        assert(p0.ok());
        lemma_parse_pair_of_fmt(s, i + 1, p0);
        let m = i + 1 + lp;
        assert(s.len() == m + rest.len() + 1);
        assert(s.subrange(m, s.len() as int) =~= rest + seq![B_RBRACKET]);
        assert(all_ok(ss.drop_first())) by {
            assert forall|t: int| 0 <= t < ss.drop_first().len() implies (#[trigger] ss.drop_first()[t]).ok() by {
                assert(ss.drop_first()[t] == ss[t + 1]);
            }
        }
        lemma_parse_rest_of_fmt(s, m, ss.drop_first(), acc.push(p0));
        assert(acc.push(p0) + ss.drop_first() =~= acc + ss);
    }
}

/// Law: loading what was saved yields the saved sites exactly,
/// coordinate for coordinate, order preserved.
#[verifier::rlimit(100)]
pub proof fn lemma_save_load_roundtrip(sites: Seq<Site>)
    requires
        all_ok(sites),
    ensures
        parse_sites(fmt_sites(sites)) == Some(sites),
{
    let s = fmt_sites(sites);
    if sites.len() == 0 {
        assert(s == seq![B_LBRACKET, B_RBRACKET]);
        assert(s[0] == B_LBRACKET && s[1] == B_RBRACKET);
        assert(skip_ws(s, 0) == 0);
        assert(skip_ws(s, 1) == 1);
        assert(skip_ws(s, 2) == 2);
        assert(sites =~= Seq::<Site>::empty());
    } else {
        let p0 = sites[0];
        let fp = fmt_pair(p0);
        let lp = fp.len() as int;
        let rest = fmt_rest(sites.drop_first());
        assert(s == seq![B_LBRACKET] + fp + rest + seq![B_RBRACKET]);
        assert(s[0] == B_LBRACKET);
        assert(skip_ws(s, 0) == 0);
        assert(s[1] == fp[0] && fp[0] == B_LBRACKET);
        assert(skip_ws(s, 1) == 1);
        assert(s.subrange(1, 1 + lp) =~= fp);
        assert(p0.ok());
        lemma_parse_pair_of_fmt(s, 1, p0);
        let k = 1 + lp;
        assert(s.len() == k + rest.len() + 1);
        assert(s.subrange(k, s.len() as int) =~= rest + seq![B_RBRACKET]);
        assert(all_ok(sites.drop_first())) by {
            assert forall|t: int| 0 <= t < sites.drop_first().len() implies (#[trigger] sites.drop_first()[t]).ok() by {
                assert(sites.drop_first()[t] == sites[t + 1]);
            }
        }
        lemma_parse_rest_of_fmt(s, k, sites.drop_first(), seq![p0]);
        assert(seq![p0] + sites.drop_first() =~= sites);
    }
}

// ------------------------------------------------------------------
// Executable saving
// ------------------------------------------------------------------
fn push_nat(out: &mut Vec<u8>, n: u64)
    ensures
        final(out)@ == old(out)@ + fmt_nat(n as int),
    decreases n,
{
    if n < 10 {
        out.push((n as u8) + B_ZERO);
        proof {
            assert(out@ =~= old(out)@ + fmt_nat(n as int));
        }
    } else {
        push_nat(out, n / 10);
        out.push(((n % 10) as u8) + B_ZERO);
        proof {
            assert(out@ =~= old(out)@ + fmt_nat(n as int));
        }
    }
}

fn push_padded(out: &mut Vec<u8>, n: u64, width: u64)
    ensures
        final(out)@ == old(out)@ + fmt_padded(n as int, width as int),
    decreases width,
{
    if width == 0 {
        proof {
            assert(out@ =~= old(out)@ + fmt_padded(n as int, 0));
        }
    } else {
        push_padded(out, n / 10, width - 1);
        out.push(((n % 10) as u8) + B_ZERO);
        proof {
            assert(out@ =~= old(out)@ + fmt_padded(n as int, width as int));
        }
    }
}

fn push_coord(out: &mut Vec<u8>, v: i64)
    requires
        -MAX_COORD <= v <= MAX_COORD,
    ensures
        final(out)@ == old(out)@ + fmt_coord(v as int),
{
    if v < 0 {
        out.push(B_MINUS);
    }
    let m: i64 = if v < 0 {
        -v
    } else {
        v
    };
    push_nat(out, (m / 1_000_000) as u64);
    out.push(B_DOT);
    push_padded(out, (m % 1_000_000) as u64, 6);
    proof {
        assert(out@ =~= old(out)@ + fmt_coord(v as int));
    }
}

fn push_pair(out: &mut Vec<u8>, p: Site)
    requires
        p.ok(),
    ensures
        final(out)@ == old(out)@ + fmt_pair(p),
{
    out.push(B_LBRACKET);
    push_coord(out, p.x);
    out.push(B_COMMA);
    push_coord(out, p.y);
    out.push(B_RBRACKET);
    proof {
        assert(out@ =~= old(out)@ + fmt_pair(p));
    }
}

proof fn lemma_fmt_rest_snoc(ss: Seq<Site>, p: Site)
    ensures
        fmt_rest(ss.push(p)) == fmt_rest(ss) + seq![B_COMMA] + fmt_pair(p),
    decreases ss.len(),
{
    if ss.len() == 0 {
        assert(ss.push(p)[0] == p);
        assert(ss.push(p).drop_first() =~= Seq::<Site>::empty());
        assert(fmt_rest(Seq::<Site>::empty()) == Seq::<u8>::empty());
        assert(fmt_rest(ss.push(p)) =~= fmt_rest(ss) + seq![B_COMMA] + fmt_pair(p));
    } else {
        assert(ss.push(p)[0] == ss[0]);
        assert(ss.push(p).drop_first() =~= ss.drop_first().push(p));
        lemma_fmt_rest_snoc(ss.drop_first(), p);
        assert(fmt_rest(ss.push(p)) =~= fmt_rest(ss) + seq![B_COMMA] + fmt_pair(p));
    }
}

/// Serializes every site's two coordinates, in store order, to the
/// textual array-of-pairs format; the result is exactly `fmt_sites`.
pub fn save(sites: &Vec<Site>) -> (out: Vec<u8>)
    requires
        all_ok(sites@),
    ensures
        out@ == fmt_sites(sites@),
{
    let mut out: Vec<u8> = Vec::new();
    out.push(B_LBRACKET);
    let n = sites.len();
    if n == 0 {
        out.push(B_RBRACKET);
        proof {
            assert(out@ =~= fmt_sites(sites@));
        }
        return out;
    }
    push_pair(&mut out, sites[0]);
    proof {
        assert(sites@.subrange(1, 1) =~= Seq::<Site>::empty());
        assert(out@ =~= seq![B_LBRACKET] + fmt_pair(sites@[0]) + fmt_rest(sites@.subrange(1, 1)));
    }
    let mut t: usize = 1;
    while t < n
        invariant
            1 <= t <= n,
            n == sites@.len(),
            all_ok(sites@),
            out@ == seq![B_LBRACKET] + fmt_pair(sites@[0]) + fmt_rest(
                sites@.subrange(1, t as int),
            ),
        decreases n - t,
    {
        out.push(B_COMMA);
        push_pair(&mut out, sites[t]);
        proof {
            lemma_fmt_rest_snoc(sites@.subrange(1, t as int), sites@[t as int]);
            assert(sites@.subrange(1, t + 1) =~= sites@.subrange(1, t as int).push(
                sites@[t as int],
            ));
            assert(out@ =~= seq![B_LBRACKET] + fmt_pair(sites@[0]) + fmt_rest(
                sites@.subrange(1, t + 1),
            ));
        }
        t += 1;
    }
    out.push(B_RBRACKET);
    proof {
        assert(sites@.subrange(1, n as int) =~= sites@.drop_first());
        assert(out@ =~= fmt_sites(sites@));
    }
    out
}

// ------------------------------------------------------------------
// Executable loading
// ------------------------------------------------------------------
/// The text is not a well-formed array of two-element numeric pairs.
#[derive(Clone, Copy, PartialEq, Eq, Structural, Debug)]
pub enum LoadError {
    MalformedInput,
}

fn is_ws_at(s: &Vec<u8>, j: usize) -> (r: bool)
    requires
        j < s@.len(),
    ensures
        r == is_ws(s@[j as int]),
{
    let c = s[j];
    c == B_SPACE || c == B_TAB || c == B_LF || c == B_CR
}

fn is_digit_at(s: &Vec<u8>, j: usize) -> (r: bool)
    requires
        j < s@.len(),
    ensures
        r == is_digit(s@[j as int]),
{
    let c = s[j];
    B_ZERO <= c && c <= B_NINE
}

fn skip_ws_exec(s: &Vec<u8>, i: usize) -> (r: usize)
    requires
        i <= s@.len(),
    ensures
        r as int == skip_ws(s@, i as int),
        i <= r <= s@.len(),
{
    let mut j = i;
    while j < s.len() && is_ws_at(s, j)
        invariant
            i <= j <= s@.len(),
            skip_ws(s@, i as int) == skip_ws(s@, j as int),
        decreases s@.len() - j,
    {
        j += 1;
    }
    j
}

fn digit_run_exec(s: &Vec<u8>, i: usize) -> (r: usize)
    requires
        i <= s@.len(),
    ensures
        r as int == digit_run_end(s@, i as int),
        i <= r <= s@.len(),
{
    let mut j = i;
    while j < s.len() && is_digit_at(s, j)
        invariant
            i <= j <= s@.len(),
            digit_run_end(s@, i as int) == digit_run_end(s@, j as int),
        decreases s@.len() - j,
    {
        j += 1;
    }
    j
}

fn digits_val_exec(s: &Vec<u8>, i: usize, j: usize) -> (r: i64)
    requires
        i <= j <= s@.len(),
        j - i <= 12,
        forall|t: int| i <= t < j ==> is_digit(#[trigger] s@[t]),
    ensures
        r as int == digits_val(s@, i as int, j as int),
        0 <= r < pow10((j - i) as int),
{
    proof {
        lemma_pow10_values();
    }
    let mut acc: i64 = 0;
    let mut t = i;
    while t < j
        invariant
            i <= t <= j <= s@.len(),
            j - i <= 12,
            forall|u: int| i <= u < j ==> is_digit(#[trigger] s@[u]),
            acc as int == digits_val(s@, i as int, t as int),
            0 <= acc < pow10((t - i) as int),
            pow10(12) == 1_000_000_000_000,
        decreases j - t,
    {
        proof {
            lemma_pow10_mono((t - i) as int, 11);
            lemma_pow10_values_11();
        }
        let c = s[t];
        acc = acc * 10 + ((c - B_ZERO) as i64);
        t += 1;
    }
    proof {
        lemma_digits_val_bounds(s@, i as int, j as int);
    }
    acc
}

proof fn lemma_pow10_values_11()
    ensures
        pow10(11) == 100_000_000_000,
{
    reveal_with_fuel(pow10, 12);
}

fn parse_number_exec(s: &Vec<u8>, i: usize) -> (r: Option<(i64, usize)>)
    requires
        i <= s@.len(),
    ensures
        match r {
            Some((v, e)) => parse_number(s@, i as int) == Some((v, e as int)) && i < e <= s@.len()
                && -MAX_COORD <= v <= MAX_COORD,
            None => parse_number(s@, i as int) is None,
        },
{
    let n = s.len();
    let neg = i < n && s[i] == B_MINUS;
    let i1 = if neg {
        i + 1
    } else {
        i
    };
    let j = digit_run_exec(s, i1);
    if j == i1 || j - i1 > 12 {
        return None;
    }
    proof {
        lemma_digit_run_bounds(s@, i1 as int);
        lemma_pow10_values();
    }
    let ival = digits_val_exec(s, i1, j);
    proof {
        lemma_pow10_mono((j - i1) as int, 12);
    }
    let (fr, end): (i64, usize) = if j < n && s[j] == B_DOT {
        let k = digit_run_exec(s, j + 1);
        if k == j + 1 || k - (j + 1) > 6 {
            return None;
        }
        proof {
            lemma_digit_run_bounds(s@, j as int + 1);
        }
        let fval = digits_val_exec(s, j + 1, k);
        let fd = k - (j + 1);
        let mut sc: i64 = 1;
        let mut z: usize = 0;
        while z < 6 - fd
            invariant
                0 <= z <= 6 - fd,
                fd <= 6,
                sc as int == pow10(z as int),
                1 <= sc <= 1_000_000,
            decreases 6 - fd - z,
        {
            proof {
                lemma_pow10_mono(z as int, 5);
                lemma_pow10_values();
                assert(pow10(5) * 10 == pow10(6)) by {
                    reveal_with_fuel(pow10, 7);
                }
            }
            sc = sc * 10;
            z += 1;
        }
        proof {
            lemma_pow10_mono((6 - fd) as int, 6);
            lemma_pow10_values();
            assert(fval * sc < pow10(fd as int) * pow10((6 - fd) as int)) by (nonlinear_arith)
                requires
                    0 <= fval < pow10(fd as int),
                    1 <= sc,
                    sc == pow10((6 - fd) as int),
            ;
            assert(0 <= fval * sc) by (nonlinear_arith)
                requires
                    0 <= fval,
                    1 <= sc,
            ;
            lemma_pow10_mul(fd as int, (6 - fd) as int);
        }
        (fval * sc, k)
    } else {
        (0, j)
    };
    let mag: i64 = ival * 1_000_000 + fr;
    let v: i64 = if neg {
        -mag
    } else {
        mag
    };
    Some((v, end))
}

fn parse_pair_exec(s: &Vec<u8>, i: usize) -> (r: Option<(Site, usize)>)
    requires
        i <= s@.len(),
    ensures
        match r {
            Some((p, e)) => parse_pair(s@, i as int) == Some((p, e as int)) && i < e <= s@.len()
                && p.ok(),
            None => parse_pair(s@, i as int) is None,
        },
{
    let n = s.len();
    if i >= n {
        return None;
    }
    if s[i] != B_LBRACKET {
        return None;
    }
    let i1 = skip_ws_exec(s, i + 1);
    match parse_number_exec(s, i1) {
        None => None,
        Some((x, i2)) => {
            let i3 = skip_ws_exec(s, i2);
            if i3 >= n {
                return None;
            }
            if s[i3] != B_COMMA {
                return None;
            }
            let i4 = skip_ws_exec(s, i3 + 1);
            match parse_number_exec(s, i4) {
                None => None,
                Some((y, i5)) => {
                    let i6 = skip_ws_exec(s, i5);
                    if i6 >= n {
                        return None;
                    }
                    if s[i6] != B_RBRACKET {
                        return None;
                    }
                    Some((Site { x, y }, i6 + 1))
                },
            }
        },
    }
}

/// Parses persisted text back into sites. Succeeds exactly on the texts
/// that `parse_sites` accepts — a well-formed array of two-element
/// numeric pairs — and fails with `MalformedInput` on every other text.
pub fn load(text: &Vec<u8>) -> (r: Result<Vec<Site>, LoadError>)
    ensures
        match r {
            Ok(v) => parse_sites(text@) == Some(v@) && all_ok(v@),
            Err(_) => parse_sites(text@) is None,
        },
{
    let n = text.len();
    let i = skip_ws_exec(text, 0);
    if i >= n {
        return Err(LoadError::MalformedInput);
    }
    if text[i] != B_LBRACKET {
        return Err(LoadError::MalformedInput);
    }
    let j = skip_ws_exec(text, i + 1);
    if j < n && text[j] == B_RBRACKET {
        let e = skip_ws_exec(text, j + 1);
        if e == n {
            let empty: Vec<Site> = Vec::new();
            proof {
                assert(empty@ =~= Seq::<Site>::empty());
            }
            return Ok(empty);
        }
        return Err(LoadError::MalformedInput);
    }
    match parse_pair_exec(text, j) {
        None => Err(LoadError::MalformedInput),
        Some((p, k)) => {
            let mut out: Vec<Site> = Vec::new();
            out.push(p);
            proof {
                assert(out@ =~= seq![p]);
            }
            let mut pos = k;
            loop
                invariant
                    pos <= n,
                    n == text@.len(),
                    all_ok(out@),
                    parse_sites(text@) == parse_rest(text@, pos as int, out@),
                decreases n - pos,
            {
                let j2 = skip_ws_exec(text, pos);
                if j2 >= n {
                    return Err(LoadError::MalformedInput);
                }
                let c = text[j2];
                if c == B_RBRACKET {
                    let e = skip_ws_exec(text, j2 + 1);
                    if e == n {
                        return Ok(out);
                    }
                    return Err(LoadError::MalformedInput);
                }
                if c != B_COMMA {
                    return Err(LoadError::MalformedInput);
                }
                let k2 = skip_ws_exec(text, j2 + 1);
                match parse_pair_exec(text, k2) {
                    None => {
                        return Err(LoadError::MalformedInput);
                    },
                    Some((p2, m)) => {
                        out.push(p2);
                        pos = m;
                    },
                }
            }
        },
    }
}

} // verus!
