//! The flat tabular text format for observations and fitted models.
//!
//! A value is written in decimal with six fraction digits; an observation
//! file is a `km,price` header followed by one row per observation; a
//! model file is a `theta_0,theta_1` header followed by exactly one row.
//! Parsing a value that a row does not hold drops the row silently, as
//! the observation supplier's contract asks. Writing a model and reading
//! it back returns the identical coefficients.

use vstd::prelude::*;
use vstd::arithmetic::div_mod::lemma_fundamental_div_mod;
use crate::model::{Entry, TrainedPredictor};

verus! {

/// `10^k`.
pub open spec fn pow10(k: nat) -> int
    decreases k,
{
    if k == 0 {
        1
    } else {
        10 * pow10((k - 1) as nat)
    }
}

/// Every byte of `s` is an ASCII decimal digit.
pub open spec fn all_digits(s: Seq<u8>) -> bool {
    forall|i: int| 0 <= i < s.len() ==> 48 <= #[trigger] s[i] <= 57
}

/// The number a sequence of ASCII digits denotes, most significant first.
pub open spec fn dig_val(s: Seq<u8>) -> int
    decreases s.len(),
{
    if s.len() == 0 {
        0
    } else {
        dig_val(s.drop_last()) * 10 + (s.last() - 48)
    }
}

/// The ASCII digits of `n`, most significant first, no leading zeros.
pub open spec fn digits(n: nat) -> Seq<u8>
    decreases n,
{
    if n < 10 {
        seq![(48 + n) as u8]
    } else {
        digits(n / 10).push((48 + n % 10) as u8)
    }
}

/// The ASCII digits of `n % 10^w`, zero-padded to exactly `w` digits.
pub open spec fn padded(n: nat, w: nat) -> Seq<u8>
    decreases w,
{
    if w == 0 {
        seq![]
    } else {
        padded(n / 10, (w - 1) as nat).push((48 + n % 10) as u8)
    }
}

/// The first position at or after `i` holding byte `b`, or the length.
pub open spec fn find_from(s: Seq<u8>, b: u8, i: int) -> int
    decreases s.len() - i,
        when 0 <= i <= s.len()
{
    if i >= s.len() {
        i
    } else if s[i] == b {
        i
    } else {
        find_from(s, b, i + 1)
    }
}

pub proof fn lemma_pow10_pos(k: nat)
    ensures
        pow10(k) >= 1,
    decreases k,
{
    if k > 0 {
        lemma_pow10_pos((k - 1) as nat);
    }
}

pub proof fn lemma_pow10_mono(a: nat, b: nat)
    requires
        a <= b,
    ensures
        pow10(a) <= pow10(b),
    decreases b,
{
    if a < b {
        lemma_pow10_mono(a, (b - 1) as nat);
        lemma_pow10_pos((b - 1) as nat);
    }
}

pub proof fn lemma_pow10_add(a: nat, b: nat)
    ensures
        pow10(a) * pow10(b) == pow10((a + b) as nat),
    decreases a,
{
    if a == 0 {
    } else {
        lemma_pow10_add((a - 1) as nat, b);
        assert(pow10(a) * pow10(b) == 10 * (pow10((a - 1) as nat) * pow10(b)))
            by (nonlinear_arith)
            requires
                pow10(a) == 10 * pow10((a - 1) as nat),
        ;
    }
}

/// `digits` produces at least one digit and denotes `n` again.
pub proof fn lemma_digits_val(n: nat)
    ensures
        all_digits(digits(n)),
        dig_val(digits(n)) == n,
        digits(n).len() >= 1,
    decreases n,
{
    if n < 10 {
        assert(digits(n) =~= seq![(48 + n) as u8]);
        assert(digits(n).drop_last() =~= Seq::<u8>::empty());
        assert(digits(n).last() == (48 + n) as u8);
        assert(dig_val(digits(n)) == dig_val(Seq::<u8>::empty()) * 10 + ((48 + n) as u8 - 48));
        assert(((48 + n) as u8) as int == 48 + n);
    } else {
        lemma_digits_val(n / 10);
        lemma_fundamental_div_mod(n as int, 10);
        assert(digits(n).drop_last() =~= digits(n / 10));
        assert(digits(n).last() == (48 + n % 10) as u8);
        assert(((48 + n % 10) as u8) as int == 48 + (n % 10) as int);
        assert(dig_val(digits(n)) == dig_val(digits(n / 10)) * 10 + (n % 10));
        assert(dig_val(digits(n)) == (n / 10) * 10 + (n % 10));
    }
}

/// A number below `10^l` prints in at most `l` digits.
pub proof fn lemma_digits_len(n: nat, l: nat)
    requires
        n < pow10(l),
        l >= 1,
    ensures
        digits(n).len() <= l,
    decreases n,
{
    if n >= 10 {
        lemma_fundamental_div_mod(n as int, 10);
        if l == 1 {
            assert(false);
        }
        assert(n / 10 < pow10((l - 1) as nat)) by {
            assert(pow10(l) == 10 * pow10((l - 1) as nat));
        }
        lemma_digits_len(n / 10, (l - 1) as nat);
    }
}

/// `padded` produces exactly `w` digits and, for `n < 10^w`, denotes `n`.
pub proof fn lemma_padded_val(n: nat, w: nat)
    requires
        n < pow10(w),
    ensures
        all_digits(padded(n, w)),
        padded(n, w).len() == w,
        dig_val(padded(n, w)) == n,
    decreases w,
{
    if w == 0 {
    } else {
        lemma_fundamental_div_mod(n as int, 10);
        assert(n / 10 < pow10((w - 1) as nat)) by {
            assert(pow10(w) == 10 * pow10((w - 1) as nat));
        }
        lemma_padded_val(n / 10, (w - 1) as nat);
        assert(padded(n, w).drop_last() =~= padded(n / 10, (w - 1) as nat));
    }
}

/// Characterizes `find_from` when the byte occurs at `k` and nowhere
/// earlier.
pub proof fn lemma_find_at(s: Seq<u8>, b: u8, i: int, k: int)
    requires
        0 <= i <= k < s.len(),
        s[k] == b,
        forall|j: int| i <= j < k ==> s[j] != b,
    ensures
        find_from(s, b, i) == k,
    decreases k - i,
{
    if i < k {
        lemma_find_at(s, b, i + 1, k);
    }
}

/// Characterizes `find_from` when the byte does not occur at or after `i`.
pub proof fn lemma_find_none(s: Seq<u8>, b: u8, i: int)
    requires
        0 <= i <= s.len(),
        forall|j: int| i <= j < s.len() ==> s[j] != b,
    ensures
        find_from(s, b, i) == s.len(),
    decreases s.len() - i,
{
    if i < s.len() {
        lemma_find_none(s, b, i + 1);
    }
}

/// The magnitude a decimal text denotes, in millionths: one to thirteen
/// integer digits, optionally a dot and one to six fraction digits.
pub open spec fn s_parse_mag(s: Seq<u8>) -> Option<int> {
    let dot = find_from(s, 46, 0);
    let ip = s.subrange(0, dot);
    if !(1 <= ip.len() <= 13 && all_digits(ip)) {
        None
    } else if dot == s.len() {
        Some(dig_val(ip) * 1_000_000)
    } else {
        let fp = s.subrange(dot + 1, s.len() as int);
        if 1 <= fp.len() <= 6 && all_digits(fp) {
            Some(dig_val(ip) * 1_000_000 + dig_val(fp) * pow10((6 - fp.len()) as nat))
        } else {
            None
        }
    }
}

/// The fixed-point value a decimal text denotes: an optional leading
/// minus sign, then a magnitude that must fit in an `i64`.
pub open spec fn s_parse_value(s: Seq<u8>) -> Option<int> {
    if s.len() > 0 && s[0] == 45 {
        match s_parse_mag(s.subrange(1, s.len() as int)) {
            Some(m) => if m <= i64::MAX + 1 {
                Some(-m)
            } else {
                None
            },
            None => None,
        }
    } else {
        match s_parse_mag(s) {
            Some(m) => if m <= i64::MAX {
                Some(m)
            } else {
                None
            },
            None => None,
        }
    }
}

/// The canonical decimal text of a fixed-point value: sign, integer
/// digits, a dot, and exactly six fraction digits.
pub open spec fn s_format_value(v: int) -> Seq<u8> {
    let mag = vstd::math::abs(v);
    let body = digits(mag / 1_000_000) + seq![46u8] + padded(mag % 1_000_000, 6);
    if v < 0 {
        seq![45u8] + body
    } else {
        body
    }
}

fn push_digits(n: u64, out: &mut Vec<u8>)
    ensures
        final(out)@ == old(out)@ + digits(n as nat),
    decreases n,
{
    if n < 10 {
        out.push(48 + n as u8);
        assert(out@ =~= old(out)@ + digits(n as nat));
    } else {
        push_digits(n / 10, out);
        out.push(48 + (n % 10) as u8);
        assert(out@ =~= old(out)@ + digits(n as nat));
    }
}

fn push_padded(n: u64, w: usize, out: &mut Vec<u8>)
    ensures
        final(out)@ == old(out)@ + padded(n as nat, w as nat),
    decreases w,
{
    if w > 0 {
        push_padded(n / 10, w - 1, out);
        out.push(48 + (n % 10) as u8);
    }
    assert(out@ =~= old(out)@ + padded(n as nat, w as nat));
}

/// Writes a fixed-point value as canonical decimal text.
pub fn format_value(v: i64) -> (r: Vec<u8>)
    ensures
        r@ == s_format_value(v as int),
{
    let neg = v < 0;
    let mag: u64 = if v >= 0 {
        v as u64
    } else {
        (-(v as i128)) as u64
    };
    let q = mag / 1_000_000;
    let rem = mag % 1_000_000;
    let mut out: Vec<u8> = Vec::new();
    if neg {
        out.push(45);
    }
    push_digits(q, &mut out);
    out.push(46);
    push_padded(rem, 6, &mut out);
    proof {
        assert(out@ =~= s_format_value(v as int));
    }
    out
}

/// Reads a fixed-point value from decimal text; `None` when the text is
/// not a decimal number or does not fit.
pub fn parse_value(s: &Vec<u8>) -> (r: Option<i64>)
    ensures
        r is Some ==> s_parse_value(s@) == Some(r->Some_0 as int),
        r is None ==> s_parse_value(s@) is None,
{
    let n = s.len();
    let ghost sv = s@;
    if n == 0 {
        return None;
    }
    let neg = s[0] == 45;
    let start: usize = if neg {
        1
    } else {
        0
    };
    let ghost body = if neg {
        sv.subrange(1, n as int)
    } else {
        sv
    };
    let mut dot: usize = start;
    while dot < n && s[dot] != 46
        invariant
            start <= dot <= n,
            n == sv.len(),
            sv == s@,
            forall|j: int| start <= j < dot ==> #[trigger] sv[j] != 46,
        decreases n - dot,
    {
        dot += 1;
    }
    proof {
        assert(forall|j: int| 0 <= j < body.len() ==> #[trigger] body[j] == sv[start + j]);
        if dot < n {
            lemma_find_at(body, 46, 0, dot - start);
        } else {
            lemma_find_none(body, 46, 0);
        }
        assert(find_from(body, 46, 0) == dot - start);
    }
    let ip_len = dot - start;
    let ghost ip = body.subrange(0, dot - start);
    proof {
        assert(ip =~= sv.subrange(start as int, dot as int));
    }
    if ip_len == 0 || ip_len > 13 {
        return None;
    }
    let mut acc: u64 = 0;
    let mut j = start;
    proof {
        assert(sv.subrange(start as int, start as int) =~= Seq::<u8>::empty());
    }
    while j < dot
        invariant
            start <= j <= dot <= n,
            n == sv.len(),
            sv == s@,
            1 <= dot - start <= 13,
            n >= 1,
            neg == (sv[0] == 45),
            start == (if neg { 1int } else { 0int }),
            body == (if neg { sv.subrange(1, n as int) } else { sv }),
            find_from(body, 46, 0) == dot - start,
            ip == sv.subrange(start as int, dot as int),
            ip == body.subrange(0, dot - start),
            forall|t: int| start <= t < j ==> 48 <= #[trigger] sv[t] <= 57,
            acc as int == dig_val(sv.subrange(start as int, j as int)),
            (acc as int) < pow10((j - start) as nat),
        decreases dot - j,
    {
        let c = s[j];
        if c < 48 || c > 57 {
            proof {
                assert(ip[j - start] == sv[j as int]);
                assert(!all_digits(ip));
            }
            return None;
        }
        proof {
            lemma_pow10_mono((j - start) as nat, 12);
            lemma_pow10_mono((j - start + 1) as nat, 13);
            assert(pow10(12) == 1_000_000_000_000) by {
                reveal_with_fuel(pow10, 13);
            }
            assert(pow10(13) == 10_000_000_000_000) by {
                reveal_with_fuel(pow10, 14);
            }
            let pre = sv.subrange(start as int, j as int + 1);
            assert(pre.drop_last() =~= sv.subrange(start as int, j as int));
            assert(pre.last() == sv[j as int]);
        }
        acc = acc * 10 + (c - 48) as u64;
        j += 1;
    }
    proof {
        assert(all_digits(ip));
        assert(acc as int == dig_val(ip));
        lemma_pow10_mono((dot - start) as nat, 13);
        assert(pow10(13) == 10_000_000_000_000) by {
            reveal_with_fuel(pow10, 14);
        }
    }
    let mut fr: u64 = 0;
    if dot < n {
        let fstart = dot + 1;
        let flen = n - fstart;
        let ghost fp = body.subrange(dot - start + 1, body.len() as int);
        proof {
            assert(fp =~= sv.subrange(fstart as int, n as int));
        }
        if flen == 0 || flen > 6 {
            return None;
        }
        let mut j2 = fstart;
        proof {
            assert(sv.subrange(fstart as int, fstart as int) =~= Seq::<u8>::empty());
        }
        while j2 < n
            invariant
                fstart <= j2 <= n,
                n == sv.len(),
                sv == s@,
                1 <= n - fstart <= 6,
                n >= 1,
                neg == (sv[0] == 45),
                start == (if neg { 1int } else { 0int }),
                body == (if neg { sv.subrange(1, n as int) } else { sv }),
                find_from(body, 46, 0) == dot - start,
                dot < n,
                fstart == dot + 1,
                1 <= dot - start <= 13,
                ip == body.subrange(0, dot - start),
                all_digits(ip),
                fp == sv.subrange(fstart as int, n as int),
                fp == body.subrange(dot - start + 1, body.len() as int),
                forall|t: int| fstart <= t < j2 ==> 48 <= #[trigger] sv[t] <= 57,
                fr as int == dig_val(sv.subrange(fstart as int, j2 as int)),
                (fr as int) < pow10((j2 - fstart) as nat),
            decreases n - j2,
        {
            let c = s[j2];
            if c < 48 || c > 57 {
                proof {
                    assert(fp[j2 - fstart] == sv[j2 as int]);
                    assert(!all_digits(fp));
                }
                return None;
            }
            proof {
                lemma_pow10_mono((j2 - fstart) as nat, 5);
                lemma_pow10_mono((j2 - fstart + 1) as nat, 6);
                assert(pow10(5) == 100_000 && pow10(6) == 1_000_000) by {
                    reveal_with_fuel(pow10, 7);
                }
                let pre = sv.subrange(fstart as int, j2 as int + 1);
                assert(pre.drop_last() =~= sv.subrange(fstart as int, j2 as int));
                assert(pre.last() == sv[j2 as int]);
            }
            fr = fr * 10 + (c - 48) as u64;
            j2 += 1;
        }
        let scale: u64 = pow10_u64(6 - flen);
        proof {
            assert(all_digits(fp));
            assert(fr as int == dig_val(fp));
            assert((fr as int) + 1 <= pow10(flen as nat));
            assert((fr as int) * (scale as int) + scale <= pow10(flen as nat) * pow10(
                (6 - flen) as nat,
            )) by (nonlinear_arith)
                requires
                    (fr as int) + 1 <= pow10(flen as nat),
                    scale as int == pow10((6 - flen) as nat),
                    scale >= 1,
            ;
            lemma_pow10_add(flen as nat, (6 - flen) as nat);
            assert(pow10(6) == 1_000_000) by {
                reveal_with_fuel(pow10, 7);
            }
            assert((fr as int) * (scale as int) < 1_000_000);
        }
        fr = fr * scale;
    }
    let mag: u64 = acc * 1_000_000 + fr;
    let ghost parsed = s_parse_mag(body);
    proof {
        assert(parsed == Some(mag as int));
    }
    if neg {
        if mag > 9_223_372_036_854_775_808u64 {
            return None;
        }
        Some((-(mag as i128)) as i64)
    } else {
        if mag > 9_223_372_036_854_775_807u64 {
            return None;
        }
        Some(mag as i64)
    }
}

fn pow10_u64(k: usize) -> (r: u64)
    requires
        k <= 6,
    ensures
        r as int == pow10(k as nat),
        r >= 1,
{
    proof {
        reveal_with_fuel(pow10, 7);
    }
    if k == 0 {
        1
    } else if k == 1 {
        10
    } else if k == 2 {
        100
    } else if k == 3 {
        1_000
    } else if k == 4 {
        10_000
    } else if k == 5 {
        100_000
    } else {
        1_000_000
    }
}

/// Reading back the canonical text of a value returns the value itself.
pub proof fn lemma_value_round_trip(v: i64)
    ensures
        s_parse_value(s_format_value(v as int)) == Some(v as int),
{
    let mag = vstd::math::abs(v as int);
    let q = mag / 1_000_000;
    let rem = mag % 1_000_000;
    lemma_fundamental_div_mod(mag as int, 1_000_000);
    assert(pow10(6) == 1_000_000 && pow10(13) == 10_000_000_000_000) by {
        reveal_with_fuel(pow10, 14);
    }
    lemma_digits_val(q as nat);
    lemma_digits_len(q as nat, 13);
    lemma_padded_val(rem as nat, 6);
    let ip = digits(q as nat);
    let fp = padded(rem as nat, 6);
    let body = ip + seq![46u8] + fp;
    let s = s_format_value(v as int);
    let dot = ip.len() as int;
    assert(body[dot] == 46);
    assert(forall|j: int| 0 <= j < dot ==> body[j] != 46);
    lemma_find_at(body, 46, 0, dot);
    assert(body.subrange(0, dot) =~= ip);
    assert(body.subrange(dot + 1, body.len() as int) =~= fp);
    assert(s_parse_mag(body) == Some(dig_val(ip) * 1_000_000 + dig_val(fp) * pow10(0)));
    assert(dig_val(ip) * 1_000_000 + dig_val(fp) * pow10(0) == q * 1_000_000 + rem);
    assert(q * 1_000_000 + rem == mag);
    if v < 0 {
        assert(s == seq![45u8] + body);
        assert(s[0] == 45);
        assert(s.subrange(1, s.len() as int) =~= body);
        assert(mag <= i64::MAX + 1);
        assert(s_parse_value(s) == Some(-mag));
    } else {
        assert(s == body);
        assert(48 <= s[0] <= 57);
        assert(mag <= i64::MAX);
        assert(s_parse_value(s) == Some(mag as int));
    }
}


/// The header line of a model file: `theta_0,theta_1` and a newline.
pub open spec fn model_header() -> Seq<u8> {
    seq![
        116u8,
        104u8,
        101u8,
        116u8,
        97u8,
        95u8,
        48u8,
        44u8,
        116u8,
        104u8,
        101u8,
        116u8,
        97u8,
        95u8,
        49u8,
        10u8,
    ]
}

/// The header line of an observation file: `km,price` and a newline.
pub open spec fn obs_header() -> Seq<u8> {
    seq![107u8, 109u8, 44u8, 112u8, 114u8, 105u8, 99u8, 101u8, 10u8]
}

/// The canonical text of a model file: the header, then the two
/// coefficients on one comma-separated line.
pub open spec fn s_encode_model(p: TrainedPredictor) -> Seq<u8> {
    model_header() + s_format_value(p.theta_0 as int) + seq![44u8] + s_format_value(
        p.theta_1 as int,
    ) + seq![10u8]
}

/// The model a file denotes: the exact header, then exactly one
/// comma-separated record line ending the file with a newline.
pub open spec fn s_parse_model(s: Seq<u8>) -> Option<TrainedPredictor> {
    if s.len() <= 16 || s.subrange(0, 16) != model_header() {
        None
    } else {
        let c = find_from(s, 44, 16);
        if c >= s.len() {
            None
        } else {
            let nl = find_from(s, 10, c + 1);
            if nl != s.len() - 1 {
                None
            } else {
                match s_parse_value(s.subrange(16, c)) {
                    Some(a) => match s_parse_value(s.subrange(c + 1, nl)) {
                        Some(b) => Some(
                            TrainedPredictor { theta_0: a as i64, theta_1: b as i64 },
                        ),
                        None => None,
                    },
                    None => None,
                }
            }
        }
    }
}

/// The observation one row denotes: exactly two comma-separated decimal
/// fields, or nothing.
pub open spec fn s_row(line: Seq<u8>) -> Option<Entry> {
    let c = find_from(line, 44, 0);
    if c >= line.len() {
        None
    } else if find_from(line, 44, c + 1) != line.len() {
        None
    } else {
        match s_parse_value(line.subrange(0, c)) {
            Some(a) => match s_parse_value(line.subrange(c + 1, line.len() as int)) {
                Some(b) => Some(Entry { km: a as i64, price: b as i64 }),
                None => None,
            },
            None => None,
        }
    }
}

/// `find_from` stays between its start and the length.
pub proof fn lemma_find_range(s: Seq<u8>, b: u8, i: int)
    requires
        0 <= i <= s.len(),
    ensures
        i <= find_from(s, b, i) <= s.len(),
    decreases s.len() - i,
{
    if i < s.len() && s[i] != b {
        lemma_find_range(s, b, i + 1);
    }
}

/// The observations the rows at and after position `i` denote; rows that
/// denote nothing are dropped silently.
pub open spec fn s_rows_from(s: Seq<u8>, i: int) -> Seq<Entry>
    decreases s.len() - i,
        when 0 <= i <= s.len() via s_rows_from_dec
{
    if i >= s.len() {
        seq![]
    } else {
        let nl = find_from(s, 10, i);
        let line = s.subrange(i, nl);
        let tail = if nl >= s.len() {
            seq![]
        } else {
            s_rows_from(s, nl + 1)
        };
        match s_row(line) {
            Some(e) => seq![e] + tail,
            None => tail,
        }
    }
}

#[via_fn]
proof fn s_rows_from_dec(s: Seq<u8>, i: int) {
    if 0 <= i < s.len() {
        lemma_find_range(s, 10, i);
    }
}

/// The observations a file denotes: nothing without the exact header,
/// else the rows after it, the unparsable ones dropped.
pub open spec fn s_parse_observations(s: Seq<u8>) -> Seq<Entry> {
    if s.len() < 9 || s.subrange(0, 9) != obs_header() {
        seq![]
    } else {
        s_rows_from(s, 9)
    }
}

/// Canonical value text holds only sign, dot and digit bytes.
pub proof fn lemma_format_bytes(v: int)
    requires
        i64::MIN <= v <= i64::MAX,
    ensures
        forall|i: int|
            0 <= i < s_format_value(v).len() ==> (#[trigger] s_format_value(v)[i] == 45
                || s_format_value(v)[i] == 46 || (48 <= s_format_value(v)[i] <= 57)),
{
    let mag = vstd::math::abs(v);
    assert(pow10(6) == 1_000_000) by {
        reveal_with_fuel(pow10, 7);
    }
    lemma_fundamental_div_mod(mag as int, 1_000_000);
    lemma_digits_val((mag / 1_000_000) as nat);
    lemma_padded_val((mag % 1_000_000) as nat, 6);
    let ip = digits((mag / 1_000_000) as nat);
    let fp = padded((mag % 1_000_000) as nat, 6);
    let body = ip + seq![46u8] + fp;
    assert forall|i: int|
        0 <= i < s_format_value(v).len() implies (#[trigger] s_format_value(v)[i] == 45
        || s_format_value(v)[i] == 46 || (48 <= s_format_value(v)[i] <= 57)) by {
        let s = s_format_value(v);
        let off: int = if v < 0 {
            1
        } else {
            0
        };
        if v < 0 && i == 0 {
        } else {
            let j = i - off;
            assert(s[i] == body[j]);
            if j < ip.len() {
                assert(body[j] == ip[j]);
            } else if j == ip.len() {
                assert(body[j] == 46);
            } else {
                assert(body[j] == fp[j - ip.len() - 1]);
            }
        }
    }
}

fn model_header_vec() -> (r: Vec<u8>)
    ensures
        r@ == model_header(),
{
    let mut out: Vec<u8> = Vec::new();
    out.push(116);
    out.push(104);
    out.push(101);
    out.push(116);
    out.push(97);
    out.push(95);
    out.push(48);
    out.push(44);
    out.push(116);
    out.push(104);
    out.push(101);
    out.push(116);
    out.push(97);
    out.push(95);
    out.push(49);
    out.push(10);
    proof {
        assert(out@ =~= model_header());
    }
    out
}

fn obs_header_vec() -> (r: Vec<u8>)
    ensures
        r@ == obs_header(),
{
    let mut out: Vec<u8> = Vec::new();
    out.push(107);
    out.push(109);
    out.push(44);
    out.push(112);
    out.push(114);
    out.push(105);
    out.push(99);
    out.push(101);
    out.push(10);
    proof {
        assert(out@ =~= obs_header());
    }
    out
}

fn copy_range(s: &Vec<u8>, a: usize, b: usize) -> (r: Vec<u8>)
    requires
        a <= b <= s@.len(),
    ensures
        r@ == s@.subrange(a as int, b as int),
{
    let mut out: Vec<u8> = Vec::new();
    let mut k = a;
    while k < b
        invariant
            a <= k <= b <= s@.len(),
            out@.len() == k - a,
            forall|t: int| 0 <= t < out@.len() ==> #[trigger] out@[t] == s@[a + t],
        decreases b - k,
    {
        out.push(s[k]);
        k += 1;
    }
    proof {
        assert(out@ =~= s@.subrange(a as int, b as int));
    }
    out
}

/// Writes a fitted model as its canonical file text.
pub fn encode_model(p: &TrainedPredictor) -> (r: Vec<u8>)
    ensures
        r@ == s_encode_model(*p),
{
    let mut out = model_header_vec();
    let mut f0 = format_value(p.theta_0);
    out.append(&mut f0);
    out.push(44);
    let mut f1 = format_value(p.theta_1);
    out.append(&mut f1);
    out.push(10);
    proof {
        assert(out@ =~= s_encode_model(*p));
    }
    out
}

/// Reads a fitted model back from its file text.
pub fn parse_model(text: &Vec<u8>) -> (r: Option<TrainedPredictor>)
    ensures
        s_parse_model(text@) == r,
{
    let n = text.len();
    let ghost tv = text@;
    if n <= 16 {
        return None;
    }
    let h = model_header_vec();
    let mut k: usize = 0;
    while k < 16
        invariant
            k <= 16,
            n == tv.len(),
            tv == text@,
            n > 16,
            h@ == model_header(),
            forall|t: int| 0 <= t < k ==> #[trigger] tv[t] == model_header()[t],
        decreases 16 - k,
    {
        if text[k] != h[k] {
            proof {
                assert(tv.subrange(0, 16)[k as int] != model_header()[k as int]);
            }
            return None;
        }
        k += 1;
    }
    proof {
        assert(tv.subrange(0, 16) =~= model_header());
    }
    let mut c: usize = 16;
    while c < n && text[c] != 44
        invariant
            16 <= c <= n,
            n == tv.len(),
            tv == text@,
            forall|t: int| 16 <= t < c ==> #[trigger] tv[t] != 44,
        decreases n - c,
    {
        c += 1;
    }
    proof {
        if c < n {
            lemma_find_at(tv, 44, 16, c as int);
        } else {
            lemma_find_none(tv, 44, 16);
        }
    }
    if c >= n {
        return None;
    }
    let mut nl: usize = c + 1;
    while nl < n && text[nl] != 10
        invariant
            c + 1 <= nl <= n,
            c < n,
            n == tv.len(),
            tv == text@,
            forall|t: int| c + 1 <= t < nl ==> #[trigger] tv[t] != 10,
        decreases n - nl,
    {
        nl += 1;
    }
    proof {
        if nl < n {
            lemma_find_at(tv, 10, c as int + 1, nl as int);
        } else {
            lemma_find_none(tv, 10, c as int + 1);
        }
    }
    if nl != n - 1 {
        return None;
    }
    let f0 = copy_range(text, 16, c);
    let f1 = copy_range(text, c + 1, nl);
    match parse_value(&f0) {
        Some(a) => match parse_value(&f1) {
            Some(b) => Some(TrainedPredictor { theta_0: a, theta_1: b }),
            None => None,
        },
        None => None,
    }
}

/// Reads the observations a file holds; rows that do not parse are
/// dropped silently, and a file without the `km,price` header holds no
/// observations.
pub fn parse_observations(text: &Vec<u8>) -> (r: Vec<Entry>)
    ensures
        r@ == s_parse_observations(text@),
{
    let n = text.len();
    let ghost tv = text@;
    let mut out: Vec<Entry> = Vec::new();
    if n < 9 {
        return out;
    }
    let h = obs_header_vec();
    let mut k: usize = 0;
    while k < 9
        invariant
            k <= 9,
            n == tv.len(),
            tv == text@,
            n >= 9,
            h@ == obs_header(),
            out@.len() == 0,
            forall|t: int| 0 <= t < k ==> #[trigger] tv[t] == obs_header()[t],
        decreases 9 - k,
    {
        if text[k] != h[k] {
            proof {
                assert(tv.subrange(0, 9)[k as int] != obs_header()[k as int]);
            }
            return out;
        }
        k += 1;
    }
    proof {
        assert(tv.subrange(0, 9) =~= obs_header());
    }
    let mut pos: usize = 9;
    while pos < n
        invariant
            9 <= pos <= n,
            n == tv.len(),
            tv == text@,
            s_parse_observations(tv) == out@ + s_rows_from(tv, pos as int),
        decreases n - pos,
    {
        let ghost out0 = out@;
        let mut nl: usize = pos;
        while nl < n && text[nl] != 10
            invariant
                pos <= nl <= n,
                n == tv.len(),
                tv == text@,
                forall|t: int| pos <= t < nl ==> #[trigger] tv[t] != 10,
            decreases n - nl,
        {
            nl += 1;
        }
        proof {
            if nl < n {
                lemma_find_at(tv, 10, pos as int, nl as int);
            } else {
                lemma_find_none(tv, 10, pos as int);
            }
        }
        let ghost line = tv.subrange(pos as int, nl as int);
        proof {
            assert(forall|t: int| 0 <= t < line.len() ==> #[trigger] line[t] == tv[pos + t]);
        }
        let mut c: usize = pos;
        while c < nl && text[c] != 44
            invariant
                pos <= c <= nl <= n,
                n == tv.len(),
                tv == text@,
                forall|t: int| pos <= t < c ==> #[trigger] tv[t] != 44,
            decreases nl - c,
        {
            c += 1;
        }
        proof {
            if c < nl {
                lemma_find_at(line, 44, 0, c - pos);
            } else {
                lemma_find_none(line, 44, 0);
            }
        }
        let mut entry_opt: Option<Entry> = None;
        if c < nl {
            let mut c2: usize = c + 1;
            while c2 < nl && text[c2] != 44
                invariant
                    c + 1 <= c2 <= nl <= n,
                    n == tv.len(),
                    tv == text@,
                    forall|t: int| c + 1 <= t < c2 ==> #[trigger] tv[t] != 44,
                decreases nl - c2,
            {
                c2 += 1;
            }
            proof {
                if c2 < nl {
                    lemma_find_at(line, 44, c - pos + 1, c2 - pos);
                } else {
                    lemma_find_none(line, 44, c - pos + 1);
                }
            }
            if c2 == nl {
                let f0 = copy_range(text, pos, c);
                let f1 = copy_range(text, c + 1, nl);
                proof {
                    assert(f0@ =~= line.subrange(0, c - pos));
                    assert(f1@ =~= line.subrange(c - pos + 1, line.len() as int));
                }
                match parse_value(&f0) {
                    Some(a) => match parse_value(&f1) {
                        Some(b) => {
                            entry_opt = Some(Entry { km: a, price: b });
                        },
                        None => {},
                    },
                    None => {},
                }
            }
        }
        proof {
            match entry_opt {
                Some(e) => {
                    assert(s_row(line) == Some(e));
                },
                None => {
                    assert(s_row(line) is None);
                },
            }
        }
        match entry_opt {
            Some(e) => {
                out.push(e);
            },
            None => {},
        }
        let next: usize = if nl >= n {
            n
        } else {
            nl + 1
        };
        proof {
            let tail = if nl >= n {
                seq![]
            } else {
                s_rows_from(tv, nl as int + 1)
            };
            assert(s_rows_from(tv, pos as int) == (match s_row(line) {
                Some(e) => seq![e] + tail,
                None => tail,
            }));
            assert(s_rows_from(tv, next as int) == tail);
            assert(out0 + s_rows_from(tv, pos as int) =~= out@ + s_rows_from(tv, next as int));
        }
        pos = next;
    }
    proof {
        assert(out@ + s_rows_from(tv, pos as int) =~= out@);
    }
    out
}

/// Reading a model file back returns exactly the model that was written.
pub proof fn lemma_model_round_trip(p: TrainedPredictor)
    ensures
        s_parse_model(s_encode_model(p)) == Some(p),
{
    let f0 = s_format_value(p.theta_0 as int);
    let f1 = s_format_value(p.theta_1 as int);
    let enc = s_encode_model(p);
    lemma_format_bytes(p.theta_0 as int);
    lemma_format_bytes(p.theta_1 as int);
    lemma_value_round_trip(p.theta_0);
    lemma_value_round_trip(p.theta_1);
    assert(enc.len() == 16 + f0.len() + 1 + f1.len() + 1);
    assert(f0.len() >= 1) by {
        lemma_digits_val((vstd::math::abs(p.theta_0 as int) / 1_000_000) as nat);
    }
    assert(enc.subrange(0, 16) =~= model_header());
    let c = 16 + f0.len() as int;
    assert(enc[c] == 44);
    assert(forall|j: int| 16 <= j < c ==> #[trigger] enc[j] == f0[j - 16]);
    lemma_find_at(enc, 44, 16, c);
    let nl = enc.len() as int - 1;
    assert(enc[nl] == 10);
    assert(forall|j: int| c + 1 <= j < nl ==> #[trigger] enc[j] == f1[j - c - 1]);
    lemma_find_at(enc, 10, c + 1, nl);
    assert(enc.subrange(16, c) =~= f0);
    assert(enc.subrange(c + 1, nl) =~= f1);
    assert(s_parse_value(f0) == Some(p.theta_0 as int));
    assert(s_parse_value(f1) == Some(p.theta_1 as int));
}

} // verus!\n