//! Bit-exact codecs for the scalar NeTEx fields: minute-of-day times,
//! packed `YYMMDD` dates, and bit-packed day flags.

use vstd::prelude::*;

verus! {

use vstd::slice::slice_subrange;

/// The byte is an ASCII decimal digit.
pub open spec fn is_ascii_digit(b: u8) -> bool {
    48 <= b <= 57
}

/// Numeric value of an ASCII digit byte.
pub open spec fn digit_val(b: u8) -> int {
    b - 48
}

/// A time string `"HH:MM"` or `"HH:MM:SS"` has digits where the codec reads them.
pub open spec fn time_digits_ok(s: Seq<u8>) -> bool {
    &&& s.len() >= 5
    &&& is_ascii_digit(s[0])
    &&& is_ascii_digit(s[1])
    &&& is_ascii_digit(s[3])
    &&& is_ascii_digit(s[4])
}

/// Minute of day encoded by `"HH:MM..."`: bytes 0, 1, 3, 4 weighted
/// 600, 60, 10, 1; anything past byte 4 (the seconds) is ignored.
pub open spec fn minutes_value(s: Seq<u8>) -> int {
    digit_val(s[0]) * 600 + digit_val(s[1]) * 60 + digit_val(s[3]) * 10 + digit_val(s[4])
}

/// Parses `"HH:MM"` or `"HH:MM:SS"` (as bytes) into the minute of day.
pub fn parse_minutes(value: &[u8]) -> (r: u16)
    requires
        time_digits_ok(value@),
    ensures
        r == minutes_value(value@),
{
    let mut result: u16 = 0;
    result += (value[0] as u16 - 48) * 600;
    result += (value[1] as u16 - 48) * 60;
    result += (value[3] as u16 - 48) * 10;
    result += value[4] as u16 - 48;
    result
}

/// A date string `"YYYY-MM-DDT..."` has digits where the codec reads them.
pub open spec fn date_digits_ok(s: Seq<u8>) -> bool {
    &&& s.len() >= 10
    &&& is_ascii_digit(s[2])
    &&& is_ascii_digit(s[3])
    &&& is_ascii_digit(s[5])
    &&& is_ascii_digit(s[6])
    &&& is_ascii_digit(s[8])
    &&& is_ascii_digit(s[9])
}

/// Packed decimal `YYMMDD` read from bytes 2, 3, 5, 6, 8, 9 of
/// `"YYYY-MM-DDT..."`; the century and everything after the day are ignored.
pub open spec fn date_value(s: Seq<u8>) -> int {
    digit_val(s[2]) * 100000 + digit_val(s[3]) * 10000 + digit_val(s[5]) * 1000 + digit_val(s[6])
        * 100 + digit_val(s[8]) * 10 + digit_val(s[9])
}

/// Parses `"YYYY-MM-DDTHH:MM:SS"` (as bytes) into packed decimal `YYMMDD`.
pub fn parse_date(value: &[u8]) -> (r: u32)
    requires
        date_digits_ok(value@),
    ensures
        r == date_value(value@),
{
    let mut result: u32 = 0;
    result += (value[2] as u32 - 48) * 100000;
    result += (value[3] as u32 - 48) * 10000;
    result += (value[5] as u32 - 48) * 1000;
    result += (value[6] as u32 - 48) * 100;
    result += (value[8] as u32 - 48) * 10;
    result += value[9] as u32 - 48;
    result
}

/// The byte is ASCII `'0'` or `'1'`.
pub open spec fn is_ascii_bit(b: u8) -> bool {
    b == 48 || b == 49
}

/// Every byte of the string is ASCII `'0'` or `'1'`.
pub open spec fn all_ascii_bits(s: Seq<u8>) -> bool {
    forall|i: int| 0 <= i < s.len() ==> is_ascii_bit(#[trigger] s[i])
}

/// Value of one 8-character group, least-significant bit first:
/// character `i` contributes `2^i` when it is `'1'`.
pub open spec fn day_bit_group_value(s: Seq<u8>) -> int {
    digit_val(s[0]) + digit_val(s[1]) * 2 + digit_val(s[2]) * 4 + digit_val(s[3]) * 8 + digit_val(
        s[4],
    ) * 16 + digit_val(s[5]) * 32 + digit_val(s[6]) * 64 + digit_val(s[7]) * 128
}

/// Packs the first 8 bytes of an ASCII `'0'`/`'1'` group into one byte,
/// least-significant bit first.
pub fn parse_day_bit_group(value: &[u8]) -> (r: u8)
    requires
        value@.len() >= 8,
        all_ascii_bits(value@.subrange(0, 8)),
    ensures
        r == day_bit_group_value(value@.subrange(0, 8)),
{
    proof {
        assert forall|i: int| 0 <= i < 8 implies is_ascii_bit(value@[i]) by {
            assert(value@.subrange(0, 8)[i] == value@[i]);
        }
    }
    let mut result: u8 = 0;
    result += value[0] - 48;
    result += (value[1] - 48) * 2;
    result += (value[2] - 48) * 4;
    result += (value[3] - 48) * 8;
    result += (value[4] - 48) * 16;
    result += (value[5] - 48) * 32;
    result += (value[6] - 48) * 64;
    result += (value[7] - 48) * 128;
    result
}

/// The number of `'0'` characters appended so the length becomes a multiple of 8.
pub open spec fn day_bits_pad_len(n: int) -> int {
    if n % 8 == 0 {
        0
    } else {
        8 - n % 8
    }
}

/// The input right-padded with ASCII `'0'` to a multiple of 8 characters.
pub open spec fn day_bits_padded(s: Seq<u8>) -> Seq<u8> {
    s + Seq::new(day_bits_pad_len(s.len() as int) as nat, |i: int| 48u8)
}

/// What the day-bit codec yields: one byte per 8-character group of the
/// padded input, least-significant bit first within each group.
pub open spec fn day_bits_value(s: Seq<u8>) -> Seq<u8> {
    let p = day_bits_padded(s);
    Seq::new((p.len() / 8) as nat, |k: int| day_bit_group_value(p.subrange(8 * k, 8 * k + 8)) as u8)
}

/// Parses an ASCII `'0'`/`'1'` string into packed day-flag bytes: the input is
/// right-padded with `'0'` to a multiple of 8 and each group of 8 becomes one
/// byte, least-significant bit first.
pub fn parse_day_bits(value: &[u8]) -> (r: Vec<u8>)
    requires
        all_ascii_bits(value@),
        value@.len() + 8 <= usize::MAX,
    ensures
        r@ == day_bits_value(value@),
{
    let mut padded: Vec<u8> = Vec::new();
    let mut i: usize = 0;
    while i < value.len()
        invariant
            0 <= i <= value@.len(),
            value@.len() + 8 <= usize::MAX,
            padded@ == value@.subrange(0, i as int),
            all_ascii_bits(value@),
        decreases value@.len() - i,
    {
        padded.push(value[i]);
        i += 1;
        proof {
            assert(padded@ =~= value@.subrange(0, i as int));
        }
    }
    proof {
        assert(padded@ =~= value@);
    }
    let pad_len: usize = if value.len() % 8 == 0 {
        0
    } else {
        8 - value.len() % 8
    };
    let mut j: usize = 0;
    while j < pad_len
        invariant
            0 <= j <= pad_len,
            pad_len == day_bits_pad_len(value@.len() as int),
            padded@ == value@ + Seq::new(j as nat, |i: int| 48u8),
        decreases pad_len - j,
    {
        padded.push(48u8);
        j += 1;
        proof {
            assert(padded@ =~= value@ + Seq::new(j as nat, |i: int| 48u8));
        }
    }
    proof {
        assert(padded@ =~= day_bits_padded(value@));
        assert(padded@.len() % 8 == 0);
    }
    let mut result: Vec<u8> = Vec::new();
    let plen: usize = padded.len();
    let groups: usize = plen / 8;
    let mut k: usize = 0;
    while k < groups
        invariant
            0 <= k <= groups,
            plen == padded@.len(),
            groups == padded@.len() / 8,
            padded@.len() % 8 == 0,
            padded@ == day_bits_padded(value@),
            all_ascii_bits(padded@),
            result@.len() == k,
            forall|m: int|
                0 <= m < k ==> result@[m] == day_bit_group_value(
                    #[trigger] padded@.subrange(8 * m, 8 * m + 8),
                ) as u8,
        decreases groups - k,
    {
        proof {
            assert(8 * (k as int) + 8 <= 8 * (groups as int));
            assert(8 * (plen as int / 8) <= plen as int);
        }
        let offset: usize = 8 * k;
        proof {
            assert(offset + 8 <= padded@.len());
            assert forall|i: int|
                0 <= i < 8 implies is_ascii_bit(
                #[trigger] padded@.subrange(offset as int, padded@.len() as int).subrange(0, 8)[i],
            ) by {
                assert(padded@.subrange(offset as int, padded@.len() as int).subrange(0, 8)[i]
                    == padded@[offset + i]);
            }
        }
        let group = parse_day_bit_group(slice_subrange(padded.as_slice(), offset, padded.len()));
        proof {
            assert(padded@.subrange(offset as int, padded@.len() as int).subrange(0, 8)
                =~= padded@.subrange(8 * k, 8 * k + 8));
        }
        result.push(group);
        k += 1;
    }
    proof {
        assert(result@ =~= day_bits_value(value@));
    }
    result
}

/// Value of an ASCII digit string read as a decimal number, most significant
/// digit first.
pub open spec fn digits_value(s: Seq<u8>) -> int
    decreases s.len(),
{
    if s.len() == 0 {
        0
    } else {
        digits_value(s.drop_last()) * 10 + digit_val(s.last())
    }
}

/// Ten to the `n`th power.
pub open spec fn pow10(n: int) -> int
    decreases n,
{
    if n <= 0 {
        1
    } else {
        10 * pow10(n - 1)
    }
}

/// Index of the first ASCII `'.'`, or the length when there is none.
pub open spec fn dot_pos(s: Seq<u8>) -> int
    decreases s.len(),
{
    if s.len() == 0 {
        0
    } else if s[0] == 46 {
        0
    } else {
        1 + dot_pos(s.drop_first())
    }
}

/// The string without a leading `'+'` or `'-'`.
pub open spec fn strip_sign(s: Seq<u8>) -> Seq<u8> {
    if s.len() > 0 && (s[0] == 43 || s[0] == 45) {
        s.drop_first()
    } else {
        s
    }
}

/// The string denotes a negative number.
pub open spec fn is_negative_decimal(s: Seq<u8>) -> bool {
    s.len() > 0 && s[0] == 45
}

/// A plain decimal number: an optional sign, then digits with at most one
/// `'.'` among them and at least one digit. No exponents and no other text.
pub open spec fn valid_decimal(s: Seq<u8>) -> bool {
    let b = strip_sign(s);
    let d = dot_pos(b);
    &&& forall|i: int| 0 <= i < b.len() && i != d ==> is_ascii_digit(#[trigger] b[i])
    &&& forall|i: int| d < i < b.len() ==> #[trigger] b[i] != 46
    &&& b.len() >= 1
    &&& (d > 0 || d + 1 < b.len())
}

/// The fraction digits scaled to millionths: the first six places count,
/// shorter fractions are padded with zeros, further places are dropped.
pub open spec fn frac_micro(f: Seq<u8>) -> int {
    if f.len() >= 6 {
        digits_value(f.take(6))
    } else {
        digits_value(f) * pow10(6 - f.len())
    }
}

/// The number the decimal string denotes, in millionths (micro-units).
pub open spec fn decimal_micro_value(s: Seq<u8>) -> int {
    let b = strip_sign(s);
    let d = dot_pos(b);
    let ip = digits_value(b.take(d));
    let fp = frac_micro(b.skip(if d < b.len() {
        d + 1
    } else {
        d
    }));
    let mag = ip * 1000000 + fp;
    if is_negative_decimal(s) {
        -mag
    } else {
        mag
    }
}

/// `v` forced into `[-limit, limit]`.
pub open spec fn clamp_value(v: int, limit: int) -> int {
    if v < -limit {
        -limit
    } else if v > limit {
        limit
    } else {
        v
    }
}

/// Helper: a scan that saw no dot and no non-digit up to `k` pins `dot_pos`.
proof fn lemma_dot_pos_at(b: Seq<u8>, k: int)
    requires
        0 <= k <= b.len(),
        forall|i: int| 0 <= i < k ==> #[trigger] b[i] != 46,
        k == b.len() || b[k] == 46,
    ensures
        dot_pos(b) == k,
    decreases k,
{
    if b.len() == 0 {
    } else if k == 0 {
    } else {
        lemma_dot_pos_at(b.drop_first(), k - 1);
    }
}

/// Helper: appending a digit multiplies the prefix value by ten.
proof fn lemma_digits_push(s: Seq<u8>, b: u8)
    ensures
        digits_value(s.push(b)) == digits_value(s) * 10 + digit_val(b),
{
    assert(s.push(b).drop_last() =~= s);
    assert(s.push(b).last() == b);
}

/// Digit strings denote non-negative numbers.
proof fn lemma_digits_nonneg(s: Seq<u8>)
    requires
        forall|i: int| 0 <= i < s.len() ==> is_ascii_digit(#[trigger] s[i]),
    ensures
        digits_value(s) >= 0,
    decreases s.len(),
{
    if s.len() > 0 {
        assert(forall|i: int|
            0 <= i < s.drop_last().len() ==> is_ascii_digit(#[trigger] s.drop_last()[i]));
        lemma_digits_nonneg(s.drop_last());
    }
}

/// The saturation threshold for whole-unit digits: far above every clamp
/// limit the coordinate parser is used with, once scaled to millionths.
pub open spec fn whole_sat() -> int {
    1000000000
}

/// Powers of ten are positive.
proof fn lemma_pow10_pos(n: int)
    ensures
        pow10(n) >= 1,
    decreases n,
{
    if n > 0 {
        lemma_pow10_pos(n - 1);
    }
}

/// Powers of ten grow with the exponent.
proof fn lemma_pow10_mono(a: int, b: int)
    requires
        a <= b,
    ensures
        pow10(a) <= pow10(b),
    decreases b - a,
{
    if a < b {
        lemma_pow10_mono(a, b - 1);
        lemma_pow10_pos(b - 1);
    }
}

/// Small powers of ten, spelled out.
proof fn lemma_pow10_bounds()
    ensures
        pow10(0) == 1,
        pow10(1) == 10,
        pow10(2) == 100,
        pow10(3) == 1000,
        pow10(4) == 10000,
        pow10(5) == 100000,
        pow10(6) == 1000000,
{
    assert(pow10(0) == 1);
    assert(pow10(1) == 10);
    assert(pow10(2) == 100);
    assert(pow10(3) == 1000);
    assert(pow10(4) == 10000);
    assert(pow10(5) == 100000);
    assert(pow10(6) == 1000000);
}

/// Digit strings are bounded by the power of ten of their length.
proof fn lemma_digits_upper(s: Seq<u8>)
    requires
        forall|i: int| 0 <= i < s.len() ==> is_ascii_digit(#[trigger] s[i]),
    ensures
        digits_value(s) < pow10(s.len() as int),
    decreases s.len(),
{
    if s.len() > 0 {
        assert(forall|i: int|
            0 <= i < s.drop_last().len() ==> is_ascii_digit(#[trigger] s.drop_last()[i]));
        lemma_digits_upper(s.drop_last());
    }
}

/// Helper: the dot index is inside the string when a dot occurs in it.
proof fn lemma_dot_pos_in_range(b: Seq<u8>)
    ensures
        0 <= dot_pos(b) <= b.len(),
        dot_pos(b) < b.len() ==> b[dot_pos(b)] == 46,
    decreases b.len(),
{
    if b.len() > 0 && b[0] != 46 {
        lemma_dot_pos_in_range(b.drop_first());
    }
}

/// Helper: the scan of at most six fraction digits yields `frac_micro`.
proof fn lemma_frac_value(s: Seq<u8>, fstart: int, n: int, fcount: int)
    requires
        0 <= fstart <= n <= s.len(),
        fcount == if n - fstart <= 6 {
            n - fstart
        } else {
            6
        },
    ensures
        digits_value(s.subrange(fstart, fstart + fcount)) * pow10(6 - fcount) == frac_micro(
            s.subrange(fstart, n),
        ),
{
    let f = s.subrange(fstart, n);
    if f.len() >= 6 {
        assert(fcount == 6);
        assert(f.take(6) =~= s.subrange(fstart, fstart + 6));
        assert(pow10(0) == 1);
    } else {
        assert(f =~= s.subrange(fstart, fstart + fcount));
    }
}

/// The fraction value scaled to millionths is non-negative and below one.
proof fn lemma_frac_micro_bounds(f: Seq<u8>)
    requires
        forall|i: int| 0 <= i < f.len() ==> is_ascii_digit(#[trigger] f[i]),
    ensures
        0 <= frac_micro(f) < 1000000,
{
    lemma_pow10_bounds();
    if f.len() >= 6 {
        assert(forall|i: int| 0 <= i < f.take(6).len() ==> is_ascii_digit(#[trigger] f.take(6)[i]));
        lemma_digits_nonneg(f.take(6));
        lemma_digits_upper(f.take(6));
    } else {
        lemma_digits_nonneg(f);
        lemma_digits_upper(f);
        lemma_pow10_pos(6 - f.len());
        lemma_pow10_mono(f.len() as int, 6);
        assert(digits_value(f) * pow10(6 - f.len()) < pow10(f.len() as int) * pow10(
            6 - f.len(),
        )) by (nonlinear_arith)
            requires
                digits_value(f) < pow10(f.len() as int),
                pow10(6 - f.len()) >= 1,
        ;
        assert(pow10(f.len() as int) * pow10(6 - f.len()) == pow10(6)) by {
            lemma_pow10_mul(f.len() as int, 6 - f.len());
        }
        assert(digits_value(f) * pow10(6 - f.len()) >= 0) by (nonlinear_arith)
            requires
                digits_value(f) >= 0,
                pow10(6 - f.len()) >= 1,
        ;
    }
}

/// Powers of ten multiply by adding exponents.
proof fn lemma_pow10_mul(a: int, b: int)
    requires
        a >= 0,
        b >= 0,
    ensures
        pow10(a) * pow10(b) == pow10(a + b),
    decreases b,
{
    if b > 0 {
        lemma_pow10_mul(a, b - 1);
        assert(pow10(a + b) == 10 * pow10(a + b - 1));
        assert(pow10(b) == 10 * pow10(b - 1));
        assert(pow10(a) * (10 * pow10(b - 1)) == 10 * (pow10(a) * pow10(b - 1)))
            by (nonlinear_arith);
    } else {
        assert(pow10(0) == 1);
    }
}

/// A power of ten up to one million, as a machine word.
fn pow10_small(n: usize) -> (r: u64)
    requires
        n <= 6,
    ensures
        r == pow10(n as int),
{
    proof {
        lemma_pow10_bounds();
    }
    if n == 0 {
        1
    } else if n == 1 {
        10
    } else if n == 2 {
        100
    } else if n == 3 {
        1000
    } else if n == 4 {
        10000
    } else if n == 5 {
        100000
    } else {
        1000000
    }
}

/// Parses a plain decimal string into millionths, clamped to `[-limit, limit]`.
/// Rejects (with `None`) anything but an optional sign and digits with at
/// most one decimal point: exponent notation and non-finite spellings are
/// not plain decimals and are rejected, so a document carrying such a
/// coordinate fails. Fraction digits past the sixth are dropped and values
/// of large magnitude saturate at the clamp limit.
pub fn parse_decimal_micro(s: &[u8], limit: i64) -> (r: Option<i64>)
    requires
        0 < limit <= 1000000000000000,
    ensures
        r is Some <==> valid_decimal(s@),
        valid_decimal(s@) ==> r == Some(clamp_value(decimal_micro_value(s@), limit as int) as i64),
{
    let ghost gs = s@;
    let n: usize = s.len();
    if n == 0 {
        return None;
    }
    let neg: bool = s[0] == 45;
    let start: usize = if s[0] == 43 || s[0] == 45 {
        1
    } else {
        0
    };
    let ghost b = strip_sign(gs);
    proof {
        assert(b =~= gs.subrange(start as int, n as int));
    }
    // whole part: digits until '.' or end
    let mut i: usize = start;
    let mut whole: u64 = 0;
    while i < n && s[i] != 46 && 48 <= s[i] && s[i] <= 57
        invariant
            start <= i <= n,
            n == gs.len(),
            s@ == gs,
            b == strip_sign(gs),
            b =~= gs.subrange(start as int, n as int),
            forall|j: int| start <= j < i ==> is_ascii_digit(#[trigger] gs[j]) && gs[j] != 46,
            whole <= whole_sat(),
            ({
                let exact = digits_value(gs.subrange(start as int, i as int));
                if exact < whole_sat() {
                    whole == exact
                } else {
                    whole == whole_sat()
                }
            }),
        decreases n - i,
    {
        let d: u64 = (s[i] - 48) as u64;
        proof {
            let p = gs.subrange(start as int, i as int);
            let q = gs.subrange(start as int, i as int + 1);
            assert(q =~= p.push(gs[i as int]));
            lemma_digits_push(p, gs[i as int]);
            lemma_digits_nonneg(p);
        }
        let next: u64 = whole * 10 + d;
        if next >= 1000000000 {
            whole = 1000000000;
        } else {
            whole = next;
        }
        i += 1;
    }
    // here i sits at the dot, at the end, or at a byte that no decimal holds
    if i < n && !(s[i] == 46) {
        proof {
            if valid_decimal(gs) {
                let d = dot_pos(b);
                lemma_dot_pos_in_range(b);
                if i - start != d {
                    assert(b[i - start] == gs[i as int]);
                    assert(is_ascii_digit(b[i - start]));
                } else {
                    assert(d < b.len());
                    assert(b[d] == 46);
                }
            }
        }
        return None;
    }
    proof {
        lemma_dot_pos_at(b, i - start);
    }
    let has_dot: bool = i < n;
    let fstart_x: usize = if has_dot {
        i + 1
    } else {
        i
    };
    let ghost fstart = fstart_x as int;
    let mut frac: u64 = 0;
    let mut fcount: usize = 0;
    let mut j: usize = fstart_x;
    while j < n
        invariant
            fstart_x <= j <= n,
            fstart == fstart_x as int,
            n == gs.len(),
            s@ == gs,
            b == strip_sign(gs),
            b =~= gs.subrange(start as int, n as int),
            start <= i <= n,
            i < fstart_x ==> fstart_x == i + 1 && i < n,
            i >= fstart_x ==> fstart_x == i && i == n,
            dot_pos(b) == i - start,
            forall|m: int| fstart <= m < j ==> is_ascii_digit(#[trigger] gs[m]),
            fcount == if j - fstart_x <= 6 {
                j - fstart_x
            } else {
                6
            },
            frac == digits_value(gs.subrange(fstart, fstart + fcount as int)),
            frac < pow10(fcount as int),
            fcount <= 6,
        decreases n - j,
    {
        if s[j] == 46 || s[j] < 48 || s[j] > 57 {
            proof {
                if valid_decimal(gs) {
                    let d = dot_pos(b);
                    // j lies beyond the dot, so a valid decimal has a digit there
                    assert(b[j - start] == gs[j as int]);
                    assert(j - start > d);
                    assert(is_ascii_digit(b[j - start]));
                    assert(b[j - start] != 46);
                }
            }
            return None;
        }
        if fcount < 6 {
            proof {
                let p = gs.subrange(fstart, fstart + fcount as int);
                let q = gs.subrange(fstart, fstart + (fcount + 1) as int);
                assert(q =~= p.push(gs[fstart + fcount]));
                lemma_digits_push(p, gs[fstart + fcount]);
                lemma_digits_nonneg(p);
                lemma_pow10_mono(fcount as int, 5);
                lemma_pow10_bounds();
                assert(pow10(fcount as int + 1) == 10 * pow10(fcount as int));
            }
            frac = frac * 10 + (s[j] - 48) as u64;
            fcount += 1;
        }
        j += 1;
    }
    let has_digits: bool = i > start || n > fstart_x;
    if !has_digits {
        proof {
            if valid_decimal(gs) {
                let d = dot_pos(b);
                assert(d == 0);
                assert(!(d > 0 || d + 1 < b.len()));
            }
        }
        return None;
    }
    proof {
        lemma_pow10_mono(fcount as int, 6);
        lemma_pow10_bounds();
        assert(valid_decimal(gs)) by {
            let d = dot_pos(b);
            assert(d == i - start);
            assert forall|m: int| 0 <= m < b.len() && m != d implies is_ascii_digit(
                #[trigger] b[m],
            ) by {
                assert(b[m] == gs[m + start]);
            }
            assert forall|m: int| d < m < b.len() implies #[trigger] b[m] != 46 by {
                assert(b[m] == gs[m + start]);
                assert(is_ascii_digit(gs[m + start]));
            }
        }
    }
    let mult: u64 = pow10_small(6 - fcount);
    proof {
        lemma_pow10_bounds();
        lemma_pow10_mono(6 - fcount as int, 6);
        assert(frac * mult <= 999999 * 1000000) by (nonlinear_arith)
            requires
                frac <= 999999,
                mult <= 1000000,
                frac >= 0,
                mult >= 0,
        ;
    }
    let scaled: u64 = frac * mult;
    let magnitude: u64 = whole * 1000000 + scaled;
    let lim: u64 = limit as u64;
    let clamped: u64 = if magnitude > lim {
        lim
    } else {
        magnitude
    };
    proof {
        let dp = i - start;
        let ip = digits_value(b.take(dp));
        assert(b.take(dp) =~= gs.subrange(start as int, i as int));
        lemma_digits_nonneg(gs.subrange(start as int, i as int));
        let fseq = b.skip(if dp < b.len() {
            dp + 1
        } else {
            dp
        });
        assert(fseq =~= gs.subrange(fstart, n as int));
        assert(forall|m: int| 0 <= m < fseq.len() ==> is_ascii_digit(#[trigger] fseq[m]));
        lemma_frac_value(gs, fstart, n as int, fcount as int, );
        lemma_frac_micro_bounds(fseq);
        assert(scaled == frac_micro(fseq));
        let mag = ip * 1000000 + frac_micro(fseq);
        assert(decimal_micro_value(gs) == if is_negative_decimal(gs) {
            -mag
        } else {
            mag
        });
        if ip < whole_sat() {
            assert(whole == ip);
            assert(magnitude == mag);
        } else {
            assert(whole == whole_sat());
            assert(ip * 1000000 >= whole_sat() * 1000000) by (nonlinear_arith)
                requires
                    ip >= whole_sat(),
            ;
            assert(mag >= limit);
            assert(magnitude >= 1000000000000000);
            assert(clamped == lim);
            assert(clamp_value(mag, limit as int) == limit);
            assert(clamp_value(-mag, limit as int) == -limit);
        }
        assert(is_negative_decimal(gs) == neg);
        if neg {
            assert(clamp_value(decimal_micro_value(gs), limit as int) == -(clamped as int));
        } else {
            assert(clamp_value(decimal_micro_value(gs), limit as int) == clamped as int);
        }
    }
    if neg {
        Some(-(clamped as i64))
    } else {
        Some(clamped as i64)
    }
}

/// Decides whether a byte string carries digits where the minute codec
/// reads them.
pub fn check_time_digits(s: &[u8]) -> (b: bool)
    ensures
        b == time_digits_ok(s@),
{
    s.len() >= 5 && 48 <= s[0] && s[0] <= 57 && 48 <= s[1] && s[1] <= 57 && 48 <= s[3] && s[3] <= 57
        && 48 <= s[4] && s[4] <= 57
}

/// Decides whether a byte string carries digits where the date codec
/// reads them.
pub fn check_date_digits(s: &[u8]) -> (b: bool)
    ensures
        b == date_digits_ok(s@),
{
    s.len() >= 10 && 48 <= s[2] && s[2] <= 57 && 48 <= s[3] && s[3] <= 57 && 48 <= s[5] && s[5]
        <= 57 && 48 <= s[6] && s[6] <= 57 && 48 <= s[8] && s[8] <= 57 && 48 <= s[9] && s[9] <= 57
}

/// Decides whether every byte of the string is ASCII `'0'` or `'1'`.
pub fn check_all_bits(s: &[u8]) -> (b: bool)
    ensures
        b == all_ascii_bits(s@),
{
    let mut i: usize = 0;
    while i < s.len()
        invariant
            0 <= i <= s@.len(),
            forall|k: int| 0 <= k < i ==> is_ascii_bit(#[trigger] s@[k]),
        decreases s@.len() - i,
    {
        if !(s[i] == 48 || s[i] == 49) {
            return false;
        }
        i += 1;
    }
    true
}

/// The minute codec reads only bytes 0, 1, 3 and 4, so `"HH:MM:SS"` and
/// `"HH:MM"` with the same hours and minutes decode to the same value.
pub proof fn lemma_minutes_ignore_seconds(a: Seq<u8>, b: Seq<u8>)
    requires
        time_digits_ok(a),
        time_digits_ok(b),
        a.subrange(0, 5) == b.subrange(0, 5),
    ensures
        minutes_value(a) == minutes_value(b),
{
    assert forall|i: int| 0 <= i < 5 implies a[i] == b[i] by {
        assert(a.subrange(0, 5)[i] == a[i]);
        assert(b.subrange(0, 5)[i] == b[i]);
    }
}

} // verus!
