//! Whole numbers, and numbers with seven decimal places, as decimal text.

use crate::tokens::{free_of, lemma_prefix_len_unique, prefix_len, Separator};
use vstd::prelude::*;
use vstd::slice::slice_subrange;

verus! {

/// The byte `0`, from which the digits count up.
pub const ZERO: u8 = 0x30;

/// The byte `+`.
pub const PLUS: u8 = 0x2B;

/// The byte `-`.
pub const MINUS: u8 = 0x2D;

/// The byte `.`.
pub const POINT: u8 = 0x2E;

/// How many ten-millionths make one.
pub const SCALE: u64 = 10_000_000;

/// The number of decimal places a fixed-point number is written with.
pub const PLACES: usize = 7;

/// `b` is one of the bytes `0` to `9`.
pub open spec fn is_digit(b: u8) -> bool {
    0x30 <= b && b <= 0x39
}

/// `s` holds digits only.
pub open spec fn all_digits(s: Seq<u8>) -> bool {
    forall|i: int| 0 <= i < s.len() ==> is_digit(#[trigger] s[i])
}

/// The number that a run of digits spells, the first digit weighing most.
pub open spec fn digits_value(s: Seq<u8>) -> nat
    decreases s.len(),
{
    if s.len() == 0 {
        0
    } else {
        digits_value(s.drop_last()) * 10 + (s.last() - 0x30) as nat
    }
}

/// Ten to the power of `n`.
pub open spec fn pow10(n: nat) -> nat
    decreases n,
{
    if n == 0 {
        1
    } else {
        10 * pow10((n - 1) as nat)
    }
}

/// `s` is a run of one or more digits that spells a number up to `limit`.
pub open spec fn digits_within(s: Seq<u8>, limit: nat) -> bool {
    s.len() > 0 && all_digits(s) && digits_value(s) <= limit
}

/// `s` begins with `-`.
pub open spec fn has_minus(s: Seq<u8>) -> bool {
    s.len() > 0 && s[0] == MINUS
}

/// `s` begins with `+`.
pub open spec fn has_plus(s: Seq<u8>) -> bool {
    s.len() > 0 && s[0] == PLUS
}

/// `s` without the sign it may begin with.
pub open spec fn unsigned_part(s: Seq<u8>) -> Seq<u8> {
    if has_minus(s) || has_plus(s) {
        s.skip(1)
    } else {
        s
    }
}

/// The largest magnitude a 64-bit signed number of the given sign has.
pub open spec fn magnitude_limit(negative: bool) -> nat {
    if negative {
        0x8000_0000_0000_0000
    } else {
        0x7fff_ffff_ffff_ffff
    }
}

/// The number of the given sign and magnitude.
pub open spec fn signed(negative: bool, magnitude: nat) -> int {
    if negative {
        -(magnitude as int)
    } else {
        magnitude as int
    }
}

/// The magnitude of `v`.
pub open spec fn abs(v: int) -> nat {
    if v < 0 {
        (-v) as nat
    } else {
        v as nat
    }
}

/// An unsigned number: digits, with `+` allowed before them.
pub open spec fn parse_u64(s: Seq<u8>) -> Option<u64> {
    let body = if has_plus(s) {
        s.skip(1)
    } else {
        s
    };
    if digits_within(body, u64::MAX as nat) {
        Some(digits_value(body) as u64)
    } else {
        None
    }
}

/// A signed number: digits, with `+` or `-` allowed before them.
pub open spec fn parse_i64(s: Seq<u8>) -> Option<i64> {
    let negative = has_minus(s);
    let body = unsigned_part(s);
    if digits_within(body, magnitude_limit(negative)) {
        Some(signed(negative, digits_value(body)) as i64)
    } else {
        None
    }
}

/// The digits before the point of an unsigned fixed-point text.
pub open spec fn whole_part(body: Seq<u8>) -> Seq<u8> {
    body.take(prefix_len(body, Separator::Point) as int)
}

/// The digits behind the point; none where there is no point.
pub open spec fn fraction_part(body: Seq<u8>) -> Seq<u8> {
    let n = prefix_len(body, Separator::Point) as int;
    if n < body.len() {
        body.skip(n + 1)
    } else {
        Seq::empty()
    }
}

/// The number of ten-millionths that a whole part and a fraction of up to
/// seven digits spell.
pub open spec fn fixed_magnitude(whole: Seq<u8>, fraction: Seq<u8>) -> nat {
    digits_value(whole) * 10_000_000 + digits_value(fraction) * pow10(
        (7 - fraction.len()) as nat,
    )
}

/// A number with up to seven decimal places, in ten-millionths: an optional
/// sign, one or more digits, and optionally a point with up to seven digits
/// behind it.
pub open spec fn parse_fixed7(s: Seq<u8>) -> Option<i64> {
    let negative = has_minus(s);
    let body = unsigned_part(s);
    let whole = whole_part(body);
    let fraction = fraction_part(body);
    if whole.len() > 0 && all_digits(whole) && all_digits(fraction) && fraction.len() <= 7
        && fixed_magnitude(whole, fraction) <= magnitude_limit(negative) {
        Some(signed(negative, fixed_magnitude(whole, fraction)) as i64)
    } else {
        None
    }
}

/// The byte that spells the digit `d`.
pub open spec fn digit_byte(d: nat) -> u8 {
    (0x30 + d) as u8
}

/// `n` in decimal, without leading zeros.
pub open spec fn render_nat(n: nat) -> Seq<u8>
    decreases n,
{
    if n < 10 {
        seq![digit_byte(n)]
    } else {
        render_nat(n / 10).push(digit_byte(n % 10))
    }
}

/// The last `width` decimal digits of `n`, zeros included.
pub open spec fn render_padded(n: nat, width: nat) -> Seq<u8>
    decreases width,
{
    if width == 0 {
        Seq::empty()
    } else {
        render_padded(n / 10, (width - 1) as nat).push(digit_byte(n % 10))
    }
}

/// What is written for the sign: `-` or nothing.
pub open spec fn sign_text(negative: bool) -> Seq<u8> {
    if negative {
        seq![MINUS]
    } else {
        Seq::empty()
    }
}

/// A signed number in decimal, with `-` before it where it is negative.
pub open spec fn render_i64(v: i64) -> Seq<u8> {
    sign_text(v < 0) + render_nat(abs(v as int))
}

/// A number of ten-millionths with its point and all seven places.
pub open spec fn render_fixed7(v: i64) -> Seq<u8> {
    sign_text(v < 0) + render_nat(abs(v as int) / 10_000_000) + seq![POINT] + render_padded(
        abs(v as int) % 10_000_000,
        7,
    )
}

/// A run of digits spells at least what any of its beginnings spells.
pub proof fn lemma_digits_value_grows(s: Seq<u8>, i: int)
    requires
        all_digits(s),
        0 <= i <= s.len(),
    ensures
        digits_value(s.take(i)) <= digits_value(s),
    decreases s.len() - i,
{
    if i < s.len() {
        let front = s.drop_last();
        assert(all_digits(front)) by {
            assert forall|k: int| 0 <= k < front.len() implies is_digit(#[trigger] front[k]) by {
                assert(front[k] == s[k]);
            }
        }
        lemma_digits_value_grows(front, i);
        assert(front.take(i) == s.take(i));
        assert(is_digit(s[s.len() - 1]));
    } else {
        assert(s.take(i) == s);
    }
}

/// A run of `k` digits spells a number below the `k`-th power of ten.
pub proof fn lemma_digits_value_bound(s: Seq<u8>)
    requires
        all_digits(s),
    ensures
        digits_value(s) < pow10(s.len()),
    decreases s.len(),
{
    if s.len() > 0 {
        let front = s.drop_last();
        assert(all_digits(front)) by {
            assert forall|k: int| 0 <= k < front.len() implies is_digit(#[trigger] front[k]) by {
                assert(front[k] == s[k]);
            }
        }
        lemma_digits_value_bound(front);
        assert(is_digit(s[s.len() - 1]));
    }
}

/// Reads a run of digits as a number no greater than `limit`.
pub fn read_digits(s: &[u8], limit: u64) -> (value: Option<u64>)
    ensures
        match value {
            Some(v) => digits_within(s@, limit as nat) && v == digits_value(s@),
            None => !digits_within(s@, limit as nat),
        },
{
    if s.len() == 0 {
        return None;
    }
    let mut acc: u64 = 0;
    let mut i: usize = 0;
    proof {
        assert(s@.take(0).len() == 0);
    }
    while i < s.len()
        invariant
            i <= s.len(),
            all_digits(s@.take(i as int)),
            acc == digits_value(s@.take(i as int)),
            acc <= limit,
        decreases s.len() - i,
    {
        let b = s[i];
        if b < ZERO || b > ZERO + 9 {
            assert(!is_digit(s@[i as int]));
            return None;
        }
        let next: u128 = acc as u128 * 10 + (b - ZERO) as u128;
        proof {
            let grown = s@.take(i + 1);
            assert(grown.drop_last() == s@.take(i as int));
            assert(grown.last() == b);
            assert forall|k: int| 0 <= k < grown.len() implies is_digit(#[trigger] grown[k]) by {
                if k < i {
                    assert(grown[k] == s@.take(i as int)[k]);
                }
            }
            assert(next == digits_value(grown));
        }
        if next > limit as u128 {
            proof {
                if all_digits(s@) {
                    lemma_digits_value_grows(s@, i + 1);
                }
            }
            return None;
        }
        acc = next as u64;
        i = i + 1;
    }
    proof {
        assert(s@.take(i as int) == s@);
    }
    Some(acc)
}

/// `s` behind the sign it may begin with.
pub fn skip_sign<'a>(s: &'a [u8]) -> (body: &'a [u8])
    ensures
        body@ == unsigned_part(s@),
{
    if s.len() > 0 && (s[0] == MINUS || s[0] == PLUS) {
        slice_subrange(s, 1, s.len())
    } else {
        s
    }
}

/// The signed number of the given magnitude.
pub fn with_sign(negative: bool, magnitude: u64) -> (v: i64)
    requires
        magnitude <= magnitude_limit(negative),
    ensures
        v == signed(negative, magnitude as nat),
{
    if negative {
        if magnitude == 0x8000_0000_0000_0000 {
            i64::MIN
        } else {
            -(magnitude as i64)
        }
    } else {
        magnitude as i64
    }
}

/// The magnitude of `v`.
pub fn magnitude_of(v: i64) -> (m: u64)
    ensures
        m == abs(v as int),
{
    if v >= 0 {
        v as u64
    } else if v == i64::MIN {
        0x8000_0000_0000_0000
    } else {
        (-v) as u64
    }
}

/// Reads an unsigned number.
pub fn read_u64(s: &[u8]) -> (value: Option<u64>)
    ensures
        value == parse_u64(s@),
{
    let body = if s.len() > 0 && s[0] == PLUS {
        slice_subrange(s, 1, s.len())
    } else {
        s
    };
    read_digits(body, u64::MAX)
}

/// Reads a signed number.
pub fn read_i64(s: &[u8]) -> (value: Option<i64>)
    ensures
        value == parse_i64(s@),
{
    let negative = s.len() > 0 && s[0] == MINUS;
    let limit: u64 = if negative {
        0x8000_0000_0000_0000
    } else {
        0x7fff_ffff_ffff_ffff
    };
    match read_digits(skip_sign(s), limit) {
        Some(magnitude) => Some(with_sign(negative, magnitude)),
        None => None,
    }
}

/// The power of ten by which a fraction of `7 - missing` digits is scaled
/// up to ten-millionths.
fn scale_of(missing: usize) -> (p: u64)
    requires
        missing <= 7,
    ensures
        p == pow10(missing as nat),
        1 <= p <= 10_000_000,
{
    proof {
        reveal_with_fuel(pow10, 8);
    }
    if missing == 0 {
        1
    } else if missing == 1 {
        10
    } else if missing == 2 {
        100
    } else if missing == 3 {
        1_000
    } else if missing == 4 {
        10_000
    } else if missing == 5 {
        100_000
    } else if missing == 6 {
        1_000_000
    } else {
        10_000_000
    }
}

/// Reads a number with up to seven decimal places, in ten-millionths.
pub fn read_fixed7(s: &[u8]) -> (value: Option<i64>)
    ensures
        value == parse_fixed7(s@),
{
    let negative = s.len() > 0 && s[0] == MINUS;
    let limit: u64 = if negative {
        0x8000_0000_0000_0000
    } else {
        0x7fff_ffff_ffff_ffff
    };
    let body = skip_sign(s);
    let mut n: usize = 0;
    while n < body.len() && body[n] != POINT
        invariant
            n <= body.len(),
            free_of(body@.take(n as int), Separator::Point),
        decreases body.len() - n,
    {
        proof {
            let grown = body@.take(n + 1);
            assert forall|k: int| 0 <= k < grown.len() implies !Separator::Point.matches(
                #[trigger] grown[k],
            ) by {
                if k < n {
                    assert(grown[k] == body@.take(n as int)[k]);
                }
            }
        }
        n = n + 1;
    }
    proof {
        lemma_prefix_len_unique(body@, Separator::Point, n as int);
    }
    let whole = slice_subrange(body, 0, n);
    let fraction = if n < body.len() {
        slice_subrange(body, n + 1, body.len())
    } else {
        slice_subrange(body, n, n)
    };
    proof {
        assert(whole@ == whole_part(body@));
        assert(fraction@ == fraction_part(body@));
    }
    if fraction.len() > 7 {
        return None;
    }
    let w = match read_digits(whole, 0x8000_0000_0000_0000) {
        Some(w) => w,
        None => {
            return None;
        },
    };
    let f: u64 = if fraction.len() == 0 {
        0
    } else {
        match read_digits(fraction, 9_999_999) {
            Some(f) => f,
            None => {
                proof {
                    if all_digits(fraction@) {
                        lemma_digits_value_bound(fraction@);
                        lemma_pow10_grows(fraction@.len(), 7);
                        reveal_with_fuel(pow10, 8);
                    }
                }
                return None;
            },
        }
    };
    let p = scale_of(7 - fraction.len());
    assert(f * p <= 9_999_999 * 10_000_000) by (nonlinear_arith)
        requires
            f <= 9_999_999,
            p <= 10_000_000,
    ;
    let magnitude: u128 = w as u128 * 10_000_000 + f as u128 * p as u128;
    assert(magnitude == fixed_magnitude(whole@, fraction@));
    if magnitude > limit as u128 {
        None
    } else {
        Some(with_sign(negative, magnitude as u64))
    }
}

/// A higher power of ten is no smaller.
pub proof fn lemma_pow10_grows(a: nat, b: nat)
    requires
        a <= b,
    ensures
        pow10(a) <= pow10(b),
        pow10(a) >= 1,
    decreases b,
{
    if a < b {
        lemma_pow10_grows(a, (b - 1) as nat);
    } else if a > 0 {
        lemma_pow10_grows((a - 1) as nat, (a - 1) as nat);
    }
}

/// Appends `n` in decimal.
pub fn write_nat(out: &mut Vec<u8>, n: u64)
    ensures
        final(out)@ == old(out)@ + render_nat(n as nat),
    decreases n,
{
    if n >= 10 {
        write_nat(out, n / 10);
    }
    out.push(ZERO + (n % 10) as u8);
    proof {
        if n >= 10 {
            assert(final(out)@ == old(out)@ + render_nat((n / 10) as nat).push(
                digit_byte((n % 10) as nat),
            ));
        } else {
            assert(final(out)@ == old(out)@ + seq![digit_byte(n as nat)]);
        }
    }
}

/// Appends the last `width` decimal digits of `n`.
pub fn write_padded(out: &mut Vec<u8>, n: u64, width: usize)
    ensures
        final(out)@ == old(out)@ + render_padded(n as nat, width as nat),
    decreases width,
{
    if width > 0 {
        write_padded(out, n / 10, width - 1);
        out.push(ZERO + (n % 10) as u8);
        proof {
            assert(final(out)@ == old(out)@ + render_padded(
                (n / 10) as nat,
                (width - 1) as nat,
            ).push(digit_byte((n % 10) as nat)));
        }
    } else {
        assert(final(out)@ == old(out)@ + Seq::<u8>::empty());
    }
}

/// Appends `-` where `negative` holds.
fn write_sign(out: &mut Vec<u8>, negative: bool)
    ensures
        final(out)@ == old(out)@ + sign_text(negative),
{
    if negative {
        out.push(MINUS);
        assert(final(out)@ == old(out)@ + seq![MINUS]);
    } else {
        assert(final(out)@ == old(out)@ + Seq::<u8>::empty());
    }
}

/// Appends a signed number.
pub fn write_i64(out: &mut Vec<u8>, v: i64)
    ensures
        final(out)@ == old(out)@ + render_i64(v),
{
    write_sign(out, v < 0);
    write_nat(out, magnitude_of(v));
    assert(final(out)@ == old(out)@ + (sign_text(v < 0) + render_nat(abs(v as int))));
}

/// Appends a number of ten-millionths with its point and seven places.
pub fn write_fixed7(out: &mut Vec<u8>, v: i64)
    ensures
        final(out)@ == old(out)@ + render_fixed7(v),
{
    let m = magnitude_of(v);
    write_sign(out, v < 0);
    write_nat(out, m / SCALE);
    out.push(POINT);
    write_padded(out, m % SCALE, PLACES);
    assert(final(out)@ == old(out)@ + (sign_text(v < 0) + render_nat(abs(v as int) / 10_000_000)
        + seq![POINT] + render_padded(abs(v as int) % 10_000_000, 7)));
}

/// Digits are no separator of any kind.
pub proof fn lemma_digits_are_solid(s: Seq<u8>, sep: Separator)
    requires
        all_digits(s),
    ensures
        free_of(s, sep),
{
    assert forall|i: int| 0 <= i < s.len() implies !sep.matches(#[trigger] s[i]) by {
        assert(is_digit(s[i]));
    }
}

/// What `render_nat` writes is a run of digits that spells `n`.
pub proof fn lemma_render_nat_reads_back(n: nat)
    ensures
        render_nat(n).len() > 0,
        all_digits(render_nat(n)),
        digits_value(render_nat(n)) == n,
    decreases n,
{
    let text = render_nat(n);
    if n < 10 {
        assert(text.drop_last() == Seq::<u8>::empty());
        assert(digits_value(text.drop_last()) == 0);
        assert(text.last() == digit_byte(n));
    } else {
        let front = render_nat(n / 10);
        lemma_render_nat_reads_back(n / 10);
        assert(text.drop_last() == front);
        assert(text.last() == digit_byte(n % 10));
        assert forall|k: int| 0 <= k < text.len() implies is_digit(#[trigger] text[k]) by {
            if k < front.len() {
                assert(text[k] == front[k]);
            }
        }
    }
}

/// What `render_padded` writes is a run of `width` digits that spells `n`,
/// where `n` has no more digits than that.
pub proof fn lemma_render_padded_reads_back(n: nat, width: nat)
    requires
        n < pow10(width),
    ensures
        render_padded(n, width).len() == width,
        all_digits(render_padded(n, width)),
        digits_value(render_padded(n, width)) == n,
    decreases width,
{
    let text = render_padded(n, width);
    if width > 0 {
        let front = render_padded(n / 10, (width - 1) as nat);
        lemma_render_padded_reads_back(n / 10, (width - 1) as nat);
        assert(text.drop_last() == front);
        assert(text.last() == digit_byte(n % 10));
        assert forall|k: int| 0 <= k < text.len() implies is_digit(#[trigger] text[k]) by {
            if k < front.len() {
                assert(text[k] == front[k]);
            }
        }
    }
}

/// An unsigned number that was written is read back as it was.
pub proof fn lemma_u64_reads_back(v: u64)
    ensures
        parse_u64(render_nat(v as nat)) == Some(v),
        render_nat(v as nat).len() > 0,
        free_of(render_nat(v as nat), Separator::Whitespace),
{
    let text = render_nat(v as nat);
    lemma_render_nat_reads_back(v as nat);
    lemma_digits_are_solid(text, Separator::Whitespace);
    assert(is_digit(text[0]));
}

/// A signed number that was written is read back as it was.
pub proof fn lemma_i64_reads_back(v: i64)
    ensures
        parse_i64(render_i64(v)) == Some(v),
        render_i64(v).len() > 0,
        free_of(render_i64(v), Separator::Whitespace),
{
    let digits = render_nat(abs(v as int));
    let text = render_i64(v);
    lemma_render_nat_reads_back(abs(v as int));
    lemma_digits_are_solid(digits, Separator::Whitespace);
    assert(is_digit(digits[0]));
    if v < 0 {
        assert(text == seq![MINUS] + digits);
        assert(text[0] == MINUS);
        assert(text.skip(1) == digits);
        assert forall|i: int| 0 <= i < text.len() implies !Separator::Whitespace.matches(
            #[trigger] text[i],
        ) by {
            if i > 0 {
                assert(text[i] == digits[i - 1]);
            }
        }
    } else {
        assert(text == digits);
    }
}

/// A number of ten-millionths that was written is read back as it was.
pub proof fn lemma_fixed7_reads_back(v: i64)
    ensures
        parse_fixed7(render_fixed7(v)) == Some(v),
        render_fixed7(v).len() > 0,
        free_of(render_fixed7(v), Separator::Whitespace),
{
    let m = abs(v as int);
    let whole = render_nat(m / 10_000_000);
    let fraction = render_padded(m % 10_000_000, 7);
    let body = whole + seq![POINT] + fraction;
    let text = render_fixed7(v);
    lemma_render_nat_reads_back(m / 10_000_000);
    assert(pow10(7) == 10_000_000) by {
        reveal_with_fuel(pow10, 8);
    }
    assert(pow10(0) == 1);
    lemma_render_padded_reads_back(m % 10_000_000, 7);
    lemma_digits_are_solid(whole, Separator::Point);
    lemma_digits_are_solid(whole, Separator::Whitespace);
    lemma_digits_are_solid(fraction, Separator::Whitespace);
    assert(is_digit(whole[0]));
    assert(body[0] == whole[0]);
    assert forall|i: int| 0 <= i < body.len() implies !Separator::Whitespace.matches(
        #[trigger] body[i],
    ) by {
        if i < whole.len() {
            assert(body[i] == whole[i]);
        } else if i > whole.len() {
            assert(body[i] == fraction[i - whole.len() - 1]);
        }
    }
    if v < 0 {
        assert(text == seq![MINUS] + body);
        assert(text[0] == MINUS);
        assert(text.skip(1) == body);
        assert forall|i: int| 0 <= i < text.len() implies !Separator::Whitespace.matches(
            #[trigger] text[i],
        ) by {
            if i > 0 {
                assert(text[i] == body[i - 1]);
            }
        }
    } else {
        assert(text == body);
    }
    assert(unsigned_part(text) == body);
    let n = whole.len() as int;
    assert(body.take(n) == whole);
    assert(body[n] == POINT);
    lemma_prefix_len_unique(body, Separator::Point, n);
    assert(body.skip(n + 1) == fraction);
    assert(whole_part(body) == whole);
    assert(fraction_part(body) == fraction);
    assert(digits_value(fraction) * pow10(0) == digits_value(fraction)) by (nonlinear_arith)
        requires
            pow10(0) == 1,
    ;
    assert(fixed_magnitude(whole, fraction) == m);
}

} // verus!
