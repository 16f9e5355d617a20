//! Decimal number literals: which texts are numbers.
//!
//! A literal is an optional sign, digits with at most one decimal point and
//! at least one digit, and an optional exponent: `e` or `E`, an optional
//! sign, and at least one digit. Nothing may stand before or after it.

use crate::limit::{
    below_limit, lemma_aligned, lemma_long_not_below, lemma_short_below, lemma_zero_below,
};
use crate::limit_digits::{lemma_limit_digits, limit_digits, LIMIT_DIGITS};
use crate::magnitude::{are_digits, decimal, lemma_first_difference, padded};
use vstd::prelude::*;
use vstd::string::*;

verus! {

/// Whether `c` is one of the ten decimal digits.
pub open spec fn is_digit(c: char) -> bool {
    '0' <= c && c <= '9'
}

/// Whether `c` is a plus or a minus sign.
pub open spec fn is_sign(c: char) -> bool {
    c == '+' || c == '-'
}

/// Whether `c` opens an exponent.
pub open spec fn is_exponent_mark(c: char) -> bool {
    c == 'e' || c == 'E'
}

/// How many digits stand at the front of `s`.
pub open spec fn digit_run(s: Seq<char>) -> nat
    decreases s.len(),
{
    if s.len() > 0 && is_digit(s[0]) {
        1 + digit_run(s.drop_first())
    } else {
        0
    }
}

/// 1 if `s` begins with a sign, else 0.
pub open spec fn sign_len(s: Seq<char>) -> nat {
    if s.len() > 0 && is_sign(s[0]) {
        1
    } else {
        0
    }
}

/// Where the parts of a literal lie in a text, read from the left, each part
/// taken as long as it can be.
pub struct Parts {
    /// Where the digits before the point begin.
    pub int_start: int,
    /// Where they end.
    pub int_end: int,
    /// Whether a decimal point follows them.
    pub point: bool,
    /// Where the digits after the point begin.
    pub frac_start: int,
    /// Where they end.
    pub frac_end: int,
    /// Whether an exponent mark follows the mantissa.
    pub mark: bool,
    /// Whether the exponent has a minus sign.
    pub exp_negative: bool,
    /// Where the digits of the exponent begin.
    pub exp_start: int,
    /// Where they end.
    pub exp_end: int,
}

/// The parts of `s`.
pub open spec fn parts(s: Seq<char>) -> Parts {
    let int_start = sign_len(s) as int;
    let int_end = int_start + digit_run(s.skip(int_start));
    let point = int_end < s.len() && s[int_end] == '.';
    let frac_start = if point { int_end + 1 } else { int_end };
    let frac_end = if point { frac_start + digit_run(s.skip(frac_start)) } else { frac_start };
    let mark = frac_end < s.len() && is_exponent_mark(s[frac_end]);
    let after_mark = s.skip(frac_end + 1);
    let exp_negative = mark && after_mark.len() > 0 && after_mark[0] == '-';
    let exp_start = if mark { frac_end + 1 + sign_len(after_mark) } else { frac_end };
    let exp_end = if mark { exp_start + digit_run(s.skip(exp_start)) } else { exp_start };
    Parts {
        int_start,
        int_end,
        point,
        frac_start,
        frac_end,
        mark,
        exp_negative,
        exp_start,
        exp_end,
    }
}

/// Whether `s` is a literal: the mantissa has a digit, an exponent mark is
/// followed by a digit, and the parts take up the whole text.
pub open spec fn is_literal(s: Seq<char>) -> bool {
    let p = parts(s);
    &&& (p.int_end - p.int_start) + (p.frac_end - p.frac_start) > 0
    &&& p.mark ==> p.exp_end > p.exp_start
    &&& p.exp_end == s.len()
}

/// The number that a digit stands for; 0 for any other character.
pub open spec fn digit_value(c: char) -> nat {
    if is_digit(c) {
        (c as int - 48) as nat
    } else {
        0
    }
}

/// The numbers that the characters of `s` stand for.
pub open spec fn digit_values(s: Seq<char>) -> Seq<nat> {
    Seq::new(s.len(), |i: int| digit_value(s[i]))
}

/// The digits of the mantissa of `s`: those before the point, then those
/// after it.
pub open spec fn mantissa(s: Seq<char>) -> Seq<nat> {
    let p = parts(s);
    digit_values(s.subrange(p.int_start, p.int_end) + s.subrange(p.frac_start, p.frac_end))
}

/// The exponent that `s` writes; 0 where it writes none.
pub open spec fn exponent(s: Seq<char>) -> int {
    let p = parts(s);
    let size = decimal(digit_values(s.subrange(p.exp_start, p.exp_end)));
    if p.exp_negative {
        -size
    } else {
        size as int
    }
}

/// The power of ten by which the mantissa of `s`, read as a whole number,
/// is multiplied: the exponent less the number of digits after the point.
pub open spec fn scale(s: Seq<char>) -> int {
    let p = parts(s);
    exponent(s) - (p.frac_end - p.frac_start)
}

/// Whether `s` is a number: a literal whose magnitude a double precision
/// number can hold, so that it stands for a finite value.
pub open spec fn is_number(s: Seq<char>) -> bool {
    is_literal(s) && below_limit(decimal(mantissa(s)), scale(s))
}

/// The text that a sequence of ASCII bytes spells.
pub open spec fn ascii_text(bytes: Seq<u8>) -> Seq<char> {
    Seq::new(bytes.len(), |i: int| bytes[i] as char)
}

/// Where the parts of a literal lie in a run of bytes.
struct Layout {
    int_start: usize,
    int_end: usize,
    frac_start: usize,
    frac_end: usize,
    mark: bool,
    exp_negative: bool,
    exp_start: usize,
    exp_end: usize,
}

impl Layout {
    spec fn agrees(&self, p: Parts) -> bool {
        &&& self.int_start == p.int_start
        &&& self.int_end == p.int_end
        &&& self.frac_start == p.frac_start
        &&& self.frac_end == p.frac_end
        &&& self.mark == p.mark
        &&& self.exp_negative == p.exp_negative
        &&& self.exp_start == p.exp_start
        &&& self.exp_end == p.exp_end
    }

    spec fn within(&self, len: int) -> bool {
        &&& self.int_start <= self.int_end <= self.frac_start <= self.frac_end <= self.exp_start
            <= self.exp_end <= len
    }
}

/// The largest size of an exponent that is told apart from larger ones.
const EXPONENT_CAP: u128 = 1_000_000_000_000_000_000_000_000_000_000;

fn digit_byte(b: u8) -> (r: bool)
    ensures
        r == is_digit(b as char),
{
    b >= 48 && b <= 57
}

fn sign_byte(b: u8) -> (r: bool)
    ensures
        r == is_sign(b as char),
{
    b == 43 || b == 45
}

proof fn lemma_digit_run_step(s: Seq<char>, i: int)
    requires
        0 <= i < s.len(),
        is_digit(s[i]),
    ensures
        digit_run(s.skip(i)) == 1 + digit_run(s.skip(i + 1)),
{
    assert(s.skip(i).drop_first() =~= s.skip(i + 1));
}

proof fn lemma_digit_run_stop(s: Seq<char>, i: int)
    requires
        0 <= i <= s.len(),
        i < s.len() ==> !is_digit(s[i]),
    ensures
        digit_run(s.skip(i)) == 0,
{
}

/// The first `digit_run(s)` characters of `s` are digits.
proof fn lemma_digit_run_digits(s: Seq<char>, j: int)
    requires
        0 <= j < digit_run(s),
    ensures
        j < s.len(),
        is_digit(s[j]),
    decreases s.len(),
{
    if j > 0 {
        lemma_digit_run_digits(s.drop_first(), j - 1);
    }
}

/// The characters from `start` up to the end of the digits that begin
/// there are digits.
proof fn lemma_run_is_digits(s: Seq<char>, start: int, i: int)
    requires
        0 <= start <= i < start + digit_run(s.skip(start)),
        start <= s.len(),
    ensures
        i < s.len(),
        is_digit(s[i]),
{
    lemma_digit_run_digits(s.skip(start), i - start);
}

/// The end of the digits that begin at `start`.
fn skip_digits(bytes: &[u8], start: usize) -> (end: usize)
    requires
        start <= bytes.len(),
    ensures
        start <= end <= bytes.len(),
        end - start == digit_run(ascii_text(bytes@).skip(start as int)),
{
    let ghost s = ascii_text(bytes@);
    let mut i: usize = start;
    while i < bytes.len() && digit_byte(bytes[i])
        invariant
            start <= i <= bytes.len(),
            s == ascii_text(bytes@),
            digit_run(s.skip(start as int)) == (i - start) + digit_run(s.skip(i as int)),
        decreases bytes.len() - i,
    {
        proof {
            lemma_digit_run_step(s, i as int);
        }
        i += 1;
    }
    proof {
        lemma_digit_run_stop(s, i as int);
    }
    i
}

/// Where the parts lie in the bytes of an ASCII text.
fn layout(bytes: &[u8]) -> (l: Layout)
    ensures
        l.agrees(parts(ascii_text(bytes@))),
        l.within(bytes.len() as int),
{
    let ghost s = ascii_text(bytes@);
    let ghost p = parts(s);
    let n: usize = bytes.len();
    let int_start: usize = if n > 0 && sign_byte(bytes[0]) { 1 } else { 0 };
    let int_end: usize = skip_digits(bytes, int_start);
    let point: bool = int_end < n && bytes[int_end] == 46;
    let frac_start: usize = if point { int_end + 1 } else { int_end };
    let frac_end: usize = if point { skip_digits(bytes, frac_start) } else { frac_start };
    assert(frac_end == p.frac_end);
    let mark: bool = frac_end < n && (bytes[frac_end] == 101 || bytes[frac_end] == 69);
    if mark {
        let signed: bool = frac_end + 1 < n && sign_byte(bytes[frac_end + 1]);
        let exp_negative: bool = signed && bytes[frac_end + 1] == 45;
        let exp_start: usize = if signed { frac_end + 2 } else { frac_end + 1 };
        let exp_end: usize = skip_digits(bytes, exp_start);
        assert(exp_start == p.exp_start);
        Layout { int_start, int_end, frac_start, frac_end, mark, exp_negative, exp_start, exp_end }
    } else {
        Layout {
            int_start,
            int_end,
            frac_start,
            frac_end,
            mark,
            exp_negative: false,
            exp_start: frac_end,
            exp_end: frac_end,
        }
    }
}

/// The digit of the mantissa at the place `j`.
fn mantissa_digit(bytes: &[u8], l: &Layout, j: usize) -> (d: u8)
    requires
        l.agrees(parts(ascii_text(bytes@))),
        l.within(bytes.len() as int),
        j < (l.int_end - l.int_start) + (l.frac_end - l.frac_start),
    ensures
        d == mantissa(ascii_text(bytes@))[j as int],
        d <= 9,
{
    let ghost s = ascii_text(bytes@);
    let int_len: usize = l.int_end - l.int_start;
    if j < int_len {
        proof {
            lemma_run_is_digits(s, l.int_start as int, l.int_start + j);
        }
        bytes[l.int_start + j] - 48
    } else {
        proof {
            lemma_run_is_digits(s, l.frac_start as int, l.frac_start + (j - int_len));
        }
        bytes[l.frac_start + (j - int_len)] - 48
    }
}

/// The digits at the front of `s` are no more than `s` is long.
proof fn lemma_digit_run_bound(s: Seq<char>)
    ensures
        digit_run(s) <= s.len(),
    decreases s.len(),
{
    if s.len() > 0 && is_digit(s[0]) {
        lemma_digit_run_bound(s.drop_first());
    }
}

/// The parts lie within the text, one after the other.
pub proof fn lemma_parts_within(s: Seq<char>)
    ensures
        0 <= parts(s).int_start <= parts(s).int_end <= parts(s).frac_start <= parts(s).frac_end
            <= parts(s).exp_start <= parts(s).exp_end <= s.len(),
{
    let p = parts(s);
    lemma_digit_run_bound(s.skip(p.int_start));
    lemma_digit_run_bound(s.skip(p.frac_start));
    lemma_digit_run_bound(s.skip(p.exp_start));
}

/// The mantissa holds digits only.
proof fn lemma_mantissa_digits(s: Seq<char>)
    ensures
        are_digits(mantissa(s)),
        mantissa(s).len() == (parts(s).int_end - parts(s).int_start) + (parts(s).frac_end
            - parts(s).frac_start),
{
    lemma_parts_within(s);
}

/// The number that the digits from `start` to `end` write, or the cap where
/// that number is larger.
fn capped_value(bytes: &[u8], start: usize, end: usize) -> (v: u128)
    requires
        start <= end <= bytes.len(),
        forall|i: int| start <= i < end ==> is_digit(#[trigger] ascii_text(bytes@)[i]),
    ensures
        v <= EXPONENT_CAP,
        v == EXPONENT_CAP ==> decimal(
            digit_values(ascii_text(bytes@).subrange(start as int, end as int)),
        ) >= EXPONENT_CAP,
        v < EXPONENT_CAP ==> decimal(
            digit_values(ascii_text(bytes@).subrange(start as int, end as int)),
        ) == v,
{
    let ghost s = ascii_text(bytes@);
    let mut v: u128 = 0;
    let mut i: usize = start;
    assert(digit_values(s.subrange(start as int, start as int)) =~= Seq::<nat>::empty());
    while i < end
        invariant
            start <= i <= end <= bytes.len(),
            s == ascii_text(bytes@),
            forall|k: int| start <= k < end ==> is_digit(#[trigger] s[k]),
            v <= EXPONENT_CAP,
            v == EXPONENT_CAP ==> decimal(digit_values(s.subrange(start as int, i as int)))
                >= EXPONENT_CAP,
            v < EXPONENT_CAP ==> decimal(digit_values(s.subrange(start as int, i as int))) == v,
        decreases end - i,
    {
        assert(is_digit(s[i as int]));
        let d: u8 = bytes[i] - 48;
        proof {
            let next = digit_values(s.subrange(start as int, i + 1));
            assert(next.drop_last() =~= digit_values(s.subrange(start as int, i as int)));
            assert(next.last() == d);
        }
        if v < EXPONENT_CAP {
            v = v * 10 + d as u128;
            if v > EXPONENT_CAP {
                v = EXPONENT_CAP;
            }
        }
        i += 1;
    }
    v
}

/// Whether the digits of the mantissa from the place `z` on, set against
/// those of the limit, write the smaller number.
fn aligned_below(bytes: &[u8], l: &Layout, z: usize, total: usize) -> (r: bool)
    requires
        l.agrees(parts(ascii_text(bytes@))),
        l.within(bytes.len() as int),
        total == (l.int_end - l.int_start) + (l.frac_end - l.frac_start),
        z < total,
    ensures
        r == (decimal(
            padded(
                mantissa(ascii_text(bytes@)).skip(z as int),
                if total - z >= 309 {
                    (total - z) as nat
                } else {
                    309
                },
            ),
        ) < decimal(
            padded(
                limit_digits(),
                if total - z >= 309 {
                    (total - z) as nat
                } else {
                    309
                },
            ),
        )),
{
    let ghost s = ascii_text(bytes@);
    let len: usize = total - z;
    let n: usize = if len >= 309 { len } else { 309 };
    let ghost a = padded(mantissa(s).skip(z as int), n as nat);
    let ghost b = padded(limit_digits(), n as nat);
    proof {
        lemma_limit_digits();
        lemma_mantissa_digits(s);
        assert(are_digits(a));
        assert(are_digits(b));
    }
    let mut i: usize = 0;
    while i < n
        invariant
            0 <= i <= n,
            l.agrees(parts(ascii_text(bytes@))),
            l.within(bytes.len() as int),
            total == (l.int_end - l.int_start) + (l.frac_end - l.frac_start),
            z < total,
            len == total - z,
            n == if len >= 309 { len } else { 309 },
            s == ascii_text(bytes@),
            a == padded(mantissa(s).skip(z as int), n as nat),
            b == padded(limit_digits(), n as nat),
            are_digits(a),
            are_digits(b),
            mantissa(s).len() == total,
            forall|j: int| 0 <= j < i ==> a[j] == b[j],
        decreases n - i,
    {
        let da: u8 = if i < len { mantissa_digit(bytes, l, z + i) } else { 0 };
        let db: u8 = if i < 309 { LIMIT_DIGITS[i] } else { 0 };
        proof {
            lemma_limit_digits();
            assert(a[i as int] == da);
            assert(b[i as int] == db);
        }
        if da < db {
            proof {
                lemma_first_difference(a, b, i as int);
            }
            return true;
        }
        if da > db {
            proof {
                lemma_first_difference(b, a, i as int);
            }
            return false;
        }
        i += 1;
    }
    assert(a =~= b);
    false
}

/// Whether the magnitude of a literal is below the limit.
fn magnitude_fits(bytes: &[u8], l: &Layout) -> (r: bool)
    requires
        l.agrees(parts(ascii_text(bytes@))),
        l.within(bytes.len() as int),
    ensures
        r == below_limit(decimal(mantissa(ascii_text(bytes@))), scale(ascii_text(bytes@))),
{
    let ghost s = ascii_text(bytes@);
    let ghost m = mantissa(s);
    let ghost k = scale(s);
    let frac_len: usize = l.frac_end - l.frac_start;
    let total: usize = (l.int_end - l.int_start) + frac_len;
    proof {
        lemma_mantissa_digits(s);
    }
    let mut z: usize = 0;
    while z < total && mantissa_digit(bytes, l, z) == 0
        invariant
            0 <= z <= total,
            l.agrees(parts(ascii_text(bytes@))),
            l.within(bytes.len() as int),
            total == (l.int_end - l.int_start) + (l.frac_end - l.frac_start),
            m == mantissa(ascii_text(bytes@)),
            m.len() == total,
            forall|j: int| 0 <= j < z ==> m[j] == 0,
        decreases total - z,
    {
        z += 1;
    }
    if z == total {
        proof {
            lemma_zero_below(m, k);
        }
        return true;
    }
    proof {
        assert forall|i: int| l.exp_start <= i < l.exp_end implies is_digit(
            #[trigger] ascii_text(bytes@)[i],
        ) by {
            lemma_run_is_digits(s, l.exp_start as int, i);
        }
    }
    let size: u128 = capped_value(bytes, l.exp_start, l.exp_end);
    let shift: i128 = if l.exp_negative { -(size as i128) } else { size as i128 };
    let place: i128 = (total - z) as i128 + shift - frac_len as i128;
    if place < 309 {
        proof {
            lemma_short_below(m, z as int, k);
        }
        true
    } else if place > 309 {
        proof {
            lemma_long_not_below(m, z as int, k);
        }
        false
    } else {
        proof {
            lemma_aligned(m, z as int, k, if total - z >= 309 { (total - z) as nat } else { 309 });
        }
        aligned_below(bytes, l, z, total)
    }
}

/// Whether `text` is a number.
pub fn is_number_text(text: &str) -> (r: bool)
    ensures
        r == is_number(text@),
{
    if !text.is_ascii() {
        proof {
            if is_literal(text@) {
                lemma_literal_is_ascii(text@);
            }
        }
        return false;
    }
    let bytes = text.as_bytes();
    proof {
        is_ascii_spec_bytes(text);
        assert(ascii_text(bytes@) =~= text@);
    }
    let l = layout(bytes);
    let mantissa_len: usize = (l.int_end - l.int_start) + (l.frac_end - l.frac_start);
    if mantissa_len == 0 || (l.mark && l.exp_end == l.exp_start) || l.exp_end != bytes.len() {
        return false;
    }
    magnitude_fits(bytes, &l)
}

/// The empty text is no number.
pub proof fn lemma_empty_is_no_number()
    ensures
        !is_number(Seq::<char>::empty()),
{
}

/// A literal holds ASCII characters only.
pub proof fn lemma_literal_is_ascii(s: Seq<char>)
    requires
        is_literal(s),
    ensures
        vstd::utf8::is_ascii_chars(s),
{
    let p = parts(s);
    assert forall|i: int| 0 <= i < s.len() implies '\0' <= #[trigger] s[i] <= '\u{7f}' by {
        if i < p.int_start {
        } else if i < p.int_end {
            lemma_digit_run_digits(s.skip(p.int_start), i - p.int_start);
        } else if i < p.frac_start {
        } else if i < p.frac_end {
            lemma_digit_run_digits(s.skip(p.frac_start), i - p.frac_start);
        } else if i < p.exp_start {
        } else {
            lemma_digit_run_digits(s.skip(p.exp_start), i - p.exp_start);
        }
    }
}

} // verus!
