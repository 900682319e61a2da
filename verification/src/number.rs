//! Numbers of the language: IEEE 754 binary32 values, held as their bit
//! patterns.
//!
//! Equality, ordering, negation, the whole part of a value and the value
//! nearest to an integer are decided here on the bits. The rounded
//! operations and the decimal digits of a value are computed by
//! rustc_apfloat, a software implementation of IEEE arithmetic, and stand in
//! contracts under their names only. Which of those digits make the text of
//! a number is decided here: the fewest that the reader reads back as the
//! same value.

use rustc_apfloat::ieee::Single;
use rustc_apfloat::{Float, Round};
use vstd::prelude::*;
use vstd::string::{StrSliceExecFns, StringExecFns};

verus! {

/// The bit pattern of `0.0`.
pub const ZERO: u32 = 0;

/// The bit pattern of `1.0`.
pub const ONE: u32 = 0x3f80_0000;

/// The bit that holds the sign.
pub const SIGN: u32 = 0x8000_0000;

/// The bit pattern of positive infinity; every pattern whose magnitude lies
/// above it is a NaN.
pub const INFINITY: u32 = 0x7f80_0000;

/// The pattern without its sign bit.
pub open spec fn magnitude(bits: u32) -> int {
    (bits % SIGN) as int
}

/// Whether the sign bit is set.
pub open spec fn is_negative(bits: u32) -> bool {
    bits >= SIGN
}

/// Whether the pattern is a NaN.
pub open spec fn is_nan(bits: u32) -> bool {
    magnitude(bits) > INFINITY
}

/// An integer that orders the patterns that are no NaN as their values are
/// ordered: both zeros get 0, and negative values mirror the positive ones.
pub open spec fn key(bits: u32) -> int {
    if is_negative(bits) {
        -magnitude(bits)
    } else {
        magnitude(bits)
    }
}

/// `a == b` on the values: false as soon as one of them is a NaN.
pub open spec fn num_eq(a: u32, b: u32) -> bool {
    !is_nan(a) && !is_nan(b) && key(a) == key(b)
}

/// `a < b` on the values: false as soon as one of them is a NaN.
pub open spec fn num_lt(a: u32, b: u32) -> bool {
    !is_nan(a) && !is_nan(b) && key(a) < key(b)
}

/// `a <= b` on the values: false as soon as one of them is a NaN.
pub open spec fn num_le(a: u32, b: u32) -> bool {
    !is_nan(a) && !is_nan(b) && key(a) <= key(b)
}

/// The pattern with its sign bit flipped.
pub open spec fn negated(bits: u32) -> u32 {
    if bits >= SIGN {
        (bits - SIGN) as u32
    } else {
        (bits + SIGN) as u32
    }
}

/// Whether the pattern is a NaN.
pub fn nan(bits: u32) -> (r: bool)
    ensures
        r == is_nan(bits),
{
    bits % SIGN > INFINITY
}

/// The integer that orders the pattern among those that are no NaN.
fn order_key(bits: u32) -> (r: i64)
    ensures
        r == key(bits),
{
    let m: u32 = bits % SIGN;
    if bits >= SIGN {
        let k: i64 = 0 - (m as i64);
        k
    } else {
        m as i64
    }
}

/// `a == b` on the values.
pub fn eq(a: u32, b: u32) -> (r: bool)
    ensures
        r == num_eq(a, b),
{
    !nan(a) && !nan(b) && order_key(a) == order_key(b)
}

/// `a < b` on the values.
pub fn lt(a: u32, b: u32) -> (r: bool)
    ensures
        r == num_lt(a, b),
{
    !nan(a) && !nan(b) && order_key(a) < order_key(b)
}

/// `a <= b` on the values.
pub fn le(a: u32, b: u32) -> (r: bool)
    ensures
        r == num_le(a, b),
{
    !nan(a) && !nan(b) && order_key(a) <= order_key(b)
}

/// `a > b` on the values.
pub fn gt(a: u32, b: u32) -> (r: bool)
    ensures
        r == num_lt(b, a),
{
    lt(b, a)
}

/// `a >= b` on the values.
pub fn ge(a: u32, b: u32) -> (r: bool)
    ensures
        r == num_le(b, a),
{
    le(b, a)
}

/// The value negated: the pattern with its sign bit flipped.
pub fn neg(bits: u32) -> (r: u32)
    ensures
        r == negated(bits),
{
    if bits >= SIGN {
        bits - SIGN
    } else {
        bits + SIGN
    }
}

/// The sum of two binary32 values, rounded to nearest, ties to even.
pub uninterp spec fn sum(a: u32, b: u32) -> u32;

/// The difference of two binary32 values, rounded to nearest, ties to even.
pub uninterp spec fn difference(a: u32, b: u32) -> u32;

/// The product of two binary32 values, rounded to nearest, ties to even.
pub uninterp spec fn product(a: u32, b: u32) -> u32;

/// The quotient of two binary32 values, rounded to nearest, ties to even.
pub uninterp spec fn quotient(a: u32, b: u32) -> u32;

/// The remainder of dividing one binary32 value by another, with the sign of
/// the dividend.
pub uninterp spec fn remainder(a: u32, b: u32) -> u32;

/// Calls `Float::add_r` of rustc_apfloat on two `Single` values made with
/// `from_bits`, rounding to nearest, and takes the bits of the result. The
/// contract only gives that result its name.
#[verifier::external_body]
pub(crate) fn plus(a: u32, b: u32) -> (r: u32)
    ensures
        r == sum(a, b),
{
    let x = Single::from_bits(a as u128);
    let y = Single::from_bits(b as u128);
    x.add_r(y, Round::NearestTiesToEven).value.to_bits() as u32
}

/// Calls `Float::sub_r` of rustc_apfloat in the same way. The contract only
/// gives the result its name.
#[verifier::external_body]
pub(crate) fn minus(a: u32, b: u32) -> (r: u32)
    ensures
        r == difference(a, b),
{
    let x = Single::from_bits(a as u128);
    let y = Single::from_bits(b as u128);
    x.sub_r(y, Round::NearestTiesToEven).value.to_bits() as u32
}

/// Calls `Float::mul_r` of rustc_apfloat in the same way. The contract only
/// gives the result its name.
#[verifier::external_body]
pub(crate) fn times(a: u32, b: u32) -> (r: u32)
    ensures
        r == product(a, b),
{
    let x = Single::from_bits(a as u128);
    let y = Single::from_bits(b as u128);
    x.mul_r(y, Round::NearestTiesToEven).value.to_bits() as u32
}

/// Calls `Float::div_r` of rustc_apfloat in the same way. The contract only
/// gives the result its name.
#[verifier::external_body]
pub(crate) fn over(a: u32, b: u32) -> (r: u32)
    ensures
        r == quotient(a, b),
{
    let x = Single::from_bits(a as u128);
    let y = Single::from_bits(b as u128);
    x.div_r(y, Round::NearestTiesToEven).value.to_bits() as u32
}

/// Calls `Float::c_fmod` of rustc_apfloat in the same way. The contract only
/// gives the result its name.
#[verifier::external_body]
pub(crate) fn modulo(a: u32, b: u32) -> (r: u32)
    ensures
        r == remainder(a, b),
{
    let x = Single::from_bits(a as u128);
    let y = Single::from_bits(b as u128);
    x.c_fmod(y).value.to_bits() as u32
}

/// The decimal text of a binary32 value, rounded to at most `digits`
/// significant digits. It has an exponent where it would need zeros behind
/// those digits to fill the places up to the decimal point.
pub uninterp spec fn rounded_text(bits: u32, digits: nat) -> Seq<char>;

/// Formats a `Single` of rustc_apfloat, made with `from_bits`, through its
/// `Display` impl, with the precision `digits` and the width 50, which keeps
/// it from using an exponent for small values. The precision is held to at
/// most 50, far below where the formatter's own arithmetic on it could run
/// over. The contract only gives the text its name.
#[verifier::external_body]
pub(crate) fn to_rounded_text(bits: u32, digits: usize) -> (r: String)
    requires
        1 <= digits <= ALL_DIGITS,
    ensures
        r@ == rounded_text(bits, digits as nat),
{
    format!("{:50.*}", digits, Single::from_bits(bits as u128))
}

/// The largest number of significant digits that a binary32 value needs to
/// be told from every other.
pub const DIGITS: usize = 9;

/// A number of digits that no binary32 value of which 9 digits do not
/// suffice asks for more than.
pub const ALL_DIGITS: usize = 50;

/// The first place from `from` on at which the text holds the character;
/// the length of the text where it holds it nowhere.
pub open spec fn position(text: Seq<char>, c: char, from: int) -> int
    decreases text.len() - from,
{
    if from < 0 || from >= text.len() {
        text.len() as int
    } else if text[from] == c {
        from
    } else {
        position(text, c, from + 1)
    }
}

/// The value of a decimal digit.
pub open spec fn digit_of(c: char) -> Option<nat> {
    if c == '0' {
        Some(0nat)
    } else if c == '1' {
        Some(1nat)
    } else if c == '2' {
        Some(2nat)
    } else if c == '3' {
        Some(3nat)
    } else if c == '4' {
        Some(4nat)
    } else if c == '5' {
        Some(5nat)
    } else if c == '6' {
        Some(6nat)
    } else if c == '7' {
        Some(7nat)
    } else if c == '8' {
        Some(8nat)
    } else if c == '9' {
        Some(9nat)
    } else {
        None
    }
}

/// The natural number that decimal digits write down; none where a
/// character is no digit.
pub open spec fn digits_value(digits: Seq<char>) -> Option<nat>
    decreases digits.len(),
{
    if digits.len() == 0 {
        Some(0nat)
    } else {
        match (digits_value(digits.drop_last()), digit_of(digits.last())) {
            (Some(v), Some(d)) => Some(10 * v + d),
            _ => None,
        }
    }
}

/// As many zeros as asked for.
pub open spec fn zeros(k: nat) -> Seq<char>
    decreases k,
{
    if k == 0 {
        Seq::empty()
    } else {
        zeros((k - 1) as nat) + "0"@
    }
}

/// The text without its exponent. A text of the shape `a.bE+n`, with `n` of
/// up to 3 digits and at least as large as the number of digits in `b`, is
/// written out as the digits of `a` and `b` and then zeros up to the decimal
/// point; any other text stays as it is.
pub open spec fn plain_form(text: Seq<char>) -> Seq<char> {
    let n = text.len() as int;
    let e = position(text, 'E', 0);
    let d = position(text, '.', 0);
    if e >= n || d >= e || e + 2 >= n || n - (e + 2) > 3 || text[e + 1] != '+' {
        text
    } else {
        match digits_value(text.subrange(e + 2, n)) {
            Some(x) => if x >= e - d - 1 {
                text.subrange(0, d) + text.subrange(d + 1, e) + zeros((x - (e - d - 1)) as nat)
            } else {
                text
            },
            None => text,
        }
    }
}

/// The text with a decimal point: itself where it has one, else with `.0`
/// behind it.
pub open spec fn with_point(text: Seq<char>) -> Seq<char> {
    if position(text, '.', 0) < text.len() {
        text
    } else {
        text + ".0"@
    }
}

/// The digits of a text counted up by one in their last place. A 9 becomes 0
/// and the place before it is counted up; a decimal point is passed over;
/// where every digit was a 9, a 1 is put in front of them.
pub open spec fn counted_up(text: Seq<char>) -> Seq<char>
    decreases text.len(),
{
    if text.len() == 0 {
        "1"@
    } else if text.last() == '9' {
        counted_up(text.drop_last()) + "0"@
    } else if text.last() == '.' {
        counted_up(text.drop_last()) + "."@
    } else {
        match digit_of(text.last()) {
            Some(d) => text.drop_last() + digit(d + 1),
            None => text + "1"@,
        }
    }
}

/// The text with its digits in front of the exponent counted up by one in
/// their last place.
pub open spec fn raised(text: Seq<char>) -> Seq<char> {
    let e = position(text, 'E', 0);
    counted_up(text.subrange(0, e)) + text.subrange(e, text.len() as int)
}

/// Whether the text, written without its exponent and with a decimal point,
/// is read back as the value.
pub open spec fn suffices(bits: u32, text: Seq<char>) -> bool {
    crate::val::parsed(with_point(plain_form(text))) == crate::val::Term::Num(bits)
}

/// The digits of a text from its first digit that is no 0 on, without sign
/// and decimal point.
pub open spec fn significant(text: Seq<char>) -> Seq<char>
    decreases text.len(),
{
    if text.len() == 0 {
        Seq::empty()
    } else {
        let front = significant(text.drop_last());
        let c = text.last();
        if digit_of(c) is None || (c == '0' && front.len() == 0) {
            front
        } else {
            front.push(c)
        }
    }
}

/// The digits of a text in front of its exponent, from the first that is no
/// 0 on.
pub open spec fn digits_of(text: Seq<char>) -> Seq<char> {
    significant(text.subrange(0, position(text, 'E', 0)))
}

/// Whether the value lies nearer to the text raised than to the text: the
/// digits of the text are the first of the digits of the value written out
/// with 50 digits, and the digit that follows them there is 5 or more.
pub open spec fn nearer_raised(bits: u32, text: Seq<char>) -> bool {
    let short = digits_of(text);
    let long = digits_of(rounded_text(bits, ALL_DIGITS as nat));
    short.len() < long.len() && long.subrange(0, short.len() as int) == short && (match digit_of(
        long[short.len() as int],
    ) {
        Some(d) => d >= 5,
        None => false,
    })
}

/// The text with as many zeros behind the digits in front of its exponent as
/// it takes to make them `count` digits, behind a decimal point where the
/// text has none. The rounded text leaves such zeros out.
pub open spec fn filled(text: Seq<char>, count: nat) -> Seq<char> {
    let e = position(text, 'E', 0);
    let head = text.subrange(0, e);
    let have = significant(head).len();
    if have >= count {
        text
    } else {
        head + (if position(head, '.', 0) < head.len() {
            Seq::<char>::empty()
        } else {
            "."@
        }) + zeros((count - have) as nat) + text.subrange(e, text.len() as int)
    }
}

/// Of a rounded text of `count` digits and the same text raised in its last
/// digit, the one that suffices, and the nearer one where both do; none
/// where neither does.
pub open spec fn chosen(bits: u32, rounded: Seq<char>, count: nat) -> Option<Seq<char>> {
    let full = filled(rounded, count);
    let low = suffices(bits, rounded);
    let high = suffices(bits, raised(full));
    if high && (!low || nearer_raised(bits, full)) {
        Some(plain_form(raised(full)))
    } else if low {
        Some(plain_form(rounded))
    } else {
        None
    }
}

/// The text of the fewest digits, from `from` up to 9, that suffices: for
/// each number of digits the rounded text is tried as it is and with its
/// last digit counted up, since the rounded text may end below the value.
/// Without one that suffices it is the text with 50 digits. In every case
/// the text is without its exponent.
pub open spec fn shortest(bits: u32, from: nat) -> Seq<char>
    decreases 10 - from,
{
    if from > DIGITS {
        plain_form(rounded_text(bits, ALL_DIGITS as nat))
    } else {
        match chosen(bits, rounded_text(bits, from), from) {
            Some(text) => text,
            None => shortest(bits, from + 1),
        }
    }
}

/// Whether the pattern is an infinity.
pub open spec fn is_infinite(bits: u32) -> bool {
    magnitude(bits) == INFINITY
}

/// The decimal text of a binary32 value: `NaN`, `inf` or `-inf` for what is
/// no finite number; else the fewest digits that are read back as the same
/// value, with zeros behind them up to the decimal point where they end
/// before it.
pub open spec fn text(bits: u32) -> Seq<char> {
    if is_nan(bits) {
        "NaN"@
    } else if is_infinite(bits) {
        if is_negative(bits) {
            "-inf"@
        } else {
            "inf"@
        }
    } else {
        shortest(bits, 1)
    }
}

/// The first place at which the text holds the character.
fn find_char(text: &str, c: char) -> (r: usize)
    ensures
        r == position(text@, c, 0),
        r <= text@.len(),
{
    let n = text.unicode_len();
    let mut i: usize = 0;
    while i < n
        invariant
            i <= n,
            n == text@.len(),
            position(text@, c, 0) == position(text@, c, i as int),
        decreases n - i,
    {
        if text.get_char(i) == c {
            return i;
        }
        i += 1;
    }
    n
}

/// The value of a decimal digit.
fn digit_value(c: char) -> (r: Option<usize>)
    ensures
        match r {
            Some(d) => digit_of(c) == Some(d as nat) && d <= 9,
            None => digit_of(c) is None,
        },
{
    if c == '0' {
        Some(0)
    } else if c == '1' {
        Some(1)
    } else if c == '2' {
        Some(2)
    } else if c == '3' {
        Some(3)
    } else if c == '4' {
        Some(4)
    } else if c == '5' {
        Some(5)
    } else if c == '6' {
        Some(6)
    } else if c == '7' {
        Some(7)
    } else if c == '8' {
        Some(8)
    } else if c == '9' {
        Some(9)
    } else {
        None
    }
}

/// The number that the characters from `from` on write down, of which
/// there are at most 3.
fn read_digits(text: &str, from: usize, n: usize) -> (r: Option<usize>)
    requires
        n == text@.len(),
        from <= n,
        n - from <= 3,
    ensures
        match r {
            Some(x) => digits_value(text@.subrange(from as int, n as int)) == Some(x as nat),
            None => digits_value(text@.subrange(from as int, n as int)) is None,
        },
{
    let mut acc: usize = 0;
    let mut i: usize = from;
    assert(text@.subrange(from as int, from as int) =~= Seq::<char>::empty());
    while i < n
        invariant
            from <= i <= n,
            n == text@.len(),
            n - from <= 3,
            digits_value(text@.subrange(from as int, i as int)) == Some(acc as nat),
            i - from == 0 ==> acc == 0,
            i - from == 1 ==> acc < 10,
            i - from == 2 ==> acc < 100,
            i - from == 3 ==> acc < 1000,
        decreases n - i,
    {
        let ghost longer = text@.subrange(from as int, i + 1);
        assert(longer.drop_last() =~= text@.subrange(from as int, i as int));
        assert(longer.last() == text@[i as int]);
        match digit_value(text.get_char(i)) {
            Some(d) => {
                acc = 10 * acc + d;
            },
            None => {
                proof {
                    lemma_digits_stay_bad(text@, from as int, i + 1, n as int);
                }
                return None;
            },
        }
        i += 1;
    }
    Some(acc)
}

/// Once a stretch of a text holds what is no digit, no longer stretch from
/// the same place writes a number down.
proof fn lemma_digits_stay_bad(text: Seq<char>, from: int, i: int, n: int)
    requires
        0 <= from <= i <= n <= text.len(),
        digits_value(text.subrange(from, i)) is None,
    ensures
        digits_value(text.subrange(from, n)) is None,
    decreases n - i,
{
    if i < n {
        lemma_digits_stay_bad(text, from, i, n - 1);
        assert(text.subrange(from, n).drop_last() =~= text.subrange(from, n - 1));
    }
}

/// The text without its exponent.
fn plain(text: String) -> (r: String)
    ensures
        r@ == plain_form(text@),
{
    let t = text.as_str();
    let n = t.unicode_len();
    let e = find_char(t, 'E');
    let d = find_char(t, '.');
    if e >= n || d >= e || n - e <= 2 || n - (e + 2) > 3 {
        return text;
    }
    if t.get_char(e + 1) != '+' {
        return text;
    }
    match read_digits(t, e + 2, n) {
        Some(x) => {
            let fraction = e - d - 1;
            if x >= fraction {
                let mut out = t.substring_char(0, d).to_owned();
                out.append(t.substring_char(d + 1, e));
                let mut k: usize = 0;
                while k < x - fraction
                    invariant
                        k <= x - fraction,
                        out@ == text@.subrange(0, d as int) + text@.subrange(d + 1, e as int) + zeros(
                            k as nat,
                        ),
                    decreases x - fraction - k,
                {
                    let ghost before = out@;
                    out.append("0");
                    assert(out@ =~= text@.subrange(0, d as int) + text@.subrange(d + 1, e as int)
                        + zeros((k + 1) as nat));
                    k += 1;
                }
                out
            } else {
                text
            }
        },
        None => text,
    }
}

/// The text with a decimal point.
fn pointed(text: &str) -> (r: String)
    ensures
        r@ == with_point(text@),
{
    let n = text.unicode_len();
    let mut out = text.to_owned();
    if find_char(text, '.') >= n {
        out.append(".0");
    }
    out
}

/// The first `n` characters of a text with their digits counted up by one
/// in the last place.
fn count_up(text: &str, n: usize) -> (r: String)
    requires
        n <= text@.len(),
    ensures
        r@ == counted_up(text@.subrange(0, n as int)),
    decreases n,
{
    if n == 0 {
        assert(text@.subrange(0, 0) =~= Seq::<char>::empty());
        return "1".to_owned();
    }
    let ghost part = text@.subrange(0, n as int);
    assert(part.drop_last() =~= text@.subrange(0, n - 1));
    assert(part.last() == text@[n - 1]);
    let c = text.get_char(n - 1);
    if c == '9' {
        let mut r = count_up(text, n - 1);
        r.append("0");
        r
    } else if c == '.' {
        let mut r = count_up(text, n - 1);
        r.append(".");
        r
    } else {
        match digit_value(c) {
            Some(d) => {
                let mut r = text.substring_char(0, n - 1).to_owned();
                r.append(digit_text(d + 1));
                r
            },
            None => {
                let mut r = text.substring_char(0, n).to_owned();
                r.append("1");
                r
            },
        }
    }
}

/// The text with its digits in front of the exponent counted up by one in
/// their last place.
fn raise(text: &str) -> (r: String)
    ensures
        r@ == raised(text@),
{
    let n = text.unicode_len();
    let e = find_char(text, 'E');
    let mut r = count_up(text, e);
    r.append(text.substring_char(e, n));
    r
}

/// Whether the text, written with a decimal point, is read back as the
/// value.
fn reads_back(bits: u32, plain_text: &str) -> (r: bool)
    ensures
        r == (crate::val::parsed(with_point(plain_text@)) == crate::val::Term::Num(bits)),
{
    let readable = pointed(plain_text);
    match crate::val::p(readable.as_str()) {
        crate::val::Val::Num(back) => back == bits,
        _ => false,
    }
}

/// The digits of a text in front of its exponent, from the first that is no
/// 0 on.
fn digits(text: &str) -> (r: String)
    ensures
        r@ == digits_of(text@),
{
    let e = find_char(text, 'E');
    let mut out = String::new();
    let mut count: usize = 0;
    let mut i: usize = 0;
    assert(text@.subrange(0, e as int).subrange(0, 0) =~= Seq::<char>::empty());
    while i < e
        invariant
            i <= e <= text@.len(),
            count == out@.len(),
            count <= i,
            out@ == significant(text@.subrange(0, e as int).subrange(0, i as int)),
        decreases e - i,
    {
        let ghost head = text@.subrange(0, e as int);
        let ghost longer = head.subrange(0, i + 1);
        assert(longer.drop_last() =~= head.subrange(0, i as int));
        assert(longer.last() == text@[i as int]);
        let c = text.get_char(i);
        let is_digit = digit_value(c).is_some();
        if is_digit && !(c == '0' && count == 0) {
            let ghost before = out@;
            out.append(text.substring_char(i, i + 1));
            assert(text@.subrange(i as int, i + 1) =~= seq![c]);
            assert(out@ =~= before.push(c));
            count += 1;
        }
        i += 1;
    }
    assert(text@.subrange(0, e as int).subrange(0, e as int) =~= text@.subrange(0, e as int));
    out
}

/// Whether the value lies nearer to the text raised than to the text, given
/// the digits of the value written out with 50 digits.
fn is_nearer_raised(text: &str, long: &String) -> (r: bool)
    ensures
        r == {
            let short = digits_of(text@);
            short.len() < long@.len() && long@.subrange(0, short.len() as int) == short && (
            match digit_of(long@[short.len() as int]) {
                Some(d) => d >= 5,
                None => false,
            })
        },
{
    let short = digits(text);
    let n = short.as_str().unicode_len();
    let m = long.as_str().unicode_len();
    if n >= m {
        return false;
    }
    let front = long.as_str().substring_char(0, n).to_owned();
    if front != short {
        return false;
    }
    match digit_value(long.as_str().get_char(n)) {
        Some(d) => d >= 5,
        None => false,
    }
}

/// The text with zeros behind its digits up to `count` digits.
fn fill(text: &str, count: usize) -> (r: String)
    ensures
        r@ == filled(text@, count as nat),
{
    let n = text.unicode_len();
    let e = find_char(text, 'E');
    let head = text.substring_char(0, e);
    let have = digits(text).as_str().unicode_len();
    if have >= count {
        return text.to_owned();
    }
    let mut r = head.to_owned();
    if find_char(head, '.') >= e {
        r.append(".");
    }
    let ghost start = r@;
    let mut k: usize = 0;
    assert(r@ =~= start + zeros(0));
    while k < count - have
        invariant
            have < count,
            k <= count - have,
            r@ == start + zeros(k as nat),
        decreases count - have - k,
    {
        r.append("0");
        assert(r@ =~= start + zeros((k + 1) as nat));
        k += 1;
    }
    r.append(text.substring_char(e, n));
    r
}

/// Of a rounded text and the same text raised, the one that suffices, and
/// the nearer one where both do.
fn choose_text(bits: u32, rounded: String, count: usize, long: &String) -> (r: Option<String>)
    requires
        long@ == digits_of(rounded_text(bits, ALL_DIGITS as nat)),
    ensures
        match r {
            Some(text) => chosen(bits, rounded@, count as nat) == Some(text@),
            None => chosen(bits, rounded@, count as nat) is None,
        },
{
    let full = fill(rounded.as_str(), count);
    let above = plain(raise(full.as_str()));
    let nearer = is_nearer_raised(full.as_str(), long);
    let below = plain(rounded);
    let low = reads_back(bits, below.as_str());
    let high = reads_back(bits, above.as_str());
    if high && (!low || nearer) {
        Some(above)
    } else if low {
        Some(below)
    } else {
        None
    }
}

/// The decimal text of a binary32 value.
pub fn to_text(bits: u32) -> (r: String)
    ensures
        r@ == text(bits),
{
    if nan(bits) {
        return "NaN".to_owned();
    }
    if bits % SIGN == INFINITY {
        return if bits >= SIGN {
            "-inf".to_owned()
        } else {
            "inf".to_owned()
        };
    }
    let all = to_rounded_text(bits, ALL_DIGITS);
    let long = digits(all.as_str());
    let mut count: usize = 1;
    while count <= DIGITS
        invariant
            1 <= count <= DIGITS + 1,
            all@ == rounded_text(bits, ALL_DIGITS as nat),
            long@ == digits_of(all@),
            text(bits) == shortest(bits, count as nat),
        decreases DIGITS + 1 - count,
    {
        match choose_text(bits, to_rounded_text(bits, count), count, &long) {
            Some(text) => {
                return text;
            },
            None => {},
        }
        count += 1;
    }
    plain(all)
}

/// The text of one decimal digit.
pub open spec fn digit(d: nat) -> Seq<char> {
    if d == 0 {
        "0"@
    } else if d == 1 {
        "1"@
    } else if d == 2 {
        "2"@
    } else if d == 3 {
        "3"@
    } else if d == 4 {
        "4"@
    } else if d == 5 {
        "5"@
    } else if d == 6 {
        "6"@
    } else if d == 7 {
        "7"@
    } else if d == 8 {
        "8"@
    } else {
        "9"@
    }
}

/// The decimal text of a natural number, without leading zeros.
pub open spec fn decimal(n: nat) -> Seq<char>
    decreases n,
{
    if n < 10 {
        digit(n)
    } else {
        decimal(n / 10) + digit(n % 10)
    }
}

/// The text of one decimal digit.
fn digit_text(d: usize) -> (r: &'static str)
    requires
        d < 10,
    ensures
        r@ == digit(d as nat),
{
    if d == 0 {
        "0"
    } else if d == 1 {
        "1"
    } else if d == 2 {
        "2"
    } else if d == 3 {
        "3"
    } else if d == 4 {
        "4"
    } else if d == 5 {
        "5"
    } else if d == 6 {
        "6"
    } else if d == 7 {
        "7"
    } else if d == 8 {
        "8"
    } else {
        "9"
    }
}

/// The decimal text of an index.
pub fn index_text(n: usize) -> (r: String)
    ensures
        r@ == decimal(n as nat),
    decreases n,
{
    if n < 10 {
        digit_text(n).to_owned()
    } else {
        let mut s = index_text(n / 10);
        s.append(digit_text(n % 10));
        s
    }
}

/// The rounded operations on two numbers.
#[derive(Clone, Copy, Debug, PartialEq, Eq, Structural)]
pub enum Arith {
    Plus,
    Minus,
    Times,
    Over,
    Modulo,
}

/// The tests that a chain of numbers can be held to.
#[derive(Clone, Copy, Debug, PartialEq, Eq, Structural)]
pub enum Order {
    Less,
    Greater,
    LessEq,
    GreaterEq,
}

impl Arith {
    /// The result of the operation on two bit patterns.
    pub open spec fn apply(self, a: u32, b: u32) -> u32 {
        match self {
            Arith::Plus => sum(a, b),
            Arith::Minus => difference(a, b),
            Arith::Times => product(a, b),
            Arith::Over => quotient(a, b),
            Arith::Modulo => remainder(a, b),
        }
    }

    /// Carries the operation out on two bit patterns.
    pub fn calc(self, a: u32, b: u32) -> (r: u32)
        ensures
            r == self.apply(a, b),
    {
        match self {
            Arith::Plus => plus(a, b),
            Arith::Minus => minus(a, b),
            Arith::Times => times(a, b),
            Arith::Over => over(a, b),
            Arith::Modulo => modulo(a, b),
        }
    }
}

impl Order {
    /// Whether `next` may follow `prev` in a chain. The test fails where the
    /// opposite comparison holds, so a NaN never breaks a chain.
    pub open spec fn admits(self, prev: u32, next: u32) -> bool {
        match self {
            Order::Less => !num_le(next, prev),
            Order::Greater => !num_le(prev, next),
            Order::LessEq => !num_lt(next, prev),
            Order::GreaterEq => !num_lt(prev, next),
        }
    }

    /// Whether the test holds of no arguments at all: `<=` and `>=` do, `<`
    /// and `>` do not.
    pub open spec fn holds_of_none(self) -> bool {
        self == Order::LessEq || self == Order::GreaterEq
    }

    /// Whether the test holds of no arguments at all.
    pub fn of_none(self) -> (r: bool)
        ensures
            r == self.holds_of_none(),
    {
        match self {
            Order::Less => false,
            Order::Greater => false,
            Order::LessEq => true,
            Order::GreaterEq => true,
        }
    }

    /// Whether `next` may follow `prev` in a chain.
    pub fn test(self, prev: u32, next: u32) -> (r: bool)
        ensures
            r == self.admits(prev, next),
    {
        match self {
            Order::Less => !ge(prev, next),
            Order::Greater => !le(prev, next),
            Order::LessEq => !gt(prev, next),
            Order::GreaterEq => !lt(prev, next),
        }
    }
}

/// 2 to the power `k`.
pub open spec fn pow2(k: nat) -> nat
    decreases k,
{
    if k == 0 {
        1
    } else {
        2 * pow2((k - 1) as nat)
    }
}

/// The exponent field of the pattern.
pub open spec fn exponent(bits: u32) -> int {
    (magnitude(bits) / 0x80_0000) as int
}

/// The significand of a normal value, with its leading bit, as an integer:
/// the value is this integer times 2 to the power `exponent - 150`.
pub open spec fn significand(bits: u32) -> int {
    0x80_0000 + magnitude(bits) % 0x80_0000
}

/// The whole part of the magnitude of a finite value below 2 to the power 31.
pub open spec fn whole(bits: u32) -> int {
    let e = exponent(bits);
    if e < 127 {
        0
    } else if e >= 150 {
        significand(bits) * pow2((e - 150) as nat)
    } else {
        significand(bits) / (pow2((150 - e) as nat) as int)
    }
}

/// The value as an `i32`: its whole part, the fraction dropped; the nearest
/// `i32` where the whole part does not fit; 0 for a NaN.
pub open spec fn truncated(bits: u32) -> i32 {
    if is_nan(bits) {
        0
    } else if exponent(bits) >= 158 {
        if is_negative(bits) {
            i32::MIN
        } else {
            i32::MAX
        }
    } else if is_negative(bits) {
        (-whole(bits)) as i32
    } else {
        whole(bits) as i32
    }
}

/// The powers of 2 that the conversion to an integer meets.
proof fn lemma_pow2_bounds()
    ensures
        pow2(0) == 1,
        pow2(7) == 128,
        pow2(23) == 0x80_0000,
        forall|k: nat| k < 23 ==> #[trigger] pow2(k) <= 0x40_0000,
        forall|k: nat| k <= 7 ==> #[trigger] pow2(k) <= 128,
        forall|k: nat| #[trigger] pow2(k) >= 1,
{
    reveal_with_fuel(pow2, 24);
    assert forall|k: nat| k < 23 implies #[trigger] pow2(k) <= 0x40_0000 by {
        lemma_pow2_step(k, 22);
    }
    assert forall|k: nat| k <= 7 implies #[trigger] pow2(k) <= 128 by {
        lemma_pow2_step(k, 7);
    }
    assert forall|k: nat| #[trigger] pow2(k) >= 1 by {
        lemma_pow2_step(0, k);
    }
}

/// The powers of 2 rise with the exponent, from 1.
pub proof fn lemma_pow2_step(a: nat, b: nat)
    requires
        a <= b,
    ensures
        1 <= pow2(a) <= pow2(b),
    decreases b,
{
    if b > 0 {
        if a < b {
            lemma_pow2_step(a, (b - 1) as nat);
        } else {
            lemma_pow2_step((a - 1) as nat, (b - 1) as nat);
        }
    }
}

/// The value as an `i32`, the fraction dropped.
pub fn to_int(bits: u32) -> (r: i32)
    ensures
        r == truncated(bits),
{
    if nan(bits) {
        return 0;
    }
    let negative = bits >= SIGN;
    let m: u32 = bits % SIGN;
    let e: u32 = m / 0x80_0000;
    if e >= 158 {
        return if negative {
            i32::MIN
        } else {
            i32::MAX
        };
    }
    if e < 127 {
        return 0;
    }
    let mut w: u64 = 0x80_0000u64 + (m % 0x80_0000) as u64;
    proof {
        lemma_pow2_bounds();
    }
    if e >= 150 {
        let mut k: u32 = 0;
        while k < e - 150
            invariant
                150 <= e < 158,
                k <= e - 150,
                w == significand(bits) * pow2(k as nat),
                w <= 0x100_0000 * pow2(k as nat),
            decreases e - 150 - k,
        {
            proof {
                lemma_pow2_bounds();
                assert(pow2(k as nat) <= 128);
                assert(w <= 0x100_0000 * 128) by (nonlinear_arith)
                    requires
                        w <= 0x100_0000 * pow2(k as nat),
                        pow2(k as nat) <= 128,
                ;
                assert(significand(bits) * pow2((k + 1) as nat) == 2 * (significand(bits) * pow2(
                    k as nat,
                ))) by (nonlinear_arith)
                    requires
                        pow2((k + 1) as nat) == 2 * pow2(k as nat),
                ;
            }
            w = w * 2;
            k += 1;
        }
        proof {
            lemma_pow2_bounds();
            assert(w <= 0x100_0000 * 128) by (nonlinear_arith)
                requires
                    w <= 0x100_0000 * pow2(k as nat),
                    pow2(k as nat) <= 128,
            ;
        }
    } else {
        let mut k: u32 = 0;
        while k < 150 - e
            invariant
                127 <= e < 150,
                k <= 150 - e,
                w == significand(bits) / (pow2(k as nat) as int),
                w <= 0x100_0000,
            decreases 150 - e - k,
        {
            proof {
                lemma_pow2_bounds();
                let d = pow2(k as nat) as int;
                let s = significand(bits);
                assert(d >= 1);
                assert((s / d) / 2 == s / (d * 2)) by (nonlinear_arith)
                    requires
                        d >= 1,
                        s >= 0,
                ;
            }
            w = w / 2;
            k += 1;
        }
    }
    assert(w == whole(bits));
    assert(w < 0x8000_0000);
    if negative {
        let r: i64 = 0 - (w as i64);
        r as i32
    } else {
        w as i32
    }
}

/// The whole part of the binary logarithm of a positive number: the place of
/// its highest bit.
pub open spec fn log2(m: nat) -> nat
    decreases m,
{
    if m <= 1 {
        0
    } else {
        1 + log2(m / 2)
    }
}

/// The bit pattern made of a sign, an exponent field, and a significand with
/// its leading bit.
pub open spec fn assembled(negative: bool, e: int, sig: int) -> u32 {
    ((if negative {
        SIGN as int
    } else {
        0
    }) + e * 0x80_0000 + (sig - 0x80_0000)) as u32
}

/// The significand and the exponent field of the binary32 value nearest to a
/// positive integer. An integer of at most 24 bits is its own significand,
/// moved up to 24 bits. A longer one loses its low bits: it goes to the
/// nearer of the two values around it, and half-way between them to the one
/// with the even significand; where that carries into a 25th bit, the
/// exponent rises.
pub open spec fn nearest(m: int) -> (int, int) {
    let k = log2(m as nat) as int;
    if k <= 23 {
        (m * pow2((23 - k) as nat), 127 + k)
    } else {
        let d = pow2((k - 23) as nat) as int;
        let q = m / d;
        let r = m % d;
        let up = 2 * r > d || (2 * r == d && q % 2 == 1);
        let q2 = if up {
            q + 1
        } else {
            q
        };
        if q2 == 0x100_0000 {
            (0x80_0000, 128 + k)
        } else {
            (q2, 127 + k)
        }
    }
}

/// The binary32 value nearest to an integer, ties to even.
pub open spec fn of_int(n: i32) -> u32 {
    if n == 0 {
        ZERO
    } else {
        let m = if n < 0 {
            -(n as int)
        } else {
            n as int
        };
        assembled(n < 0, nearest(m).1, nearest(m).0)
    }
}

/// Powers of 2 multiply by adding their exponents.
pub proof fn lemma_pow2_adds(a: nat, b: nat)
    ensures
        pow2(a + b) == pow2(a) * pow2(b),
    decreases a,
{
    if a > 0 {
        lemma_pow2_adds((a - 1) as nat, b);
        assert(pow2(a + b) == 2 * pow2((a - 1) as nat + b));
        assert(2 * (pow2((a - 1) as nat) * pow2(b)) == (2 * pow2((a - 1) as nat)) * pow2(b))
            by (nonlinear_arith);
    } else {
        assert(pow2(0) == 1);
        assert(1 * pow2(b) == pow2(b));
    }
}

/// The powers of 2 that mark the fields of a pattern.
pub proof fn lemma_pow2_values()
    ensures
        pow2(0) == 1,
        pow2(1) == 2,
        pow2(8) == 0x100,
        pow2(23) == 0x80_0000,
        pow2(24) == 0x100_0000,
        pow2(25) == 0x200_0000,
        pow2(31) == 0x8000_0000,
        pow2(32) == 0x1_0000_0000,
{
    reveal_with_fuel(pow2, 9);
    assert(pow2(8) == 0x100);
    lemma_pow2_adds(8, 8);
    lemma_pow2_adds(16, 7);
    assert(pow2(7) == 0x80);
    assert(pow2(16) == 0x1_0000);
    assert(pow2(23) == 0x80_0000);
    lemma_pow2_adds(23, 1);
    lemma_pow2_adds(24, 1);
    lemma_pow2_adds(23, 8);
    lemma_pow2_adds(31, 1);
}

/// A positive number lies between the power of 2 of its logarithm and the
/// next.
pub proof fn lemma_log2_bounds(m: nat)
    requires
        m >= 1,
    ensures
        pow2(log2(m)) <= m < pow2(log2(m) + 1),
    decreases m,
{
    if m > 1 {
        lemma_log2_bounds(m / 2);
        assert(pow2(log2(m)) == 2 * pow2(log2(m / 2)));
        assert(pow2(log2(m) + 1) == 2 * pow2(log2(m / 2) + 1));
    } else {
        assert(pow2(1) == 2 * pow2(0));
    }
}

/// A number below a power of 2 has a logarithm below the exponent.
pub proof fn lemma_log2_below(m: nat, j: nat)
    requires
        1 <= m < pow2(j),
    ensures
        log2(m) < j,
{
    lemma_log2_bounds(m);
    if log2(m) >= j {
        lemma_pow2_step(j, log2(m));
    }
}

/// The place of the highest bit of a number of at most 32 bits.
fn highest_bit(m: u64) -> (k: u32)
    requires
        1 <= m < 0x1_0000_0000,
    ensures
        k == log2(m as nat),
        k <= 31,
{
    proof {
        lemma_pow2_values();
        lemma_log2_below(m as nat, 32);
    }
    let mut k: u32 = 0;
    let mut t: u64 = m;
    while t > 1
        invariant
            t >= 1,
            k + log2(t as nat) == log2(m as nat),
            log2(m as nat) <= 31,
        decreases t,
    {
        t = t / 2;
        k += 1;
    }
    k
}

/// 2 to the power `j`, for a power of at most 24 bits.
fn power_of_two(j: u32) -> (d: u64)
    requires
        j <= 23,
    ensures
        d == pow2(j as nat),
        1 <= d <= 0x80_0000,
{
    proof {
        lemma_pow2_values();
    }
    let mut d: u64 = 1;
    let mut i: u32 = 0;
    while i < j
        invariant
            i <= j <= 23,
            d == pow2(i as nat),
            1 <= d <= 0x80_0000,
            pow2(23) == 0x80_0000,
        decreases j - i,
    {
        proof {
            lemma_pow2_step((i + 1) as nat, 23);
        }
        d = d * 2;
        i += 1;
    }
    d
}

/// The significand and the exponent field of the value nearest to a
/// positive integer of at most 32 bits.
fn nearest_to(m: u64) -> (r: (u64, u32))
    requires
        1 <= m <= 0x8000_0000,
    ensures
        r.0 == nearest(m as int).0,
        r.1 == nearest(m as int).1,
        0x80_0000 <= r.0 < 0x100_0000,
        127 <= r.1 <= 159,
{
    let k = highest_bit(m);
    proof {
        lemma_pow2_values();
        lemma_log2_bounds(m as nat);
    }
    if k <= 23 {
        let d = power_of_two(23 - k);
        proof {
            lemma_pow2_adds((k + 1) as nat, (23 - k) as nat);
            lemma_pow2_adds(k as nat, (23 - k) as nat);
            assert(m * d < 0x100_0000) by (nonlinear_arith)
                requires
                    m < pow2((k + 1) as nat),
                    d >= 1,
                    pow2((k + 1) as nat) * d == 0x100_0000,
            ;
            assert(m * d >= 0x80_0000) by (nonlinear_arith)
                requires
                    m >= pow2(k as nat),
                    d >= 1,
                    pow2(k as nat) * d == 0x80_0000,
            ;
        }
        (m * d, 127 + k)
    } else {
        let d = power_of_two(k - 23);
        let q: u64 = m / d;
        let rest: u64 = m % d;
        proof {
            lemma_pow2_adds(23, (k - 23) as nat);
            lemma_pow2_adds(24, (k - 23) as nat);
            assert(0x80_0000 <= q < 0x100_0000) by (nonlinear_arith)
                requires
                    q == m / d,
                    d >= 1,
                    m >= 0x80_0000 * d,
                    m < 0x100_0000 * d,
            ;
        }
        let up = 2 * rest > d || (2 * rest == d && q % 2 == 1);
        let rounded: u64 = if up {
            q + 1
        } else {
            q
        };
        if rounded == 0x100_0000 {
            (0x80_0000, 128 + k)
        } else {
            (rounded, 127 + k)
        }
    }
}

/// The binary32 value nearest to an integer, ties to even.
pub fn from_int(n: i32) -> (r: u32)
    ensures
        r == of_int(n),
{
    if n == 0 {
        return 0;
    }
    let negative = n < 0;
    let m: u64 = if negative {
        (0 - (n as i64)) as u64
    } else {
        n as u64
    };
    let (sig, e) = nearest_to(m);
    let sign: u32 = if negative {
        SIGN
    } else {
        0
    };
    let fraction: u32 = (sig - 0x80_0000) as u32;
    sign + e * 0x80_0000 + fraction
}

/// An assembled pattern holds what it was made of, and is no NaN.
pub proof fn lemma_assembled(negative: bool, e: int, sig: int)
    requires
        0 <= e <= 254,
        0x80_0000 <= sig < 0x100_0000,
    ensures
        is_negative(assembled(negative, e, sig)) == negative,
        exponent(assembled(negative, e, sig)) == e,
        significand(assembled(negative, e, sig)) == sig,
        !is_nan(assembled(negative, e, sig)),
{
}

} // verus!
