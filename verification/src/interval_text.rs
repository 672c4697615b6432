//! Number text for the minimum interval.
//!
//! The interval control hands over text that names a number of milliseconds,
//! such as `250`, `12.5`, `+3`, `1e3` or `inf`. This module says which texts
//! are numbers, which of them are positive, and what each is worth in whole
//! microseconds.
//!
//! A text is a number where it is an optional sign followed by `inf`,
//! `infinity` or digits with an optional decimal point and an optional
//! exponent: `e` or `E`, an optional sign, and digits. There is at least one
//! digit before the exponent, and capital letters count as small ones.
//! Blanks are not part of a number, and neither is anything behind it.

use vstd::prelude::*;

verus! {

/// The number of decimal places between milliseconds and microseconds.
pub const MICRO_PLACES: u64 = 3;

/// Whether `c` is one of the ten decimal digits.
pub open spec fn is_digit(c: char) -> bool {
    '0' <= c <= '9'
}

/// The worth of a decimal digit.
pub open spec fn digit_value(c: char) -> nat {
    (c as int - '0' as int) as nat
}

/// Whether every character of `s` is a decimal digit.
pub open spec fn all_digits(s: Seq<char>) -> bool {
    forall|i: int| 0 <= i < s.len() ==> is_digit(#[trigger] s[i])
}

/// The number that the digits of `s` write in base ten; zero for no digits.
pub open spec fn digits_value(s: Seq<char>) -> nat
    decreases s.len(),
{
    if s.len() == 0 {
        0
    } else {
        digits_value(s.drop_last()) * 10 + digit_value(s.last())
    }
}

/// The place of the first character of `s` that is `a` or `b`, or the length
/// of `s` where it holds neither.
pub open spec fn first_of(s: Seq<char>, a: char, b: char) -> int
    decreases s.len(),
{
    if s.len() == 0 || s[0] == a || s[0] == b {
        0
    } else {
        1 + first_of(s.drop_first(), a, b)
    }
}

/// The small letter for a capital letter of the Latin alphabet, and any other
/// character as it is.
pub open spec fn lower(c: char) -> char {
    if 'A' <= c <= 'Z' {
        (c as int + 32) as char
    } else {
        c
    }
}

/// Whether `s` spells `word`, capital letters counting as small ones. The
/// word is written in small letters.
pub open spec fn spells(s: Seq<char>, word: Seq<char>) -> bool {
    s.len() == word.len() && forall|i: int| 0 <= i < s.len() ==> lower(#[trigger] s[i]) == word[i]
}

/// Whether `s` starts with a plus or a minus sign.
pub open spec fn has_sign(s: Seq<char>) -> bool {
    s.len() > 0 && (s[0] == '+' || s[0] == '-')
}

/// Whether `s` starts with a minus sign.
pub open spec fn is_negative(s: Seq<char>) -> bool {
    s.len() > 0 && s[0] == '-'
}

/// The text without its sign.
pub open spec fn unsigned_part(s: Seq<char>) -> Seq<char> {
    if has_sign(s) {
        s.skip(1)
    } else {
        s
    }
}

/// Whether the unsigned text `body` names infinity.
pub open spec fn is_infinity(body: Seq<char>) -> bool {
    spells(body, seq!['i', 'n', 'f']) || spells(body, seq!['i', 'n', 'f', 'i', 'n', 'i', 't', 'y'])
}

/// Whether the unsigned text `body` has an exponent mark.
pub open spec fn has_exponent(body: Seq<char>) -> bool {
    first_of(body, 'e', 'E') < body.len()
}

/// What stands before the exponent mark of `body`: all of it where it has
/// none.
pub open spec fn mantissa(body: Seq<char>) -> Seq<char> {
    body.take(first_of(body, 'e', 'E'))
}

/// What stands behind the exponent mark of `body`.
pub open spec fn exponent_text(body: Seq<char>) -> Seq<char> {
    if has_exponent(body) {
        body.skip(first_of(body, 'e', 'E') + 1)
    } else {
        Seq::empty()
    }
}

/// What stands before the decimal point of the mantissa `m`: all of it where
/// it has none.
pub open spec fn whole_part(m: Seq<char>) -> Seq<char> {
    m.take(first_of(m, '.', '.'))
}

/// What stands behind the decimal point of the mantissa `m`.
pub open spec fn fraction_part(m: Seq<char>) -> Seq<char> {
    if first_of(m, '.', '.') < m.len() {
        m.skip(first_of(m, '.', '.') + 1)
    } else {
        Seq::empty()
    }
}

/// Whether `m` is digits with an optional decimal point among, before or
/// behind them, and at least one digit.
pub open spec fn is_mantissa(m: Seq<char>) -> bool {
    &&& all_digits(whole_part(m))
    &&& all_digits(fraction_part(m))
    &&& whole_part(m).len() + fraction_part(m).len() > 0
}

/// Whether `x` is an optional sign and at least one digit.
pub open spec fn is_exponent(x: Seq<char>) -> bool {
    unsigned_part(x).len() > 0 && all_digits(unsigned_part(x))
}

/// The number that the exponent `x` writes.
pub open spec fn exponent_value(x: Seq<char>) -> int {
    if is_negative(x) {
        -(digits_value(unsigned_part(x)) as int)
    } else {
        digits_value(unsigned_part(x)) as int
    }
}

/// Whether the unsigned text `body` writes a number in digits.
pub open spec fn is_number(body: Seq<char>) -> bool {
    is_mantissa(mantissa(body)) && (has_exponent(body) ==> is_exponent(exponent_text(body)))
}

/// The digits of the mantissa of `body`, without the decimal point.
pub open spec fn mantissa_digits(body: Seq<char>) -> Seq<char> {
    whole_part(mantissa(body)) + fraction_part(mantissa(body))
}

/// The exponent of `body`, which is zero where none is written.
pub open spec fn number_exponent(body: Seq<char>) -> int {
    if has_exponent(body) {
        exponent_value(exponent_text(body))
    } else {
        0
    }
}

/// The first `n` of the digits `digits`, with zeros where there are fewer.
pub open spec fn padded(digits: Seq<char>, n: int) -> Seq<char> {
    Seq::new(
        n as nat,
        |i: int|
            if i < digits.len() {
                digits[i]
            } else {
                '0'
            },
    )
}

/// How many digits of the mantissa of `body` stand before the point once the
/// number is written in microseconds: the exponent and the three places
/// between milliseconds and microseconds move the point to the right.
pub open spec fn micros_places(body: Seq<char>) -> int {
    whole_part(mantissa(body)).len() + number_exponent(body) + MICRO_PLACES
}

/// The whole microseconds in the milliseconds that the number `body` names:
/// what stands before the point once it is moved, with the rest cut off.
pub open spec fn number_micros(body: Seq<char>) -> nat {
    if micros_places(body) <= 0 {
        0
    } else {
        digits_value(padded(mantissa_digits(body), micros_places(body)))
    }
}

/// Whether the unsigned text `body` writes a number above zero in digits:
/// one of the digits of its mantissa is not a zero.
pub open spec fn is_positive_number(body: Seq<char>) -> bool {
    is_number(body) && digits_value(mantissa_digits(body)) > 0
}

/// Ten to the power of `k`.
pub open spec fn pow10(k: nat) -> nat
    decreases k,
{
    if k == 0 {
        1
    } else {
        10 * pow10((k - 1) as nat)
    }
}

/// Whether a span of `span` whole microseconds is longer than the
/// milliseconds that the number `body` names, taken exactly: the number is
/// its mantissa digits with the point moved to where `micros_places` says.
pub open spec fn span_exceeds(span: nat, body: Seq<char>) -> bool {
    let digits = mantissa_digits(body);
    let places = micros_places(body);
    if places >= digits.len() {
        span > digits_value(digits) * pow10((places - digits.len()) as nat)
    } else {
        span * pow10((digits.len() - places) as nat) > digits_value(digits)
    }
}

/// What a text is worth as an interval.
///
/// A text that names a number above zero is worth that number's whole
/// microseconds, held to the largest value a `u64` takes; infinity is worth
/// that largest value. Anything else is worth nothing: zero, a number below
/// zero, and a text that names no number.
pub open spec fn interval_of_text(s: Seq<char>) -> Option<u64> {
    let body = unsigned_part(s);
    if is_negative(s) {
        None
    } else if is_infinity(body) {
        Some(u64::MAX)
    } else if is_positive_number(body) {
        if number_micros(body) > u64::MAX {
            Some(u64::MAX)
        } else {
            Some(number_micros(body) as u64)
        }
    } else {
        None
    }
}

/// `first_of` finds the first mark: it is at or before the end, on a mark,
/// and behind no other mark.
pub proof fn lemma_first_of(s: Seq<char>, a: char, b: char)
    ensures
        0 <= first_of(s, a, b) <= s.len(),
        first_of(s, a, b) < s.len() ==> s[first_of(s, a, b)] == a || s[first_of(s, a, b)] == b,
        forall|j: int| 0 <= j < first_of(s, a, b) ==> #[trigger] s[j] != a && s[j] != b,
    decreases s.len(),
{
    if s.len() == 0 || s[0] == a || s[0] == b {
    } else {
        let rest = s.drop_first();
        lemma_first_of(rest, a, b);
        assert forall|j: int| 0 <= j < first_of(s, a, b) implies #[trigger] s[j] != a && s[j]
            != b by {
            if j > 0 {
                assert(rest[j - 1] == s[j]);
            }
        }
    }
}

/// Reading one more digit multiplies what was read by ten and adds the digit.
pub proof fn lemma_digits_value_step(s: Seq<char>, k: int)
    requires
        0 <= k < s.len(),
    ensures
        digits_value(s.take(k + 1)) == digits_value(s.take(k)) * 10 + digit_value(s[k]),
{
    assert(s.take(k + 1).drop_last() =~= s.take(k));
}

/// Whether the bytes are the characters of `s`, one byte to the character.
spec fn is_text_of(bytes: Seq<u8>, s: Seq<char>) -> bool {
    bytes.len() == s.len() && forall|i: int|
        0 <= i < s.len() ==> (#[trigger] s[i]) as int == bytes[i] as int
}

/// Whether the ASCII byte `b` writes a digit.
fn is_digit_byte(b: u8) -> (r: bool)
    ensures
        r == (48 <= b <= 57),
{
    b >= 48 && b <= 57
}

/// The small letter for the ASCII byte of a capital letter, and any other
/// byte as it is.
fn lower_byte(b: u8) -> (r: u8)
    ensures
        r == if 65 <= b <= 90 { (b + 32) as u8 } else { b },
{
    if b >= 65 && b <= 90 {
        b + 32
    } else {
        b
    }
}

/// The end of the digits that start at `from`.
fn scan_digits(bytes: &[u8], from: usize, Ghost(s): Ghost<Seq<char>>) -> (end: usize)
    requires
        is_text_of(bytes@, s),
        from <= bytes@.len(),
    ensures
        from <= end <= s.len(),
        forall|j: int| from <= j < end ==> is_digit(#[trigger] s[j]),
        end < s.len() ==> !is_digit(s[end as int]),
{
    let mut end: usize = from;
    while end < bytes.len() && is_digit_byte(bytes[end])
        invariant
            is_text_of(bytes@, s),
            from <= end <= bytes@.len(),
            forall|j: int| from <= j < end ==> is_digit(#[trigger] s[j]),
        decreases bytes@.len() - end,
    {
        assert(is_digit(s[end as int]));
        end = end + 1;
    }
    assert(end < s.len() ==> !is_digit(s[end as int])) by {
        if end < s.len() {
            assert(s[end as int] as int == bytes@[end as int] as int);
        }
    }
    end
}

/// Whether the text from `start` on names infinity.
fn names_infinity(bytes: &[u8], start: usize, Ghost(s): Ghost<Seq<char>>) -> (r: bool)
    requires
        is_text_of(bytes@, s),
        start <= bytes@.len(),
    ensures
        r == is_infinity(s.skip(start as int)),
{
    let n: usize = bytes.len();
    let ghost body = s.skip(start as int);
    let ghost short = seq!['i', 'n', 'f'];
    let ghost long = seq!['i', 'n', 'f', 'i', 'n', 'i', 't', 'y'];
    proof {
        assert forall|j: int| 0 <= j < body.len() implies (lower(#[trigger] body[j]) as int == (if 65
            <= bytes@[start + j] <= 90 {
            bytes@[start + j] + 32
        } else {
            bytes@[start + j] as int
        })) by {
            assert(body[j] == s[start + j]);
        }
    }
    if n - start == 3 {
        let r = lower_byte(bytes[start]) == 105 && lower_byte(bytes[start + 1]) == 110
            && lower_byte(bytes[start + 2]) == 102;
        proof {
            if spells(body, short) {
                assert(lower(body[0]) == short[0]);
                assert(lower(body[1]) == short[1]);
                assert(lower(body[2]) == short[2]);
            }
        }
        r
    } else if n - start == 8 {
        let r = lower_byte(bytes[start]) == 105 && lower_byte(bytes[start + 1]) == 110
            && lower_byte(bytes[start + 2]) == 102 && lower_byte(bytes[start + 3]) == 105
            && lower_byte(bytes[start + 4]) == 110 && lower_byte(bytes[start + 5]) == 105
            && lower_byte(bytes[start + 6]) == 116 && lower_byte(bytes[start + 7]) == 121;
        proof {
            if spells(body, long) {
                assert(lower(body[0]) == long[0]);
                assert(lower(body[1]) == long[1]);
                assert(lower(body[2]) == long[2]);
                assert(lower(body[3]) == long[3]);
                assert(lower(body[4]) == long[4]);
                assert(lower(body[5]) == long[5]);
                assert(lower(body[6]) == long[6]);
                assert(lower(body[7]) == long[7]);
            }
        }
        r
    } else {
        false
    }
}

/// Where the parts of a number stand in its text.
struct Shape {
    /// The digits before the decimal point stand from here ...
    whole_start: usize,
    /// ... up to here.
    whole_end: usize,
    /// The digits behind the decimal point stand from here ...
    frac_start: usize,
    /// ... up to here.
    frac_end: usize,
    /// Whether the exponent has a minus sign.
    exp_negative: bool,
    /// The digits of the exponent stand from here ...
    exp_start: usize,
    /// ... up to here; there are none where no exponent is written.
    exp_end: usize,
}

impl Shape {
    /// Whether this is the shape of the number that `s` writes behind its
    /// sign.
    spec fn fits(self, s: Seq<char>) -> bool {
        let body = unsigned_part(s);
        &&& self.whole_start <= self.whole_end <= self.frac_start <= self.frac_end
            <= self.exp_start <= self.exp_end <= s.len()
        &&& whole_part(mantissa(body)) == s.subrange(
            self.whole_start as int,
            self.whole_end as int,
        )
        &&& fraction_part(mantissa(body)) == s.subrange(self.frac_start as int, self.frac_end as int)
        &&& all_digits(s.subrange(self.exp_start as int, self.exp_end as int))
        &&& number_exponent(body) == if self.exp_negative {
            -(digits_value(s.subrange(self.exp_start as int, self.exp_end as int)) as int)
        } else {
            digits_value(s.subrange(self.exp_start as int, self.exp_end as int)) as int
        }
    }
}

/// Whether a scan of `body` for a mantissa went as far as `q`: there are
/// digits up to `w`, a decimal point at `w` exactly where `has_point` says
/// so, digits behind the point up to `q`, and no digit at `q`.
spec fn scanned(body: Seq<char>, w: int, has_point: bool, q: int) -> bool {
    &&& 0 <= w <= q <= body.len()
    &&& forall|j: int| 0 <= j < w ==> is_digit(#[trigger] body[j])
    &&& has_point <==> w < body.len() && body[w] == '.'
    &&& has_point ==> w < q && forall|j: int| w < j < q ==> is_digit(#[trigger] body[j])
    &&& !has_point ==> q == w
    &&& q < body.len() ==> !is_digit(body[q])
}

/// No exponent mark stands among the digits and the point of a scan.
proof fn lemma_scan_holds_no_mark(body: Seq<char>, w: int, has_point: bool, q: int)
    requires
        scanned(body, w, has_point, q),
    ensures
        first_of(body, 'e', 'E') >= q,
{
    lemma_first_of(body, 'e', 'E');
    let ei = first_of(body, 'e', 'E');
    if ei < q {
        if ei < w {
            assert(is_digit(body[ei]));
        } else if ei > w {
            assert(is_digit(body[ei]));
        }
    }
}

/// A scan that ends at the end of the text or on the exponent mark has found
/// the mantissa and its parts.
proof fn lemma_scan_finds_mantissa(body: Seq<char>, w: int, has_point: bool, q: int)
    requires
        scanned(body, w, has_point, q),
        q == body.len() || body[q] == 'e' || body[q] == 'E',
    ensures
        first_of(body, 'e', 'E') == q,
        whole_part(mantissa(body)) == body.subrange(0, w),
        fraction_part(mantissa(body)) == body.subrange(if has_point { w + 1 } else { w }, q),
        all_digits(whole_part(mantissa(body))),
        all_digits(fraction_part(mantissa(body))),
{
    lemma_scan_holds_no_mark(body, w, has_point, q);
    lemma_first_of(body, 'e', 'E');
    let m = mantissa(body);
    assert(m =~= body.subrange(0, q));
    lemma_first_of(m, '.', '.');
    let pi = first_of(m, '.', '.');
    assert(pi == w) by {
        if pi < w {
            assert(is_digit(m[pi]));
        } else if pi > w {
            assert(m[w] == body[w]);
        }
    }
    assert(whole_part(m) =~= body.subrange(0, w));
    assert(fraction_part(m) =~= body.subrange(if has_point { w + 1 } else { w }, q));
    assert forall|j: int| 0 <= j < whole_part(m).len() implies is_digit(
        #[trigger] whole_part(m)[j],
    ) by {
        assert(whole_part(m)[j] == body[j]);
    }
    assert forall|j: int| 0 <= j < fraction_part(m).len() implies is_digit(
        #[trigger] fraction_part(m)[j],
    ) by {
        assert(fraction_part(m)[j] == body[j + w + 1]);
    }
}

/// A scan that ends on anything but the exponent mark has found that the
/// text has no mantissa.
proof fn lemma_scan_finds_no_mantissa(body: Seq<char>, w: int, has_point: bool, q: int)
    requires
        scanned(body, w, has_point, q),
        q < body.len(),
        body[q] != 'e',
        body[q] != 'E',
    ensures
        !is_mantissa(mantissa(body)),
{
    lemma_scan_holds_no_mark(body, w, has_point, q);
    lemma_first_of(body, 'e', 'E');
    let m = mantissa(body);
    let c = body[q];
    assert(m[q] == c);
    lemma_first_of(m, '.', '.');
    let pi = first_of(m, '.', '.');
    if has_point {
        assert(m[w] == body[w]);
        assert(pi == w) by {
            if pi < w {
                assert(is_digit(m[pi]));
            }
        }
        assert(fraction_part(m)[q - w - 1] == c);
    } else {
        assert(pi > q) by {
            if pi < q {
                assert(is_digit(m[pi]));
            }
        }
        assert(whole_part(m)[q] == c);
    }
}

/// Scans the text from `start` on for a mantissa: digits, then perhaps a
/// decimal point and more digits. Gives the end of the first digits and the
/// end of the scan.
fn scan_mantissa(bytes: &[u8], start: usize, Ghost(s): Ghost<Seq<char>>) -> (r: (usize, usize))
    requires
        is_text_of(bytes@, s),
        start <= bytes@.len(),
    ensures
        start <= r.0 <= r.1 <= s.len(),
        scanned(
            s.skip(start as int),
            r.0 - start,
            r.0 < s.len() && s[r.0 as int] == '.',
            r.1 - start,
        ),
{
    let n: usize = bytes.len();
    let ghost body = s.skip(start as int);
    let whole_end: usize = scan_digits(bytes, start, Ghost(s));
    let has_point: bool = whole_end < n && bytes[whole_end] == 46;
    let frac_end: usize = if has_point {
        scan_digits(bytes, whole_end + 1, Ghost(s))
    } else {
        whole_end
    };
    proof {
        let w = whole_end - start;
        let q = frac_end - start;
        assert forall|j: int| 0 <= j < w implies is_digit(#[trigger] body[j]) by {
            assert(body[j] == s[j + start]);
        }
        if has_point {
            assert forall|j: int| w < j < q implies is_digit(#[trigger] body[j]) by {
                assert(body[j] == s[j + start]);
            }
        }
        if w < body.len() {
            assert(body[w] == s[whole_end as int]);
        }
        if q < body.len() {
            assert(body[q] == s[frac_end as int]);
        }
    }
    (whole_end, frac_end)
}

/// Scans the text from `from` on for an exponent: perhaps a sign, then
/// digits up to the end of the text. Gives whether the sign is a minus and
/// where the digits start.
fn scan_exponent(bytes: &[u8], from: usize, Ghost(s): Ghost<Seq<char>>) -> (r: Option<
    (bool, usize),
>)
    requires
        is_text_of(bytes@, s),
        from <= bytes@.len(),
    ensures
        r is Some <==> is_exponent(s.skip(from as int)),
        r matches Some((negative, digits_start)) ==> {
            &&& from <= digits_start < s.len()
            &&& negative == is_negative(s.skip(from as int))
            &&& unsigned_part(s.skip(from as int)) == s.subrange(
                digits_start as int,
                s.len() as int,
            )
        },
{
    let n: usize = bytes.len();
    let ghost x = s.skip(from as int);
    let signed: bool = from < n && (bytes[from] == 43 || bytes[from] == 45);
    let negative: bool = from < n && bytes[from] == 45;
    let digits_start: usize = if signed {
        from + 1
    } else {
        from
    };
    let digits_end: usize = scan_digits(bytes, digits_start, Ghost(s));
    proof {
        if from < n {
            assert(x[0] == s[from as int]);
        }
        assert(unsigned_part(x) =~= s.subrange(digits_start as int, s.len() as int));
        if digits_end < n {
            assert(unsigned_part(x)[digits_end - digits_start] == s[digits_end as int]);
        } else {
            assert forall|j: int| 0 <= j < unsigned_part(x).len() implies is_digit(
                #[trigger] unsigned_part(x)[j],
            ) by {
                assert(unsigned_part(x)[j] == s[j + digits_start]);
            }
        }
    }
    if digits_end < n || digits_end == digits_start {
        None
    } else {
        Some((negative, digits_start))
    }
}

/// Finds the parts of the number that the text writes behind its sign, if it
/// writes one in digits.
fn recognize(bytes: &[u8], Ghost(s): Ghost<Seq<char>>) -> (r: Option<Shape>)
    requires
        is_text_of(bytes@, s),
    ensures
        r is Some <==> is_number(unsigned_part(s)),
        r matches Some(shape) ==> shape.fits(s),
{
    let n: usize = bytes.len();
    let start: usize = if n > 0 && (bytes[0] == 43 || bytes[0] == 45) {
        1
    } else {
        0
    };
    let ghost body = unsigned_part(s);
    assert(body =~= s.skip(start as int));
    let (whole_end, frac_end) = scan_mantissa(bytes, start, Ghost(s));
    let has_point: bool = whole_end < n && bytes[whole_end] == 46;
    let frac_start: usize = if has_point {
        whole_end + 1
    } else {
        whole_end
    };
    let ghost w = whole_end - start;
    let ghost q = frac_end - start;
    if frac_end < n && bytes[frac_end] != 101 && bytes[frac_end] != 69 {
        proof {
            assert(body[q] == s[frac_end as int]);
            lemma_scan_finds_no_mantissa(body, w, has_point, q);
        }
        return None;
    }
    proof {
        if frac_end < n {
            assert(body[q] == s[frac_end as int]);
        }
        lemma_scan_finds_mantissa(body, w, has_point, q);
        assert(body.subrange(0, w) =~= s.subrange(start as int, whole_end as int));
        assert(body.subrange(if has_point { w + 1 } else { w }, q) =~= s.subrange(
            frac_start as int,
            frac_end as int,
        ));
    }
    if (whole_end - start) + (frac_end - frac_start) == 0 {
        return None;
    }
    if frac_end == n {
        proof {
            assert(s.subrange(n as int, n as int) =~= Seq::<char>::empty());
        }
        return Some(
            Shape {
                whole_start: start,
                whole_end,
                frac_start,
                frac_end,
                exp_negative: false,
                exp_start: n,
                exp_end: n,
            },
        );
    }
    proof {
        assert(exponent_text(body) =~= s.skip(frac_end + 1));
    }
    match scan_exponent(bytes, frac_end + 1, Ghost(s)) {
        None => None,
        Some((exp_negative, exp_start)) => Some(
            Shape {
                whole_start: start,
                whole_end,
                frac_start,
                frac_end,
                exp_negative,
                exp_start,
                exp_end: n,
            },
        ),
    }
}

/// Ten times `acc` plus `digit`, held to the largest `u64`.
fn push_digit_saturating(acc: u64, digit: u8) -> (r: u64)
    requires
        digit <= 9,
    ensures
        r == if acc * 10 + digit > u64::MAX { u64::MAX } else { (acc * 10 + digit) as u64 },
{
    if acc > (u64::MAX - digit as u64) / 10 {
        u64::MAX
    } else {
        acc * 10 + digit as u64
    }
}

/// Ten times `acc` plus `digit`, held to the largest `u128`.
fn push_digit_saturating_wide(acc: u128, digit: u8) -> (r: u128)
    requires
        digit <= 9,
    ensures
        r == if acc * 10 + digit > u128::MAX { u128::MAX } else { (acc * 10 + digit) as u128 },
{
    if acc > (u128::MAX - digit as u128) / 10 {
        u128::MAX
    } else {
        acc * 10 + digit as u128
    }
}

/// The number that the digits from `from` up to `to` write, held to the
/// largest `u128`.
fn digits_wide(bytes: &[u8], from: usize, to: usize, Ghost(s): Ghost<Seq<char>>) -> (r: u128)
    requires
        is_text_of(bytes@, s),
        from <= to <= bytes@.len(),
        all_digits(s.subrange(from as int, to as int)),
    ensures
        r == if digits_value(s.subrange(from as int, to as int)) > u128::MAX {
            u128::MAX
        } else {
            digits_value(s.subrange(from as int, to as int)) as u128
        },
{
    let ghost digits = s.subrange(from as int, to as int);
    let mut acc: u128 = 0;
    let mut i: usize = from;
    while i < to
        invariant
            is_text_of(bytes@, s),
            from <= i <= to <= bytes@.len(),
            digits == s.subrange(from as int, to as int),
            all_digits(digits),
            acc == if digits_value(digits.take(i - from)) > u128::MAX {
                u128::MAX
            } else {
                digits_value(digits.take(i - from)) as u128
            },
        decreases to - i,
    {
        proof {
            lemma_digits_value_step(digits, i - from);
            assert(digits[i - from] == s[i as int]);
            assert(is_digit(digits[i - from]));
        }
        let digit: u8 = bytes[i] - 48;
        acc = push_digit_saturating_wide(acc, digit);
        i = i + 1;
    }
    assert(digits.take(to - from) =~= digits);
    acc
}

/// The number that the first `count` digits of the mantissa write, with
/// zeros where the mantissa has fewer, held to the largest `u64`.
fn padded_value(bytes: &[u8], shape: &Shape, count: u128, Ghost(s): Ghost<Seq<char>>) -> (r: u64)
    requires
        is_text_of(bytes@, s),
        shape.fits(s),
        is_mantissa(mantissa(unsigned_part(s))),
    ensures
        r == if digits_value(padded(mantissa_digits(unsigned_part(s)), count as int)) > u64::MAX {
            u64::MAX
        } else {
            digits_value(padded(mantissa_digits(unsigned_part(s)), count as int)) as u64
        },
{
    let ghost digits = mantissa_digits(unsigned_part(s));
    let whole_len: usize = shape.whole_end - shape.whole_start;
    let digits_len: usize = whole_len + (shape.frac_end - shape.frac_start);
    proof {
        assert(digits.len() == digits_len);
        assert forall|j: int| 0 <= j < digits_len implies is_digit(#[trigger] digits[j])
            && digits[j] == s[if j < whole_len {
            shape.whole_start + j
        } else {
            shape.frac_start + (j - whole_len)
        }] by {
            if j < whole_len {
                assert(digits[j] == whole_part(mantissa(unsigned_part(s)))[j]);
            } else {
                assert(digits[j] == fraction_part(mantissa(unsigned_part(s)))[j - whole_len]);
            }
        }
    }
    let mut acc: u64 = 0;
    let mut j: u128 = 0;
    while j < count
        invariant
            is_text_of(bytes@, s),
            j <= count,
            whole_len == shape.whole_end - shape.whole_start,
            digits_len == whole_len + (shape.frac_end - shape.frac_start),
            shape.whole_end <= shape.frac_start <= shape.frac_end <= s.len(),
            digits.len() == digits_len,
            forall|k: int|
                0 <= k < digits_len ==> is_digit(#[trigger] digits[k]) && digits[k] == s[if k
                    < whole_len {
                    shape.whole_start + k
                } else {
                    shape.frac_start + (k - whole_len)
                }],
            acc == if digits_value(padded(digits, j as int)) > u64::MAX {
                u64::MAX
            } else {
                digits_value(padded(digits, j as int)) as u64
            },
        decreases count - j,
    {
        let digit: u8 = if j < digits_len as u128 {
            let k: usize = j as usize;
            let at: usize = if k < whole_len {
                shape.whole_start + k
            } else {
                shape.frac_start + (k - whole_len)
            };
            assert(is_digit(digits[k as int]));
            bytes[at] - 48
        } else {
            0
        };
        proof {
            let longer = padded(digits, j + 1);
            assert(longer.drop_last() =~= padded(digits, j as int));
            assert(digit_value(longer.last()) == digit);
        }
        acc = push_digit_saturating(acc, digit);
        j = j + 1;
    }
    acc
}

/// Every zero that is added behind digits multiplies their number by ten.
proof fn lemma_padding_multiplies(digits: Seq<char>, k: nat)
    ensures
        digits_value(padded(digits, (digits.len() + k) as int)) == digits_value(digits) * pow10(k),
    decreases k,
{
    if k == 0 {
        assert(padded(digits, (digits.len() + k) as int) =~= digits);
        assert(digits_value(digits) * pow10(0) == digits_value(digits)) by (nonlinear_arith)
            requires
                pow10(0) == 1,
        ;
    } else {
        lemma_padding_multiplies(digits, (k - 1) as nat);
        let longer = padded(digits, (digits.len() + k) as int);
        let shorter = padded(digits, (digits.len() + (k - 1) as nat) as int);
        assert(longer.drop_last() =~= shorter);
        assert(digit_value(longer.last()) == 0);
        assert(digits_value(longer) == digits_value(shorter) * 10);
        assert(digits_value(digits) * pow10((k - 1) as nat) * 10 == digits_value(digits) * pow10(k))
            by (nonlinear_arith)
            requires
                pow10(k) == 10 * pow10((k - 1) as nat),
        ;
    }
}

/// Ten to the power of twenty or more is beyond the range of `u64`.
proof fn lemma_pow10_is_large(k: nat)
    requires
        k >= 20,
    ensures
        pow10(k) > u64::MAX,
    decreases k,
{
    if k == 20 {
        reveal_with_fuel(pow10, 21);
    } else {
        lemma_pow10_is_large((k - 1) as nat);
    }
}

/// A number above zero with twenty or more zeros behind its digits is beyond
/// the range of `u64`.
proof fn lemma_long_padding_is_large(digits: Seq<char>, n: int)
    requires
        digits_value(digits) > 0,
        n >= digits.len() + 20,
    ensures
        digits_value(padded(digits, n)) > u64::MAX,
{
    let k = (n - digits.len()) as nat;
    lemma_padding_multiplies(digits, k);
    lemma_pow10_is_large(k);
    assert(digits_value(digits) * pow10(k) >= pow10(k)) by (nonlinear_arith)
        requires
            digits_value(digits) >= 1,
    ;
}

/// The digits of a number are the digits before a place and the digits from
/// that place on: the first are worth ten to the power of the number of the
/// others times their own number, and the others are worth less than that
/// power.
proof fn lemma_digits_split(digits: Seq<char>, at: int)
    requires
        all_digits(digits),
        0 <= at <= digits.len(),
    ensures
        digits_value(digits) == digits_value(digits.take(at)) * pow10((digits.len() - at) as nat)
            + digits_value(digits.skip(at)),
        digits_value(digits.skip(at)) < pow10((digits.len() - at) as nat),
    decreases digits.len() - at,
{
    if at == digits.len() {
        assert(digits.take(at) =~= digits);
        assert(digits.skip(at) =~= Seq::<char>::empty());
        assert(digits_value(digits) * pow10(0) == digits_value(digits)) by (nonlinear_arith)
            requires
                pow10(0) == 1,
        ;
    } else {
        let front = digits.drop_last();
        let k = (front.len() - at) as nat;
        assert forall|i: int| 0 <= i < front.len() implies is_digit(#[trigger] front[i]) by {
            assert(front[i] == digits[i]);
        }
        lemma_digits_split(front, at);
        assert(front.take(at) =~= digits.take(at));
        assert(digits.skip(at).drop_last() =~= front.skip(at));
        assert(digits.skip(at).last() == digits.last());
        assert(is_digit(digits.last()));
        let head = digits_value(digits.take(at));
        let tail = digits_value(front.skip(at));
        let last = digit_value(digits.last());
        assert(digits_value(digits) == (head * pow10(k) + tail) * 10 + last);
        assert(digits_value(digits.skip(at)) == tail * 10 + last);
        assert((head * pow10(k) + tail) * 10 + last == head * pow10(k + 1) + (tail * 10 + last))
            by (nonlinear_arith)
            requires
                pow10(k + 1) == 10 * pow10(k),
        ;
    }
}

/// Cutting a number off to whole microseconds loses nothing on a clock of
/// whole microseconds: a span of whole microseconds is longer than the number
/// exactly where it is longer than the number cut off.
pub proof fn lemma_cut_off_loses_nothing(body: Seq<char>, span: nat)
    requires
        is_number(body),
    ensures
        span_exceeds(span, body) <==> span > number_micros(body),
{
    let digits = mantissa_digits(body);
    let places = micros_places(body);
    let m = mantissa(body);
    assert forall|i: int| 0 <= i < digits.len() implies is_digit(#[trigger] digits[i]) by {
        if i < whole_part(m).len() {
            assert(digits[i] == whole_part(m)[i]);
        } else {
            assert(digits[i] == fraction_part(m)[i - whole_part(m).len()]);
        }
    }
    if places >= digits.len() {
        lemma_padding_multiplies(digits, (places - digits.len()) as nat);
    } else if places > 0 {
        let k = (digits.len() - places) as nat;
        lemma_digits_split(digits, places);
        assert(padded(digits, places) =~= digits.take(places));
        let head = digits_value(digits.take(places));
        let tail = digits_value(digits.skip(places));
        assert(span * pow10(k) > head * pow10(k) + tail <==> span > head) by (nonlinear_arith)
            requires
                0 <= tail < pow10(k),
        ;
    } else {
        let k = (digits.len() - places) as nat;
        lemma_digits_split(digits, 0);
        assert(digits.skip(0) =~= digits);
        lemma_pow10_grows(digits.len(), k);
        assert(span * pow10(k) > digits_value(digits) <==> span > 0) by (nonlinear_arith)
            requires
                0 <= digits_value(digits) < pow10(k),
        ;
    }
}

/// A larger power of ten is not smaller.
proof fn lemma_pow10_grows(low: nat, high: nat)
    requires
        low <= high,
    ensures
        pow10(low) <= pow10(high),
    decreases high - low,
{
    if low < high {
        lemma_pow10_grows(low, (high - 1) as nat);
    }
}

/// Parses ASCII bytes whose characters are `s`.
fn parse_ascii(bytes: &[u8], Ghost(s): Ghost<Seq<char>>) -> (r: Option<u64>)
    requires
        is_text_of(bytes@, s),
    ensures
        r == interval_of_text(s),
{
    let n: usize = bytes.len();
    if n > 0 && bytes[0] == 45 {
        return None;
    }
    let start: usize = if n > 0 && bytes[0] == 43 {
        1
    } else {
        0
    };
    let ghost body = unsigned_part(s);
    assert(body =~= s.skip(start as int));
    if names_infinity(bytes, start, Ghost(s)) {
        return Some(u64::MAX);
    }
    let shape = match recognize(bytes, Ghost(s)) {
        Some(shape) => shape,
        None => {
            return None;
        },
    };
    let ghost digits = mantissa_digits(body);
    let whole_len: usize = shape.whole_end - shape.whole_start;
    let digits_len: usize = whole_len + (shape.frac_end - shape.frac_start);
    let mantissa_value: u64 = padded_value(bytes, &shape, digits_len as u128, Ghost(s));
    proof {
        assert(padded(digits, digits_len as int) =~= digits);
    }
    if mantissa_value == 0 {
        return None;
    }
    let exponent: u128 = digits_wide(bytes, shape.exp_start, shape.exp_end, Ghost(s));
    if shape.exp_negative {
        if exponent >= whole_len as u128 + MICRO_PLACES as u128 {
            Some(0)
        } else {
            let count: u128 = whole_len as u128 + MICRO_PLACES as u128 - exponent;
            Some(padded_value(bytes, &shape, count, Ghost(s)))
        }
    } else {
        if exponent >= digits_len as u128 + 20 {
            proof {
                lemma_long_padding_is_large(digits, micros_places(body));
            }
            Some(u64::MAX)
        } else {
            let count: u128 = whole_len as u128 + MICRO_PLACES as u128 + exponent;
            Some(padded_value(bytes, &shape, count, Ghost(s)))
        }
    }
}

/// Reads `text` as a number of milliseconds and gives it in whole
/// microseconds.
///
/// The result is `None` where the text names no number, zero or a number
/// below zero. A number beyond the range of `u64`, and infinity, give
/// `u64::MAX`; a number above zero and below one microsecond gives zero.
pub fn parse_interval(text: &str) -> (r: Option<u64>)
    ensures
        r == interval_of_text(text@),
{
    if !text.is_ascii() {
        proof {
            lemma_number_is_ascii(text@);
        }
        return None;
    }
    let bytes = text.as_bytes();
    proof {
        vstd::utf8::is_ascii_chars_encode_utf8(text@);
    }
    parse_ascii(bytes, Ghost(text@))
}

/// A text that is worth an interval is written in ASCII.
pub proof fn lemma_number_is_ascii(s: Seq<char>)
    ensures
        interval_of_text(s) is Some ==> vstd::utf8::is_ascii_chars(s),
{
    if interval_of_text(s) is Some {
        let body = unsigned_part(s);
        let shift: int = if has_sign(s) { 1 } else { 0 };
        assert forall|i: int| 0 <= i < s.len() implies '\0' <= #[trigger] s[i] <= '\u{7f}' by {
            if i >= shift {
                assert(body[i - shift] == s[i]);
                lemma_body_is_ascii(body, i - shift);
            }
        }
    }
}

/// Every character of infinity and of a number in digits is an ASCII
/// character.
proof fn lemma_body_is_ascii(body: Seq<char>, i: int)
    requires
        is_infinity(body) || is_number(body),
        0 <= i < body.len(),
    ensures
        '\0' <= body[i] <= '\u{7f}',
{
    let short = seq!['i', 'n', 'f'];
    let long = seq!['i', 'n', 'f', 'i', 'n', 'i', 't', 'y'];
    if spells(body, short) {
        assert(lower(body[i]) == short[i]);
    } else if spells(body, long) {
        assert(lower(body[i]) == long[i]);
    } else {
        lemma_first_of(body, 'e', 'E');
        let ei = first_of(body, 'e', 'E');
        let m = mantissa(body);
        lemma_first_of(m, '.', '.');
        let pi = first_of(m, '.', '.');
        if i < ei {
            assert(m[i] == body[i]);
            if i < pi {
                assert(whole_part(m)[i] == m[i]);
            } else if i > pi {
                assert(fraction_part(m)[i - pi - 1] == m[i]);
            }
        } else if i > ei {
            let x = exponent_text(body);
            assert(x[i - ei - 1] == body[i]);
            if has_sign(x) {
                if i - ei - 1 > 0 {
                    assert(unsigned_part(x)[i - ei - 2] == x[i - ei - 1]);
                }
            } else {
                assert(unsigned_part(x)[i - ei - 1] == x[i - ei - 1]);
            }
        }
    }
}

} // verus!
