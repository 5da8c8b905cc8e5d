//! Numbers as text: the grammar of a JSON number, and the value of a run of
//! digits.

use vstd::prelude::*;

verus! {

/// True for the ten decimal digits.
pub open spec fn is_digit(c: char) -> bool {
    '0' <= c <= '9'
}

/// The value of a decimal digit; 0 for any other character.
pub open spec fn digit_value(c: char) -> nat {
    if c == '1' {
        1
    } else if c == '2' {
        2
    } else if c == '3' {
        3
    } else if c == '4' {
        4
    } else if c == '5' {
        5
    } else if c == '6' {
        6
    } else if c == '7' {
        7
    } else if c == '8' {
        8
    } else if c == '9' {
        9
    } else {
        0
    }
}

/// The number of digits that `s` begins with.
pub open spec fn count_digits(s: Seq<char>) -> nat
    decreases s.len(),
{
    if s.len() > 0 && is_digit(s[0]) {
        1 + count_digits(s.drop_first())
    } else {
        0
    }
}

/// The number that a run of digits stands for.
pub open spec fn digits_value(s: Seq<char>) -> nat
    decreases s.len(),
{
    if s.len() == 0 {
        0
    } else {
        digits_value(s.drop_last()) * 10 + digit_value(s.last())
    }
}

/// The character at position `i`, or a space where `s` ends before it.
pub open spec fn char_at(s: Seq<char>, i: int) -> char {
    if 0 <= i < s.len() {
        s[i]
    } else {
        ' '
    }
}

/// Where the parts of the number end that `s` begins with, by the grammar of
/// JSON: an optional minus sign; the integer part, which is `0` or a run of
/// digits that does not begin with `0`; an optional fraction, which is a point
/// and at least one digit; an optional exponent, which is `e` or `E`, an
/// optional sign, and at least one digit.
pub ghost struct NumberShape {
    /// Where the integer part begins: behind the sign.
    pub digits_from: int,
    /// Where the integer part ends.
    pub digits_to: int,
    /// Where the fraction ends; where the integer part ends, if there is none.
    pub fraction_to: int,
    /// Where the exponent ends, and the number with it; where the fraction
    /// ends, if there is none.
    pub end: int,
}

/// Where the integer part of the number begins and ends that `s` begins with;
/// `None` where no digit stands where it should begin.
pub open spec fn integer_part(s: Seq<char>) -> Option<(int, int)> {
    let from: int = if char_at(s, 0) == '-' {
        1
    } else {
        0
    };
    let run = count_digits(s.skip(from));
    if run == 0 {
        None
    } else if char_at(s, from) == '0' {
        Some((from, from + 1))
    } else {
        Some((from, from + run))
    }
}

/// Where the fraction ends that begins at position `at` of `s`; `at` where no
/// point stands there; `None` where no digit follows the point.
pub open spec fn fraction_end(s: Seq<char>, at: int) -> Option<int> {
    if char_at(s, at) != '.' {
        Some(at)
    } else if count_digits(s.skip(at + 1)) == 0 {
        None
    } else {
        Some(at + 1 + count_digits(s.skip(at + 1)))
    }
}

/// Where the digits of an exponent begin that begins at position `at` of `s`:
/// behind the letter and the sign.
pub open spec fn exponent_digits_from(s: Seq<char>, at: int) -> int {
    if char_at(s, at + 1) == '+' || char_at(s, at + 1) == '-' {
        at + 2
    } else {
        at + 1
    }
}

/// Where the exponent ends that begins at position `at` of `s`; `at` where
/// neither `e` nor `E` stands there; `None` where no digit follows the letter
/// and the sign.
pub open spec fn exponent_end(s: Seq<char>, at: int) -> Option<int> {
    if char_at(s, at) != 'e' && char_at(s, at) != 'E' {
        Some(at)
    } else if count_digits(s.skip(exponent_digits_from(s, at))) == 0 {
        None
    } else {
        Some(exponent_digits_from(s, at) + count_digits(s.skip(exponent_digits_from(s, at))))
    }
}

/// The parts of the number that `s` begins with; `None` where `s` does not
/// begin with a number.
pub open spec fn number_shape(s: Seq<char>) -> Option<NumberShape> {
    match integer_part(s) {
        None => None,
        Some(digits) => match fraction_end(s, digits.1) {
            None => None,
            Some(fraction_to) => match exponent_end(s, fraction_to) {
                None => None,
                Some(end) => Some(
                    NumberShape { digits_from: digits.0, digits_to: digits.1, fraction_to, end },
                ),
            },
        },
    }
}

/// True when `s` is a number by the grammar of JSON, all of it.
pub open spec fn is_number_text(s: Seq<char>) -> bool {
    number_shape(s) matches Some(shape) && shape.end == s.len()
}

/// True when the number has neither fraction nor exponent.
pub open spec fn shape_is_integral(shape: NumberShape) -> bool {
    shape.end == shape.digits_to
}

/// The integer that a number without fraction and exponent stands for.
pub open spec fn integral_value(s: Seq<char>, shape: NumberShape) -> int {
    let magnitude = digits_value(s.subrange(shape.digits_from, shape.digits_to));
    if shape.digits_from == 1 {
        -(magnitude as int)
    } else {
        magnitude as int
    }
}

/// True when `s` is the text of a number that is held as text: a number by the
/// grammar of JSON that is no integer of 64 bits, signed or unsigned.
pub open spec fn is_double_text(s: Seq<char>) -> bool {
    number_shape(s) matches Some(shape) && shape.end == s.len() && !(shape_is_integral(shape)
        && i64::MIN <= integral_value(s, shape) <= u64::MAX)
}

/// A run of digits is at most as long as the text it begins.
pub proof fn lemma_count_digits_bound(s: Seq<char>)
    ensures
        count_digits(s) <= s.len(),
        forall|i: int| 0 <= i < count_digits(s) ==> is_digit(#[trigger] s[i]),
        count_digits(s) < s.len() ==> !is_digit(s[count_digits(s) as int]),
    decreases s.len(),
{
    if s.len() > 0 && is_digit(s[0]) {
        lemma_count_digits_bound(s.drop_first());
        assert forall|i: int| 0 <= i < count_digits(s) implies is_digit(#[trigger] s[i]) by {
            if i > 0 {
                assert(s[i] == s.drop_first()[i - 1]);
            }
        }
        if count_digits(s) < s.len() {
            assert(s[count_digits(s) as int] == s.drop_first()[count_digits(s.drop_first()) as int]);
        }
    }
}

/// A run of `n` digits followed by a character that is no digit, or by the end,
/// is counted as `n` digits.
pub proof fn lemma_count_digits_is(s: Seq<char>, n: nat)
    requires
        n <= s.len(),
        forall|i: int| 0 <= i < n ==> is_digit(#[trigger] s[i]),
        n < s.len() ==> !is_digit(s[n as int]),
    ensures
        count_digits(s) == n,
    decreases n,
{
    if n > 0 {
        let rest = s.drop_first();
        assert forall|i: int| 0 <= i < n - 1 implies is_digit(#[trigger] rest[i]) by {
            assert(rest[i] == s[i + 1]);
        }
        if n - 1 < rest.len() {
            assert(rest[n - 1] == s[n as int]);
        }
        lemma_count_digits_is(rest, (n - 1) as nat);
    }
}

/// The value of a digit, as a number.
pub fn digit_of(c: char) -> (d: u8)
    requires
        is_digit(c),
    ensures
        d == digit_value(c),
        d <= 9,
{
    match c {
        '1' => 1,
        '2' => 2,
        '3' => 3,
        '4' => 4,
        '5' => 5,
        '6' => 6,
        '7' => 7,
        '8' => 8,
        '9' => 9,
        _ => 0,
    }
}

/// True for the ten decimal digits.
pub fn is_digit_char(c: char) -> (r: bool)
    ensures
        r == is_digit(c),
{
    '0' <= c && c <= '9'
}

/// The end of the run of digits that begins at `from`.
pub fn scan_digits(v: &Vec<char>, from: usize) -> (to: usize)
    requires
        from <= v.len(),
    ensures
        from <= to <= v.len(),
        to - from == count_digits(v@.skip(from as int)),
{
    let mut i = from;
    proof {
        lemma_count_digits_bound(v@.skip(from as int));
    }
    while i < v.len() && is_digit_char(v[i])
        invariant
            from <= i <= v.len(),
            forall|k: int| from <= k < i ==> is_digit(#[trigger] v@[k]),
        decreases v.len() - i,
    {
        i += 1;
    }
    proof {
        let s = v@.skip(from as int);
        assert forall|k: int| 0 <= k < i - from implies is_digit(#[trigger] s[k]) by {
            assert(s[k] == v@[from + k]);
        }
        lemma_count_digits_is(s, (i - from) as nat);
    }
    i
}

/// A longer run of digits stands for a number at least ten times that of the
/// run without its last digit.
proof fn lemma_digits_value_grows(s: Seq<char>, n: int)
    requires
        0 <= n <= s.len(),
    ensures
        digits_value(s.subrange(0, n)) <= digits_value(s),
    decreases s.len() - n,
{
    if n < s.len() {
        lemma_digits_value_grows(s, n + 1);
        assert(s.subrange(0, n + 1).drop_last() =~= s.subrange(0, n));
    } else {
        assert(s.subrange(0, n) =~= s);
    }
}

/// The number 1 with `k` zeros behind it.
pub open spec fn ten_to(k: nat) -> nat
    decreases k,
{
    if k == 0 {
        1
    } else {
        ten_to((k - 1) as nat) * 10
    }
}

/// A run of `n` digits stands for a number below 1 with `n` zeros; so a number
/// that does not fit in 64 bits has at least 20 digits.
pub proof fn lemma_digits_value_bound(d: Seq<char>)
    ensures
        digits_value(d) < ten_to(d.len()),
        digits_value(d) > u64::MAX ==> d.len() >= 20,
    decreases d.len(),
{
    if d.len() > 0 {
        lemma_digits_value_bound(d.drop_last());
    }
    if d.len() < 20 {
        lemma_ten_to_grows(d.len(), 19);
        reveal_with_fuel(ten_to, 20);
        assert(ten_to(19) == 10000000000000000000);
    }
}

proof fn lemma_ten_to_grows(a: nat, b: nat)
    requires
        a <= b,
    ensures
        ten_to(a) <= ten_to(b),
        ten_to(a) >= 1,
    decreases b,
{
    if a < b {
        lemma_ten_to_grows(a, (b - 1) as nat);
    } else if a > 0 {
        lemma_ten_to_grows((a - 1) as nat, (a - 1) as nat);
    }
}

/// The number that the digits from `from` up to `to` stand for; `None` where it
/// does not fit in 64 bits.
pub fn digits_to_u64(v: &Vec<char>, from: usize, to: usize) -> (r: Option<u64>)
    requires
        from <= to <= v.len(),
        forall|k: int| from <= k < to ==> is_digit(#[trigger] v@[k]),
    ensures
        r is None ==> to - from >= 20,
        digits_value(v@.subrange(from as int, to as int)) <= u64::MAX ==> r == Some(
            digits_value(v@.subrange(from as int, to as int)) as u64,
        ),
        digits_value(v@.subrange(from as int, to as int)) > u64::MAX ==> r is None,
{
    let ghost all = v@.subrange(from as int, to as int);
    let mut acc: u64 = 0;
    let mut i = from;
    assert(all.subrange(0, 0) =~= Seq::empty());
    proof {
        lemma_digits_value_bound(all);
    }
    while i < to
        invariant
            from <= i <= to <= v.len(),
            all == v@.subrange(from as int, to as int),
            forall|k: int| from <= k < to ==> is_digit(#[trigger] v@[k]),
            digits_value(all) > u64::MAX ==> all.len() >= 20,
            acc == digits_value(all.subrange(0, i - from)),
        decreases to - i,
    {
        let d = digit_of(v[i]) as u64;
        proof {
            let next = all.subrange(0, i - from + 1);
            assert(next.drop_last() =~= all.subrange(0, i - from));
            assert(next.last() == v@[i as int]);
            lemma_digits_value_grows(all, i - from + 1);
        }
        if acc > (u64::MAX - d) / 10 {
            assert(acc * 10 + d > u64::MAX) by (nonlinear_arith)
                requires
                    acc > (u64::MAX - d) / 10,
                    d <= 9,
            ;
            return None;
        }
        assert(acc * 10 + d <= u64::MAX) by (nonlinear_arith)
            requires
                acc <= (u64::MAX - d) / 10,
                d <= 9,
        ;
        acc = acc * 10 + d;
        i += 1;
    }
    assert(all.subrange(0, i - from) =~= all);
    Some(acc)
}


/// Where the parts of a number end that was found in a text.
#[derive(Debug, Clone, Copy)]
pub struct NumberSpan {
    /// Where the integer part begins: behind the sign.
    pub digits_from: usize,
    /// Where the integer part ends.
    pub digits_to: usize,
    /// Where the fraction ends.
    pub fraction_to: usize,
    /// Where the number ends.
    pub end: usize,
}

impl NumberSpan {
    /// The span of the number with the shape `shape` that begins at `from`.
    pub open spec fn is_shape_at(&self, shape: NumberShape, from: int) -> bool {
        &&& self.digits_from == from + shape.digits_from
        &&& self.digits_to == from + shape.digits_to
        &&& self.fraction_to == from + shape.fraction_to
        &&& self.end == from + shape.end
    }
}

/// The parts of a shape are in order, within the text, and made of digits where
/// they should be.
pub proof fn lemma_shape_bounds(s: Seq<char>)
    requires
        number_shape(s) is Some,
    ensures
        ({
            let shape = number_shape(s)->0;
            &&& 0 <= shape.digits_from <= 1
            &&& shape.digits_from < shape.digits_to <= shape.fraction_to <= shape.end <= s.len()
            &&& shape.digits_from == 1 <==> char_at(s, 0) == '-'
            &&& forall|i: int| shape.digits_from <= i < shape.digits_to ==> is_digit(#[trigger] s[i])
            &&& shape.fraction_to > shape.digits_to ==> s[shape.digits_to] == '.' && shape.fraction_to
                > shape.digits_to + 1
            &&& forall|i: int|
                shape.digits_to < i < shape.fraction_to ==> is_digit(#[trigger] s[i])
            &&& shape.end > shape.fraction_to ==> (s[shape.fraction_to] == 'e' || s[shape.fraction_to]
                == 'E') && exponent_digits_from(s, shape.fraction_to) < shape.end
            &&& forall|i: int|
                shape.end > shape.fraction_to && exponent_digits_from(s, shape.fraction_to) <= i
                    < shape.end ==> is_digit(#[trigger] s[i])
        }),
{
    let shape = number_shape(s)->0;
    let from = shape.digits_from;
    lemma_count_digits_bound(s.skip(from));
    assert forall|i: int| from <= i < shape.digits_to implies is_digit(#[trigger] s[i]) by {
        assert(s[i] == s.skip(from)[i - from]);
    }
    if char_at(s, shape.digits_to) == '.' {
        lemma_count_digits_bound(s.skip(shape.digits_to + 1));
        assert forall|i: int| shape.digits_to < i < shape.fraction_to implies is_digit(
            #[trigger] s[i],
        ) by {
            assert(s[i] == s.skip(shape.digits_to + 1)[i - shape.digits_to - 1]);
        }
    }
    if shape.end > shape.fraction_to {
        let exponent_from = exponent_digits_from(s, shape.fraction_to);
        lemma_count_digits_bound(s.skip(exponent_from));
        assert forall|i: int| exponent_from <= i < shape.end implies is_digit(#[trigger] s[i]) by {
            assert(s[i] == s.skip(exponent_from)[i - exponent_from]);
        }
    }
}

/// Finds the integer part of the number that begins at `from`.
fn scan_integer(v: &Vec<char>, from: usize) -> (r: Option<(usize, usize)>)
    requires
        from <= v.len(),
    ensures
        integer_part(v@.skip(from as int)) is None ==> r is None,
        integer_part(v@.skip(from as int)) matches Some(p) ==> (r matches Some(q) && q.0 == from
            + p.0 && q.1 == from + p.1 && q.1 <= v.len()),
{
    let ghost s = v@.skip(from as int);
    let n = v.len();
    let digits_from = if from < n && v[from] == '-' {
        from + 1
    } else {
        from
    };
    assert(s.skip(digits_from - from) =~= v@.skip(digits_from as int));
    let run_end = scan_digits(v, digits_from);
    if run_end == digits_from {
        None
    } else if v[digits_from] == '0' {
        Some((digits_from, digits_from + 1))
    } else {
        Some((digits_from, run_end))
    }
}

/// Finds the end of the fraction that begins at `at`, in the text that begins
/// at `from`.
fn scan_fraction(v: &Vec<char>, from: usize, at: usize) -> (r: Option<usize>)
    requires
        from <= at <= v.len(),
    ensures
        fraction_end(v@.skip(from as int), at - from) is None ==> r is None,
        fraction_end(v@.skip(from as int), at - from) matches Some(p) ==> (r matches Some(q) && q
            == from + p && q <= v.len()),
{
    let ghost s = v@.skip(from as int);
    if at < v.len() && v[at] == '.' {
        assert(s.skip(at + 1 - from) =~= v@.skip(at + 1));
        let end = scan_digits(v, at + 1);
        if end == at + 1 {
            None
        } else {
            Some(end)
        }
    } else {
        Some(at)
    }
}

/// Finds the end of the exponent that begins at `at`, in the text that begins
/// at `from`.
fn scan_exponent(v: &Vec<char>, from: usize, at: usize) -> (r: Option<usize>)
    requires
        from <= at <= v.len(),
    ensures
        exponent_end(v@.skip(from as int), at - from) is None ==> r is None,
        exponent_end(v@.skip(from as int), at - from) matches Some(p) ==> (r matches Some(q) && q
            == from + p && q <= v.len()),
{
    let ghost s = v@.skip(from as int);
    let n = v.len();
    if at < n && (v[at] == 'e' || v[at] == 'E') {
        let digits_from = if at + 1 < n && (v[at + 1] == '+' || v[at + 1] == '-') {
            at + 2
        } else {
            at + 1
        };
        assert(digits_from - from == exponent_digits_from(s, at - from));
        assert(s.skip(digits_from - from) =~= v@.skip(digits_from as int));
        let end = scan_digits(v, digits_from);
        if end == digits_from {
            None
        } else {
            Some(end)
        }
    } else {
        Some(at)
    }
}

/// Finds the number that begins at `from`, by the grammar of JSON.
pub fn scan_number(v: &Vec<char>, from: usize) -> (r: Option<NumberSpan>)
    requires
        from <= v.len(),
    ensures
        number_shape(v@.skip(from as int)) is None ==> r is None,
        number_shape(v@.skip(from as int)) matches Some(shape) ==> (r matches Some(span)
            && span.is_shape_at(shape, from as int) && span.end <= v.len()),
{
    match scan_integer(v, from) {
        None => None,
        Some((digits_from, digits_to)) => match scan_fraction(v, from, digits_to) {
            None => None,
            Some(fraction_to) => match scan_exponent(v, from, fraction_to) {
                None => None,
                Some(end) => Some(NumberSpan { digits_from, digits_to, fraction_to, end }),
            },
        },
    }
}

/// The number that comes of writing the digits `d` behind the number `acc`.
pub open spec fn extend_value(acc: nat, d: Seq<char>) -> nat
    decreases d.len(),
{
    if d.len() == 0 {
        acc
    } else {
        extend_value(acc, d.drop_last()) * 10 + digit_value(d.last())
    }
}

/// The number `x` with `k` zeros written behind it.
pub open spec fn with_zeros(x: nat, k: nat) -> nat
    decreases k,
{
    if k == 0 {
        x
    } else {
        with_zeros(x, (k - 1) as nat) * 10
    }
}

/// The whole part of the number whose digits are `d` with the decimal point
/// behind the first `point` of them: nothing where the point stands before the
/// digits, the digits before the point where it stands among them, and all the
/// digits with zeros behind them where it stands after them.
pub open spec fn whole_part(d: Seq<char>, point: int) -> nat {
    if point <= 0 {
        0
    } else if point <= d.len() {
        extend_value(0, d.subrange(0, point))
    } else {
        with_zeros(extend_value(0, d), (point - d.len()) as nat)
    }
}

/// The exponent of a number with the shape `shape`; 0 where it has none.
pub open spec fn exponent_value(s: Seq<char>, shape: NumberShape) -> int {
    let magnitude = digits_value(
        s.subrange(exponent_digits_from(s, shape.fraction_to), shape.end),
    );
    if shape.end == shape.fraction_to {
        0
    } else if char_at(s, shape.fraction_to + 1) == '-' {
        -(magnitude as int)
    } else {
        magnitude as int
    }
}

/// The digits of a number with the shape `shape`: those of the integer part,
/// then those of the fraction.
pub open spec fn mantissa(s: Seq<char>, shape: NumberShape) -> Seq<char> {
    if shape.fraction_to > shape.digits_to {
        s.subrange(shape.digits_from, shape.digits_to) + s.subrange(
            shape.digits_to + 1,
            shape.fraction_to,
        )
    } else {
        s.subrange(shape.digits_from, shape.digits_to)
    }
}

/// The whole part of the magnitude of the number `s`: the number without its
/// sign, cut off at the decimal point.
pub open spec fn number_whole_part(s: Seq<char>) -> nat {
    let shape = number_shape(s)->0;
    whole_part(
        mantissa(s, shape),
        shape.digits_to - shape.digits_from + exponent_value(s, shape),
    )
}

/// The number `s` cut off at the decimal point, as a signed integer of 64 bits;
/// a number beyond their range counts as the nearest one within.
pub open spec fn truncated_i64(s: Seq<char>) -> i64 {
    let whole = number_whole_part(s);
    if char_at(s, 0) == '-' {
        if whole > 0x8000_0000_0000_0000 {
            i64::MIN
        } else {
            (-(whole as int)) as i64
        }
    } else if whole > i64::MAX {
        i64::MAX
    } else {
        whole as i64
    }
}

/// The number `s` cut off at the decimal point, as an unsigned integer of 64
/// bits; a number beyond their range counts as the nearest one within.
pub open spec fn truncated_u64(s: Seq<char>) -> u64 {
    let whole = number_whole_part(s);
    if char_at(s, 0) == '-' {
        0
    } else if whole > u64::MAX {
        u64::MAX
    } else {
        whole as u64
    }
}

/// True when the number `s` is zero: every digit of its integer part and of its
/// fraction is `0`.
pub open spec fn number_is_zero(s: Seq<char>) -> bool {
    let shape = number_shape(s)->0;
    forall|i: int|
        0 <= i < mantissa(s, shape).len() ==> #[trigger] mantissa(s, shape)[i] == '0'
}

proof fn lemma_digits_value_is_extend(d: Seq<char>)
    ensures
        digits_value(d) == extend_value(0, d),
    decreases d.len(),
{
    if d.len() > 0 {
        lemma_digits_value_is_extend(d.drop_last());
    }
}

proof fn lemma_extend_concat(acc: nat, a: Seq<char>, b: Seq<char>)
    ensures
        extend_value(acc, a + b) == extend_value(extend_value(acc, a), b),
    decreases b.len(),
{
    if b.len() == 0 {
        assert(a + b =~= a);
    } else {
        assert((a + b).drop_last() =~= a + b.drop_last());
        assert((a + b).last() == b.last());
        lemma_extend_concat(acc, a, b.drop_last());
    }
}

proof fn lemma_extend_grows(acc: nat, d: Seq<char>)
    ensures
        extend_value(acc, d) >= acc,
    decreases d.len(),
{
    if d.len() > 0 {
        lemma_extend_grows(acc, d.drop_last());
    }
}

proof fn lemma_zeros_grow(x: nat, k: nat)
    ensures
        with_zeros(x, k) >= x,
        x == 0 ==> with_zeros(x, k) == 0,
    decreases k,
{
    if k > 0 {
        lemma_zeros_grow(x, (k - 1) as nat);
    }
}

proof fn lemma_zeros_shift(x: nat, k: nat)
    ensures
        with_zeros(x, k + 1) == with_zeros(x * 10, k),
    decreases k,
{
    assert(with_zeros(x, k + 1) == with_zeros(x, k) * 10);
    if k > 0 {
        lemma_zeros_shift(x, (k - 1) as nat);
        assert(with_zeros(x * 10, k) == with_zeros(x * 10, (k - 1) as nat) * 10);
    } else {
        assert(with_zeros(x, 0) == x);
        assert(with_zeros(x * 10, 0) == x * 10);
    }
}

proof fn lemma_twenty_zeros(x: nat, k: nat)
    requires
        x >= 1,
        k >= 20,
    ensures
        with_zeros(x, k) > u64::MAX,
    decreases k,
{
    if k > 20 {
        lemma_twenty_zeros(x, (k - 1) as nat);
    } else {
        reveal_with_fuel(with_zeros, 21);
        assert(with_zeros(x, 20) == x * 100000000000000000000) by {
            assert(with_zeros(x, 0) == x);
        }
    }
}

/// Writes the digits from `from` up to `to` behind the number `acc`; `None`
/// where the result does not fit in 64 bits.
fn extend_with(acc: u64, v: &Vec<char>, from: usize, to: usize) -> (r: Option<u64>)
    requires
        from <= to <= v.len(),
        forall|k: int| from <= k < to ==> is_digit(#[trigger] v@[k]),
    ensures
        extend_value(acc as nat, v@.subrange(from as int, to as int)) <= u64::MAX ==> r == Some(
            extend_value(acc as nat, v@.subrange(from as int, to as int)) as u64,
        ),
        extend_value(acc as nat, v@.subrange(from as int, to as int)) > u64::MAX ==> r is None,
{
    let ghost all = v@.subrange(from as int, to as int);
    let mut cur: u64 = acc;
    let mut i = from;
    assert(all.subrange(0, 0) =~= Seq::empty());
    while i < to
        invariant
            from <= i <= to <= v.len(),
            all == v@.subrange(from as int, to as int),
            forall|k: int| from <= k < to ==> is_digit(#[trigger] v@[k]),
            cur == extend_value(acc as nat, all.subrange(0, i - from)),
        decreases to - i,
    {
        let d = digit_of(v[i]) as u64;
        proof {
            let next = all.subrange(0, i - from + 1);
            assert(next.drop_last() =~= all.subrange(0, i - from));
            assert(next.last() == v@[i as int]);
            assert(all =~= next + all.subrange(i - from + 1, all.len() as int));
            lemma_extend_concat(acc as nat, next, all.subrange(i - from + 1, all.len() as int));
            lemma_extend_grows(
                extend_value(acc as nat, next),
                all.subrange(i - from + 1, all.len() as int),
            );
        }
        if cur > (u64::MAX - d) / 10 {
            assert(cur * 10 + d > u64::MAX) by (nonlinear_arith)
                requires
                    cur > (u64::MAX - d) / 10,
                    d <= 9,
            ;
            return None;
        }
        assert(cur * 10 + d <= u64::MAX) by (nonlinear_arith)
            requires
                cur <= (u64::MAX - d) / 10,
                d <= 9,
        ;
        cur = cur * 10 + d;
        i += 1;
    }
    assert(all.subrange(0, i - from) =~= all);
    Some(cur)
}

/// Writes `k` zeros behind the number `x`; `None` where the result does not fit
/// in 64 bits.
fn append_zeros(x: u64, k: u64) -> (r: Option<u64>)
    ensures
        with_zeros(x as nat, k as nat) <= u64::MAX ==> r == Some(
            with_zeros(x as nat, k as nat) as u64,
        ),
        with_zeros(x as nat, k as nat) > u64::MAX ==> r is None,
{
    if x == 0 {
        proof {
            lemma_zeros_grow(0, k as nat);
        }
        return Some(0);
    }
    let mut cur = x;
    let mut left = k;
    while left > 0
        invariant
            cur >= 1,
            with_zeros(cur as nat, left as nat) == with_zeros(x as nat, k as nat),
        decreases left,
    {
        proof {
            lemma_zeros_shift(cur as nat, (left - 1) as nat);
            lemma_zeros_grow((cur * 10) as nat, (left - 1) as nat);
        }
        if cur > u64::MAX / 10 {
            assert(cur * 10 > u64::MAX) by (nonlinear_arith)
                requires
                    cur > u64::MAX / 10,
            ;
            return None;
        }
        assert(cur * 10 <= u64::MAX) by (nonlinear_arith)
            requires
                cur <= u64::MAX / 10,
        ;
        cur = cur * 10;
        left = left - 1;
    }
    Some(cur)
}

/// The whole part of the number whose digits are those from `a_from` up to
/// `a_to` followed by `rest`, with the decimal point `e` places to the left of
/// where the first run ends; `None` where it does not fit in 64 bits. A `shift`
/// of `None` stands for an `e` beyond 64 bits.
fn whole_part_left(
    v: &Vec<char>,
    a_from: usize,
    a_to: usize,
    shift: Option<u64>,
    Ghost(rest): Ghost<Seq<char>>,
    Ghost(e): Ghost<int>,
) -> (r: Option<u64>)
    requires
        a_from <= a_to <= v.len(),
        forall|k: int| a_from <= k < a_to ==> is_digit(#[trigger] v@[k]),
        shift matches Some(m) ==> e == m,
        shift is None ==> e > u64::MAX,
    ensures
        ({
            let whole = whole_part(v@.subrange(a_from as int, a_to as int) + rest, a_to - a_from - e);
            &&& whole <= u64::MAX ==> r == Some(whole as u64)
            &&& whole > u64::MAX ==> r is None
        }),
{
    let int_len = a_to - a_from;
    let take = match shift {
        Some(m) => if m >= int_len as u64 {
            0
        } else {
            int_len - m as usize
        },
        None => 0,
    };
    if take == 0 {
        return Some(0);
    }
    proof {
        let digits = v@.subrange(a_from as int, a_to as int) + rest;
        assert(digits.subrange(0, take as int) =~= v@.subrange(a_from as int, a_from + take));
        lemma_digits_value_is_extend(digits.subrange(0, take as int));
    }
    digits_to_u64(v, a_from, a_from + take)
}

/// The whole part of the number whose digits are those from `a_from` up to
/// `a_to` followed by those from `b_from` up to `b_to`, with the decimal point
/// within the second run, `m` places behind its beginning.
fn whole_part_within(
    v: &Vec<char>,
    a_from: usize,
    a_to: usize,
    b_from: usize,
    b_to: usize,
    m: usize,
) -> (r: Option<u64>)
    requires
        a_from <= a_to <= v.len(),
        b_from <= b_to <= v.len(),
        m <= b_to - b_from,
        a_from < a_to,
        forall|k: int| a_from <= k < a_to ==> is_digit(#[trigger] v@[k]),
        forall|k: int| b_from <= k < b_to ==> is_digit(#[trigger] v@[k]),
    ensures
        ({
            let whole = whole_part(
                v@.subrange(a_from as int, a_to as int) + v@.subrange(b_from as int, b_to as int),
                a_to - a_from + m,
            );
            &&& whole <= u64::MAX ==> r == Some(whole as u64)
            &&& whole > u64::MAX ==> r is None
        }),
{
    let ghost a = v@.subrange(a_from as int, a_to as int);
    let ghost b = v@.subrange(b_from as int, b_to as int);
    proof {
        let head = b.subrange(0, m as int);
        assert((a + b).subrange(0, a_to - a_from + m) =~= a + head);
        lemma_extend_concat(0, a, head);
        assert(head =~= v@.subrange(b_from as int, b_from + m));
        lemma_extend_grows(extend_value(0, a), head);
    }
    match extend_with(0, v, a_from, a_to) {
        Some(x) => extend_with(x, v, b_from, b_from + m),
        None => None,
    }
}

/// The whole part of the number whose digits are those from `a_from` up to
/// `a_to` followed by those from `b_from` up to `b_to`, with `zeros` zeros
/// behind them; `None` where it does not fit in 64 bits. A `count` of `None`
/// stands for more zeros than 64 bits can count.
fn whole_part_beyond(
    v: &Vec<char>,
    a_from: usize,
    a_to: usize,
    b_from: usize,
    b_to: usize,
    count: Option<u64>,
    Ghost(zeros): Ghost<nat>,
) -> (r: Option<u64>)
    requires
        a_from <= a_to <= v.len(),
        b_from <= b_to <= v.len(),
        forall|k: int| a_from <= k < a_to ==> is_digit(#[trigger] v@[k]),
        forall|k: int| b_from <= k < b_to ==> is_digit(#[trigger] v@[k]),
        count matches Some(m) ==> zeros == m,
        count is None ==> zeros > 20,
    ensures
        ({
            let whole = with_zeros(
                extend_value(
                    0,
                    v@.subrange(a_from as int, a_to as int) + v@.subrange(
                        b_from as int,
                        b_to as int,
                    ),
                ),
                zeros,
            );
            &&& whole <= u64::MAX ==> r == Some(whole as u64)
            &&& whole > u64::MAX ==> r is None
        }),
{
    let ghost a = v@.subrange(a_from as int, a_to as int);
    let ghost b = v@.subrange(b_from as int, b_to as int);
    proof {
        lemma_extend_concat(0, a, b);
        lemma_extend_grows(extend_value(0, a), b);
        lemma_zeros_grow(extend_value(0, a + b), zeros);
    }
    let all = match extend_with(0, v, a_from, a_to) {
        Some(x) => extend_with(x, v, b_from, b_to),
        None => None,
    };
    match all {
        None => None,
        Some(x) => match count {
            Some(m) => append_zeros(x, m),
            None => {
                if x == 0 {
                    Some(0)
                } else {
                    proof {
                        lemma_twenty_zeros(x as nat, zeros);
                    }
                    None
                }
            },
        },
    }
}

/// The exponent of the number with the span `span`: whether it is negative, and
/// its magnitude, which is `None` where that does not fit in 64 bits.
fn exponent_of(v: &Vec<char>, span: &NumberSpan) -> (r: (bool, Option<u64>))
    requires
        is_number_text(v@),
        span.is_shape_at(number_shape(v@)->0, 0),
    ensures
        ({
            let e = exponent_value(v@, number_shape(v@)->0);
            &&& r.0 ==> e <= 0
            &&& !r.0 ==> e >= 0
            &&& r.1 matches Some(m) ==> m == (if r.0 {
                -e
            } else {
                e
            })
            &&& r.1 is None ==> (if r.0 {
                -e
            } else {
                e
            }) > u64::MAX && span.end - span.fraction_to > 20
        }),
{
    let ghost s = v@;
    let ghost shape = number_shape(s)->0;
    proof {
        lemma_shape_bounds(s);
    }
    if span.end == span.fraction_to {
        return (false, Some(0));
    }
    let sign = v[span.fraction_to + 1];
    let exponent_from = if sign == '+' || sign == '-' {
        span.fraction_to + 2
    } else {
        span.fraction_to + 1
    };
    assert(exponent_from == exponent_digits_from(s, shape.fraction_to));
    (sign == '-', digits_to_u64(v, exponent_from, span.end))
}

/// Cuts the number `v` off at the decimal point: whether it has a minus sign,
/// and the whole part of its magnitude, which is `None` where that does not fit
/// in 64 bits.
#[verifier::rlimit(60)]
pub fn truncate_number(v: &Vec<char>) -> (r: (bool, Option<u64>))
    requires
        is_number_text(v@),
    ensures
        r.0 == (char_at(v@, 0) == '-'),
        number_whole_part(v@) <= u64::MAX ==> r.1 == Some(number_whole_part(v@) as u64),
        number_whole_part(v@) > u64::MAX ==> r.1 is None,
{
    let ghost s = v@;
    let ghost shape = number_shape(s)->0;
    proof {
        assert(s.skip(0) =~= s);
        lemma_shape_bounds(s);
    }
    let span = match scan_number(v, 0) {
        Some(span) => span,
        None => {
            return (false, Some(0));
        },
    };
    let negative = span.digits_from == 1;
    let fraction_from = if span.fraction_to > span.digits_to {
        span.digits_to + 1
    } else {
        span.digits_to
    };
    let ghost int_digits = s.subrange(span.digits_from as int, span.digits_to as int);
    let ghost fraction_digits = s.subrange(fraction_from as int, span.fraction_to as int);
    proof {
        if span.fraction_to == span.digits_to {
            assert(fraction_digits =~= Seq::empty());
            assert(int_digits + fraction_digits =~= int_digits);
        }
        assert(mantissa(s, shape) == int_digits + fraction_digits);
    }
    let (exponent_negative, exponent) = exponent_of(v, &span);
    let ghost e = exponent_value(s, shape);
    let fraction_len = span.fraction_to - fraction_from;
    if exponent_negative {
        let r = whole_part_left(
            v,
            span.digits_from,
            span.digits_to,
            exponent,
            Ghost(fraction_digits),
            Ghost(-e),
        );
        assert(whole_part(int_digits + fraction_digits, span.digits_to - span.digits_from - (-e))
            == number_whole_part(s));
        return (negative, r);
    }
    let within = match exponent {
        Some(m) => m <= fraction_len as u64,
        None => false,
    };
    if within {
        let m = match exponent {
            Some(m) => m as usize,
            None => 0,
        };
        let r = whole_part_within(
            v,
            span.digits_from,
            span.digits_to,
            fraction_from,
            span.fraction_to,
            m,
        );
        assert(whole_part(int_digits + fraction_digits, span.digits_to - span.digits_from + m)
            == number_whole_part(s));
        return (negative, r);
    }
    let count = match exponent {
        Some(m) => Some(m - fraction_len as u64),
        None => None,
    };
    let r = whole_part_beyond(
        v,
        span.digits_from,
        span.digits_to,
        fraction_from,
        span.fraction_to,
        count,
        Ghost((e - fraction_len) as nat),
    );
    assert(number_whole_part(s) == with_zeros(
        extend_value(0, int_digits + fraction_digits),
        (e - fraction_len) as nat,
    ));
    (negative, r)
}


/// True when the number `v` is zero: every digit of its integer part and of its
/// fraction is `0`.
pub fn is_zero_number(v: &Vec<char>) -> (r: bool)
    requires
        is_number_text(v@),
    ensures
        r == number_is_zero(v@),
{
    let ghost s = v@;
    let ghost shape = number_shape(s)->0;
    proof {
        assert(s.skip(0) =~= s);
        lemma_shape_bounds(s);
    }
    let span = match scan_number(v, 0) {
        Some(span) => span,
        None => {
            return false;
        },
    };
    let ghost digits = mantissa(s, shape);
    let int_len = span.digits_to - span.digits_from;
    let mut i = span.digits_from;
    while i < span.fraction_to
        invariant
            span.digits_from <= i <= span.fraction_to <= v.len(),
            span.is_shape_at(shape, 0),
            s == v@,
            shape == number_shape(s)->0,
            digits == mantissa(s, shape),
            0 <= shape.digits_from < shape.digits_to <= shape.fraction_to <= s.len(),
            forall|k: int| span.digits_from <= k < i && k != span.digits_to ==> #[trigger] v@[k] == '0',
        decreases span.fraction_to - i,
    {
        if i != span.digits_to && v[i] != '0' {
            proof {
                let at: int = if i < span.digits_to {
                    i - span.digits_from
                } else {
                    i - span.digits_from - 1
                };
                let int_digits = s.subrange(shape.digits_from, shape.digits_to);
                if i < span.digits_to {
                    assert(int_digits[at] == v@[i as int]);
                } else {
                    let fraction = s.subrange(shape.digits_to + 1, shape.fraction_to);
                    assert(digits == int_digits + fraction);
                    assert(fraction[at - int_digits.len()] == v@[i as int]);
                }
                assert(0 <= at < digits.len());
                assert(mantissa(s, shape)[at] != '0');
            }
            return false;
        }
        i += 1;
    }
    proof {
        assert forall|k: int| 0 <= k < digits.len() implies #[trigger] digits[k] == '0' by {
            if k < int_len {
                assert(digits[k] == v@[span.digits_from + k]);
            } else {
                assert(digits[k] == v@[span.digits_to + 1 + (k - int_len)]);
            }
        }
    }
    true
}

/// True when `v` is the text of a number that is held as text: a number by the
/// grammar of JSON that is no integer of 64 bits.
pub fn is_double_chars(v: &Vec<char>) -> (r: bool)
    ensures
        r == is_double_text(v@),
{
    proof {
        assert(v@.skip(0) =~= v@);
    }
    match scan_number(v, 0) {
        None => false,
        Some(span) => {
            if span.end != v.len() {
                return false;
            }
            if span.end != span.digits_to {
                return true;
            }
            proof {
                lemma_shape_bounds(v@);
            }
            match digits_to_u64(v, span.digits_from, span.digits_to) {
                None => true,
                Some(m) => span.digits_from == 1 && m > 0x8000_0000_0000_0000,
            }
        },
    }
}


/// True for the characters that can follow a number in a text without being
/// taken for a part of it: all but the digits, the point, the signs and the
/// letters `e` and `E`.
pub open spec fn ends_number(c: char) -> bool {
    !is_digit(c) && c != '.' && c != 'e' && c != 'E' && c != '+' && c != '-'
}

/// The digits counted in a text are those counted in any text that goes on
/// with the same characters up to the first that is no digit.
proof fn lemma_count_digits_same(a: Seq<char>, b: Seq<char>)
    requires
        count_digits(a) <= b.len(),
        forall|i: int| 0 <= i < count_digits(a) ==> #[trigger] a[i] == b[i],
        count_digits(a) < b.len() ==> !is_digit(b[count_digits(a) as int]),
    ensures
        count_digits(b) == count_digits(a),
{
    lemma_count_digits_bound(a);
    assert forall|i: int| 0 <= i < count_digits(a) implies is_digit(#[trigger] b[i]) by {
        assert(a[i] == b[i]);
    }
    lemma_count_digits_is(b, count_digits(a));
}

/// A number has the same shape when it stands alone as when it begins a longer
/// text.
pub proof fn lemma_shape_of_token(s: Seq<char>)
    requires
        number_shape(s) is Some,
    ensures
        number_shape(s.subrange(0, number_shape(s)->0.end)) == number_shape(s),
{
    let shape = number_shape(s)->0;
    lemma_shape_bounds(s);
    let t = s.subrange(0, shape.end);
    assert forall|i: int| 0 <= i < shape.end implies char_at(t, i) == char_at(s, i) by {}
    let from = shape.digits_from;
    // the integer part
    lemma_count_digits_bound(s.skip(from));
    lemma_count_digits_bound(t.skip(from));
    if char_at(s, from) == '0' {
        assert(t.skip(from)[0] == '0');
        assert(count_digits(t.skip(from)) > 0);
    } else {
        let run = count_digits(s.skip(from));
        assert forall|i: int| 0 <= i < run implies #[trigger] s.skip(from)[i] == t.skip(from)[i] by {}
        if run < t.skip(from).len() {
            assert(t.skip(from)[run as int] == s.skip(from)[run as int]);
        }
        lemma_count_digits_same(s.skip(from), t.skip(from));
    }
    assert(integer_part(t) == integer_part(s));
    // the fraction
    let at = shape.digits_to;
    if char_at(s, at) == '.' {
        let a = s.skip(at + 1);
        let b = t.skip(at + 1);
        lemma_count_digits_bound(a);
        let run = count_digits(a);
        assert forall|i: int| 0 <= i < run implies #[trigger] a[i] == b[i] by {}
        if run < b.len() {
            assert(b[run as int] == a[run as int]);
        }
        lemma_count_digits_same(a, b);
    }
    assert(fraction_end(t, at) == fraction_end(s, at));
    // the exponent
    let ft = shape.fraction_to;
    if shape.end > ft {
        assert(char_at(t, ft + 1) == char_at(s, ft + 1));
        let ef = exponent_digits_from(s, ft);
        assert(exponent_digits_from(t, ft) == ef);
        let a = s.skip(ef);
        let b = t.skip(ef);
        lemma_count_digits_bound(a);
        let run = count_digits(a);
        assert forall|i: int| 0 <= i < run implies #[trigger] a[i] == b[i] by {}
        lemma_count_digits_same(a, b);
    } else {
        assert(char_at(t, ft) == ' ');
    }
    assert(exponent_end(t, ft) == exponent_end(s, ft));
}

/// A number has the same shape when a text follows it that begins with a
/// character that ends a number.
pub proof fn lemma_shape_extended(t: Seq<char>, rest: Seq<char>)
    requires
        is_number_text(t),
        rest.len() == 0 || ends_number(rest[0]),
    ensures
        number_shape(t + rest) == number_shape(t),
{
    let shape = number_shape(t)->0;
    lemma_shape_bounds(t);
    let s = t + rest;
    assert forall|i: int| 0 <= i < t.len() implies char_at(t, i) == char_at(s, i) by {}
    assert(rest.len() > 0 ==> char_at(s, t.len() as int) == rest[0]);
    let from = shape.digits_from;
    lemma_count_digits_bound(t.skip(from));
    if char_at(t, from) == '0' {
        assert(s.skip(from)[0] == '0');
        lemma_count_digits_bound(s.skip(from));
        assert(count_digits(s.skip(from)) > 0);
    } else {
        let a = t.skip(from);
        let b = s.skip(from);
        let run = count_digits(a);
        assert forall|i: int| 0 <= i < run implies #[trigger] a[i] == b[i] by {}
        if run < b.len() {
            if run < a.len() {
                assert(b[run as int] == a[run as int]);
            } else {
                assert(b[run as int] == rest[0]);
            }
        }
        lemma_count_digits_same(a, b);
    }
    assert(integer_part(s) == integer_part(t));
    let at = shape.digits_to;
    if char_at(t, at) == '.' {
        let a = t.skip(at + 1);
        let b = s.skip(at + 1);
        lemma_count_digits_bound(a);
        let run = count_digits(a);
        assert forall|i: int| 0 <= i < run implies #[trigger] a[i] == b[i] by {}
        if run < b.len() {
            if run < a.len() {
                assert(b[run as int] == a[run as int]);
            } else {
                assert(b[run as int] == rest[0]);
            }
        }
        lemma_count_digits_same(a, b);
    }
    assert(fraction_end(s, at) == fraction_end(t, at));
    let ft = shape.fraction_to;
    if shape.end > ft {
        assert(char_at(s, ft + 1) == char_at(t, ft + 1));
        let ef = exponent_digits_from(t, ft);
        let a = t.skip(ef);
        let b = s.skip(ef);
        lemma_count_digits_bound(a);
        let run = count_digits(a);
        assert forall|i: int| 0 <= i < run implies #[trigger] a[i] == b[i] by {}
        if run < b.len() {
            if run < a.len() {
                assert(b[run as int] == a[run as int]);
            } else {
                assert(b[run as int] == rest[0]);
            }
        }
        lemma_count_digits_same(a, b);
    }
    assert(exponent_end(s, ft) == exponent_end(t, ft));
}

} // verus!
