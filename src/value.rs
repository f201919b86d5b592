//! Scalar cell values and the exact numbers that stand for parsed amounts.
//!
//! A number is held as an exact fraction `num / den`, so that amount
//! comparison is exact equality of values, with no tolerance.

use vstd::prelude::*;

verus! {

/// The largest magnitude a numerator may have.
pub const NUM_LIMIT: i64 = 9223372036854775807;

/// The largest value a count parameter may have.
pub const COUNT_LIMIT: u64 = 2147483647;

/// The largest number of digits after the decimal point that a parsed number may have.
pub const SCALE_LIMIT: u32 = 18;

pub open spec fn is_digit(c: char) -> bool {
    '0' <= c && c <= '9'
}

pub open spec fn digit_value(c: char) -> nat {
    (c as u32 - '0' as u32) as nat
}

pub open spec fn all_digits(s: Seq<char>) -> bool {
    forall|i: int| 0 <= i < s.len() ==> is_digit(#[trigger] s[i])
}

/// The value of a string of decimal digits, most significant first.
pub open spec fn digits_value(s: Seq<char>) -> nat
    decreases s.len(),
{
    if s.len() == 0 {
        0
    } else {
        digits_value(s.drop_last()) * 10 + digit_value(s.last())
    }
}

pub open spec fn pow10(k: nat) -> nat
    decreases k,
{
    if k == 0 {
        1
    } else {
        10 * pow10((k - 1) as nat)
    }
}

/// `s` without one leading `+`.
pub open spec fn without_plus(s: Seq<char>) -> Seq<char> {
    if s.len() > 0 && s[0] == '+' {
        s.subrange(1, s.len() as int)
    } else {
        s
    }
}

/// The non-negative integer that a count parameter such as `"7"` or `"+7"` denotes,
/// when it is one that fits a 32-bit signed integer.
pub open spec fn count_param(s: Seq<char>) -> Option<nat> {
    let ds = without_plus(s);
    if ds.len() > 0 && all_digits(ds) && digits_value(ds) <= COUNT_LIMIT {
        Some(digits_value(ds))
    } else {
        None
    }
}

/// Index of the first `c` in `s`, or `s.len()` when there is none.
pub open spec fn index_of(s: Seq<char>, c: char) -> nat
    decreases s.len(),
{
    if s.len() == 0 {
        0
    } else if s[0] == c {
        0
    } else {
        1 + index_of(s.subrange(1, s.len() as int), c)
    }
}

/// Digits before the decimal point of an unsigned decimal literal.
pub open spec fn int_part(b: Seq<char>) -> Seq<char> {
    b.subrange(0, index_of(b, '.') as int)
}

/// Digits after the decimal point of an unsigned decimal literal.
pub open spec fn frac_part(b: Seq<char>) -> Seq<char> {
    if index_of(b, '.') < b.len() {
        b.subrange(index_of(b, '.') as int + 1, b.len() as int)
    } else {
        Seq::empty()
    }
}

/// `s` without one leading sign.
pub open spec fn unsigned_body(s: Seq<char>) -> Seq<char> {
    if s.len() > 0 && (s[0] == '+' || s[0] == '-') {
        s.subrange(1, s.len() as int)
    } else {
        s
    }
}

/// The exact value `(numerator, denominator)` of a decimal literal such as
/// `"-12.50"`: an optional sign, digits, and at most one decimal point, with at
/// least one digit. Literals whose digits exceed the numerator range, or that
/// have more than eighteen digits after the point, have none.
pub open spec fn decimal_value(s: Seq<char>) -> Option<(int, int)> {
    let b = unsigned_body(s);
    let ip = int_part(b);
    let fp = frac_part(b);
    let m = digits_value(ip + fp);
    if all_digits(ip) && all_digits(fp) && ip.len() + fp.len() > 0 && m <= NUM_LIMIT
        && fp.len() <= SCALE_LIMIT {
        Some((if s.len() > 0 && s[0] == '-' { -m } else { m as int }, pow10(fp.len()) as int))
    } else {
        None
    }
}

/// An exact fraction `num / den`.
#[derive(Clone, Copy, Debug, PartialEq, Eq, Structural)]
pub struct Number {
    pub num: i64,
    pub den: u64,
}

impl Number {
    pub open spec fn wf(&self) -> bool {
        self.den > 0 && self.num >= -NUM_LIMIT
    }

    pub open spec fn pair(&self) -> (int, int) {
        (self.num as int, self.den as int)
    }
}

/// Whether two fractions denote the same rational value.
pub open spec fn same_number(x: (int, int), y: (int, int)) -> bool {
    x.0 * y.1 == y.0 * x.1
}

/// The absolute value of a fraction.
pub open spec fn abs_number(x: (int, int)) -> (int, int) {
    (if x.0 < 0 { -x.0 } else { x.0 }, x.1)
}

/// `x / y`, with the divisor's sign moved to the numerator, when `y` is non-zero
/// and the result fits the fraction's ranges.
pub open spec fn divide_number(x: (int, int), y: (int, int)) -> Option<(int, int)> {
    let n = if y.0 < 0 { -(x.0 * y.1) } else { x.0 * y.1 };
    let d = x.1 * (if y.0 < 0 { -y.0 } else { y.0 });
    if y.0 != 0 && -NUM_LIMIT <= n <= NUM_LIMIT && d <= u64::MAX {
        Some((n, d))
    } else {
        None
    }
}

/// The model of a cell value.
pub enum Scalar {
    Absent,
    Flag(bool),
    Num(int, int),
    Str(Seq<char>),
}

/// A cell value: text, an exact number, a boolean, or nothing.
#[derive(Clone, Debug)]
pub enum Value {
    Null,
    Bool(bool),
    Number(Number),
    Text(String),
}

impl View for Value {
    type V = Scalar;

    open spec fn view(&self) -> Scalar {
        match self {
            Value::Null => Scalar::Absent,
            Value::Bool(b) => Scalar::Flag(*b),
            Value::Number(n) => Scalar::Num(n.num as int, n.den as int),
            Value::Text(t) => Scalar::Str(t@),
        }
    }
}

impl Value {
    pub open spec fn wf(&self) -> bool {
        match self {
            Value::Number(n) => n.wf(),
            _ => true,
        }
    }
}

/// Whether two values are equal join or grouping keys. Nothing equals an absent
/// value, not even another absent value; numbers compare by value; values of
/// different kinds are never equal.
pub open spec fn same_key(a: Scalar, b: Scalar) -> bool {
    match (a, b) {
        (Scalar::Flag(x), Scalar::Flag(y)) => x == y,
        (Scalar::Num(n1, d1), Scalar::Num(n2, d2)) => same_number((n1, d1), (n2, d2)),
        (Scalar::Str(x), Scalar::Str(y)) => x == y,
        _ => false,
    }
}

/// The amount that a value stands for: a number as it is, text as the decimal
/// it spells. Anything else, and text that is no decimal, counts as zero.
pub open spec fn amount_of(v: Scalar) -> (int, int) {
    match v {
        Scalar::Num(n, d) => (n, d),
        Scalar::Str(t) => match decimal_value(t) {
            Some(p) => p,
            None => (0, 1),
        },
        _ => (0, 1),
    }
}

proof fn lemma_digits_prefix_le(s: Seq<char>, k: int)
    requires
        0 <= k <= s.len(),
    ensures
        digits_value(s.subrange(0, k)) <= digits_value(s),
    decreases s.len(),
{
    if k < s.len() {
        lemma_digits_prefix_le(s.drop_last(), k);
        assert(s.drop_last().subrange(0, k) =~= s.subrange(0, k));
    } else {
        assert(s.subrange(0, k) =~= s);
    }
}

pub proof fn lemma_index_of_le(b: Seq<char>, c: char)
    ensures
        index_of(b, c) <= b.len(),
    decreases b.len(),
{
    if b.len() > 0 {
        lemma_index_of_le(b.subrange(1, b.len() as int), c);
    }
}

pub proof fn lemma_index_of(b: Seq<char>, c: char, j: int)
    requires
        0 <= j <= b.len(),
        forall|t: int| 0 <= t < j ==> b[t] != c,
    ensures
        index_of(b, c) >= j,
        j < b.len() && b[j] == c ==> index_of(b, c) == j,
        j == b.len() ==> index_of(b, c) == b.len(),
        index_of(b, c) <= b.len(),
    decreases b.len(),
{
    lemma_index_of_le(b, c);
    if b.len() > 0 && j > 0 {
        let rest = b.subrange(1, b.len() as int);
        assert forall|t: int| 0 <= t < j - 1 implies rest[t] != c by {
            assert(rest[t] == b[t + 1]);
        }
        lemma_index_of(rest, c, j - 1);
    }
}

/// Parses a count parameter such as `"7"` or `"+7"`.
pub fn parse_count(s: &Vec<char>) -> (r: Option<u64>)
    ensures
        match r {
            Some(v) => count_param(s@) == Some(v as nat),
            None => count_param(s@) is None,
        },
{
    let start: usize = if s.len() > 0 && s[0] == '+' { 1 } else { 0 };
    let ghost ds = without_plus(s@);
    assert(ds =~= s@.subrange(start as int, s@.len() as int));
    if start == s.len() {
        return None;
    }
    let mut acc: u64 = 0;
    let mut i: usize = start;
    assert(s@.subrange(start as int, start as int) =~= Seq::<char>::empty());
    while i < s.len()
        invariant
            ds == without_plus(s@),
            ds == s@.subrange(start as int, s@.len() as int),
            start <= i <= s@.len(),
            acc as nat == digits_value(s@.subrange(start as int, i as int)),
            acc <= COUNT_LIMIT,
            all_digits(s@.subrange(start as int, i as int)),
        decreases s@.len() - i,
    {
        let c = s[i];
        if !('0' <= c && c <= '9') {
            assert(ds[i - start] == c);
            assert(!is_digit(ds[i - start]));
            assert(!all_digits(ds));
            return None;
        }
        let d = (c as u32 - '0' as u32) as u64;
        let ghost pre = s@.subrange(start as int, i + 1);
        assert(pre.drop_last() =~= s@.subrange(start as int, i as int));
        assert(digits_value(pre) == acc * 10 + d);
        if acc * 10 + d > COUNT_LIMIT {
            proof {
                assert(ds.subrange(0, i + 1 - start) =~= pre);
                lemma_digits_prefix_le(ds, i + 1 - start);
                assert(digits_value(ds) > COUNT_LIMIT);
            }
            return None;
        }
        acc = acc * 10 + d;
        i = i + 1;
        assert(all_digits(s@.subrange(start as int, i as int))) by {
            assert forall|t: int| 0 <= t < pre.len() implies is_digit(#[trigger] pre[t]) by {
                if t < pre.len() - 1 {
                    assert(pre[t] == s@.subrange(start as int, i - 1)[t]);
                }
            }
        }
    }
    assert(ds =~= s@.subrange(start as int, i as int));
    Some(acc)
}

pub fn pow10_exec(k: u32) -> (r: u64)
    requires
        k <= SCALE_LIMIT,
    ensures
        r as nat == pow10(k as nat),
{
    proof {
        lemma_pow10_18();
    }
    let mut r: u64 = 1;
    let mut i: u32 = 0;
    while i < k
        invariant
            i <= k <= SCALE_LIMIT,
            r as nat == pow10(i as nat),
            pow10(18) == 1000000000000000000,
        decreases k - i,
    {
        proof {
            lemma_pow10_mono((i + 1) as nat, 18);
        }
        r = r * 10;
        i = i + 1;
    }
    r
}

proof fn lemma_pow10_mono(a: nat, b: nat)
    requires
        a <= b,
    ensures
        pow10(a) <= pow10(b),
    decreases b,
{
    if a < b {
        lemma_pow10_mono(a, (b - 1) as nat);
    }
}

pub proof fn lemma_pow10_pos(k: nat)
    ensures
        pow10(k) >= 1,
    decreases k,
{
    if k > 0 {
        lemma_pow10_pos((k - 1) as nat);
    }
}

proof fn lemma_pow10_18()
    ensures
        pow10(18) == 1000000000000000000,
{
    reveal_with_fuel(pow10, 19);
}

proof fn lemma_digits_push(x: Seq<char>, c: char)
    ensures
        digits_value(x.push(c)) == digits_value(x) * 10 + digit_value(c),
{
    assert(x.push(c).drop_last() =~= x);
}

/// Parses a decimal literal such as `"-12.50"` into an exact fraction.
pub fn parse_decimal(s: &Vec<char>) -> (r: Option<Number>)
    ensures
        match r {
            Some(n) => n.wf() && decimal_value(s@) == Some(n.pair()),
            None => decimal_value(s@) is None,
        },
{
    let signed = s.len() > 0 && (s[0] == '+' || s[0] == '-');
    let negative = s.len() > 0 && s[0] == '-';
    let start: usize = if signed { 1 } else { 0 };
    let n: usize = s.len() - start;
    let ghost b = unsigned_body(s@);
    assert(b =~= s@.subrange(start as int, s@.len() as int));
    let mut acc: u64 = 0;
    let mut seen: bool = false;
    let mut k: usize = 0;
    let mut scale: u32 = 0;
    let mut j: usize = 0;
    let ghost mut cur: Seq<char> = Seq::empty();
    assert(b.subrange(0, 0) =~= Seq::<char>::empty());
    while j < n
        invariant
            b == unsigned_body(s@),
            b == s@.subrange(start as int, s@.len() as int),
            n == b.len(),
            start + n == s@.len(),
            j <= n,
            acc <= NUM_LIMIT,
            acc as nat == digits_value(cur),
            all_digits(cur),
            !seen ==> {
                &&& forall|t: int| 0 <= t < j ==> b[t] != '.'
                &&& cur == b.subrange(0, j as int)
                &&& scale == 0
            },
            seen ==> {
                &&& k < j
                &&& index_of(b, '.') == k
                &&& cur == b.subrange(0, k as int) + b.subrange(k + 1, j as int)
                &&& scale == j - k - 1
                &&& scale <= SCALE_LIMIT
            },
        decreases n - j,
    {
        let c = s[start + j];
        assert(c == b[j as int]);
        let ghost old_cur = cur;
        if c == '.' && !seen {
            proof {
                lemma_index_of(b, '.', j as int);
                assert(b.subrange(0, j as int) + b.subrange(j + 1, j + 1) =~= b.subrange(0, j as int));
            }
            seen = true;
            k = j;
        } else if '0' <= c && c <= '9' {
            proof {
                lemma_digits_push(old_cur, c);
                cur = old_cur.push(c);
                if !seen {
                    assert(cur =~= b.subrange(0, j + 1));
                } else {
                    assert(cur =~= b.subrange(0, k as int) + b.subrange(k + 1, j + 1));
                }
            }
            let d = (c as u32 - '0' as u32) as u64;
            if seen && scale == SCALE_LIMIT {
                proof {
                    if index_of(b, '.') < b.len() {
                        assert(frac_part(b).len() > SCALE_LIMIT);
                    }
                }
                return None;
            }
            if (acc as u128) * 10 + (d as u128) > NUM_LIMIT as u128 {
                proof {
                    let ip = int_part(b);
                    let fp = frac_part(b);
                    if all_digits(ip) && all_digits(fp) {
                        if !seen {
                            assert forall|t: int| 0 <= t < j + 1 implies b[t] != '.' by {
                                if t == j {
                                    assert(b[t] == c);
                                }
                            }
                            lemma_index_of(b, '.', j + 1);
                            assert((ip + fp).subrange(0, j + 1) =~= cur);
                        } else {
                            assert((ip + fp).subrange(0, cur.len() as int) =~= cur);
                        }
                        lemma_digits_prefix_le(ip + fp, cur.len() as int);
                    }
                }
                return None;
            }
            acc = acc * 10 + d;
            if seen {
                scale = scale + 1;
            }
            assert(all_digits(cur)) by {
                assert forall|t: int| 0 <= t < cur.len() implies is_digit(#[trigger] cur[t]) by {
                    if t < old_cur.len() {
                        assert(cur[t] == old_cur[t]);
                    }
                }
            }
        } else {
            proof {
                let ip = int_part(b);
                let fp = frac_part(b);
                if !seen {
                    assert(c != '.');
                    assert forall|t: int| 0 <= t < j + 1 implies b[t] != '.' by {
                        if t == j {
                            assert(b[t] == c);
                        }
                    }
                    lemma_index_of(b, '.', j + 1);
                    assert(ip[j as int] == c);
                    assert(!is_digit(ip[j as int]));
                } else {
                    assert(fp[j - k - 1] == c);
                    assert(!is_digit(fp[j - k - 1]));
                }
            }
            return None;
        }
        j = j + 1;
    }
    proof {
        let ip = int_part(b);
        let fp = frac_part(b);
        if !seen {
            lemma_index_of(b, '.', n as int);
            assert(ip =~= b);
            assert(fp =~= Seq::<char>::empty());
            assert(ip + fp =~= cur);
        } else {
            assert(ip + fp =~= cur);
        }
    }
    if (!seen && n == 0) || (seen && n == 1) {
        assert(cur.len() == 0);
        return None;
    }
    assert(cur.len() > 0);
    let den = pow10_exec(scale);
    proof {
        lemma_pow10_pos(scale as nat);
    }
    let num: i64 = if negative { -(acc as i64) } else { acc as i64 };
    proof {
        lemma_index_of_le(b, '.');
        assert(frac_part(b).len() == scale);
        assert(digits_value(int_part(b) + frac_part(b)) == acc);
        let ip = int_part(b);
        let fp = frac_part(b);
        assert forall|t: int| 0 <= t < ip.len() implies is_digit(#[trigger] ip[t]) by {
            assert(ip[t] == cur[t]);
        }
        assert forall|t: int| 0 <= t < fp.len() implies is_digit(#[trigger] fp[t]) by {
            assert(fp[t] == cur[ip.len() + t]);
        }
    }
    Some(Number { num, den })
}

fn mul_i128(a: i64, b: u64) -> (r: i128)
    ensures
        r == a as int * b as int,
        -170141183460469231722463931679029329920 <= r <= 170141183460469231713240559642174554113,
{
    proof {
        let x = a as int;
        let y = b as int;
        assert(-9223372036854775808 <= x <= 9223372036854775807);
        assert(0 <= y <= 18446744073709551615);
        assert(-170141183460469231722463931679029329920 <= x * y <= 170141183460469231713240559642174554113)
            by (nonlinear_arith)
            requires
                -9223372036854775808 <= x <= 9223372036854775807,
                0 <= y <= 18446744073709551615,
        ;
    }
    (a as i128) * (b as i128)
}

/// Whether two fractions denote the same value.
pub fn numbers_equal(x: Number, y: Number) -> (r: bool)
    ensures
        r == same_number(x.pair(), y.pair()),
{
    mul_i128(x.num, y.den) == mul_i128(y.num, x.den)
}

/// The absolute value of a fraction.
pub fn number_abs(x: Number) -> (r: Number)
    requires
        x.wf(),
    ensures
        r.wf(),
        r.pair() == abs_number(x.pair()),
{
    if x.num < 0 {
        Number { num: -x.num, den: x.den }
    } else {
        x
    }
}

/// `x / y`, when `y` is non-zero and the quotient fits the fraction's ranges.
pub fn number_divide(x: Number, y: Number) -> (r: Option<Number>)
    requires
        x.wf(),
        y.wf(),
    ensures
        match r {
            Some(q) => q.wf() && divide_number(x.pair(), y.pair()) == Some(q.pair()),
            None => divide_number(x.pair(), y.pair()) is None,
        },
{
    if y.num == 0 {
        return None;
    }
    let p = mul_i128(x.num, y.den);
    let n: i128 = if y.num < 0 { -p } else { p };
    let m: u64 = if y.num < 0 { (-y.num) as u64 } else { y.num as u64 };
    proof {
        let a = x.den as int;
        let b = m as int;
        assert(0 <= a * b <= 18446744073709551615 * 9223372036854775807) by (nonlinear_arith)
            requires
                0 <= a <= 18446744073709551615,
                0 <= b <= 9223372036854775807,
        ;
    }
    let d: u128 = (x.den as u128) * (m as u128);
    if n < -(NUM_LIMIT as i128) || n > NUM_LIMIT as i128 || d > u64::MAX as u128 {
        return None;
    }
    proof {
        assert(d > 0) by (nonlinear_arith)
            requires
                d == x.den as int * m as int,
                x.den > 0,
                m > 0,
        ;
    }
    Some(Number { num: n as i64, den: d as u64 })
}

/// Whether two values are equal keys; an absent value equals nothing.
pub fn key_equal(a: &Value, b: &Value) -> (r: bool)
    ensures
        r == same_key(a@, b@),
{
    match (a, b) {
        (Value::Bool(x), Value::Bool(y)) => *x == *y,
        (Value::Number(x), Value::Number(y)) => numbers_equal(*x, *y),
        (Value::Text(x), Value::Text(y)) => *x == *y,
        _ => false,
    }
}

/// The amount that a value stands for; see `amount_of`.
pub fn amount_value(v: &Value) -> (r: Number)
    requires
        v.wf(),
    ensures
        r.wf(),
        r.pair() == amount_of(v@),
{
    match v {
        Value::Number(n) => *n,
        Value::Text(t) => match parse_decimal(&crate::text::chars_of(t.as_str())) {
            Some(n) => n,
            None => Number { num: 0, den: 1 },
        },
        _ => Number { num: 0, den: 1 },
    }
}

/// Whether fraction `x` is below fraction `y` (denominators positive).
pub open spec fn less_number(x: (int, int), y: (int, int)) -> bool {
    x.0 * y.1 < y.0 * x.1
}

/// Whether `x` is below `y`.
pub fn number_less(x: Number, y: Number) -> (r: bool)
    ensures
        r == less_number(x.pair(), y.pair()),
{
    mul_i128(x.num, y.den) < mul_i128(y.num, x.den)
}

/// The digit character for `d < 10`.
pub open spec fn digit_char(d: int) -> char {
    if d == 0 { '0' } else if d == 1 { '1' } else if d == 2 { '2' } else if d == 3 { '3' }
    else if d == 4 { '4' } else if d == 5 { '5' } else if d == 6 { '6' } else if d == 7 { '7' }
    else if d == 8 { '8' } else { '9' }
}

} // verus!
