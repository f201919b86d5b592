//! What an export of a partition holds: the column order, the text of each
//! cell, and, for amount mismatches, the difference of the two amounts.
//!
//! Columns come in this order: identifier columns, time columns, amount
//! columns, status columns, then the remaining canonical columns (those whose
//! name starts with `source` or mentions `normalized` or `original`); other
//! raw columns are left out. Matching on the kind of a column ignores case.

use vstd::prelude::*;
use crate::order_manager::contains_text;
use crate::row::{Row, field_of};
use crate::text::{chars_of, occurs_at_exec, string_of};
use crate::dates::padded_digits;
use crate::value::{Number, Scalar, Value, amount_of, amount_value, digit_char, pow10, pow10_exec};

verus! {

/// What `str::to_lowercase` makes of `s`.
pub uninterp spec fn lower_of(s: Seq<char>) -> Seq<char>;

/// Relies on `str::to_lowercase`: the lowercase form of the text, which
/// depends on its characters alone.
#[verifier::external_body]
fn lowercase(s: &str) -> (r: String)
    ensures
        r@ == lower_of(s@),
{
    s.to_lowercase()
}

pub open spec fn starts_with(s: Seq<char>, p: Seq<char>) -> bool {
    p.len() <= s.len() && s.subrange(0, p.len() as int) == p
}

pub open spec fn is_id_column(h: Seq<char>) -> bool {
    contains_text(lower_of(h), "id"@) && !contains_text(h, "normalized"@)
}

pub open spec fn is_time_column(h: Seq<char>) -> bool {
    !is_id_column(h) && contains_text(lower_of(h), "time"@)
}

pub open spec fn is_amount_column(h: Seq<char>) -> bool {
    !is_id_column(h) && !is_time_column(h) && contains_text(lower_of(h), "amount"@)
}

pub open spec fn is_status_column(h: Seq<char>) -> bool {
    !is_id_column(h) && !is_time_column(h) && !is_amount_column(h) && contains_text(lower_of(h), "status"@)
}

pub open spec fn is_other_column(h: Seq<char>) -> bool {
    !is_id_column(h) && !is_time_column(h) && !is_amount_column(h) && !is_status_column(h) && (
    starts_with(h, "source"@) || contains_text(h, "normalized"@) || contains_text(h, "original"@))
}

/// Whether column `h` belongs to group `k`: identifier, time, amount, status, other.
pub open spec fn in_group(h: Seq<char>, k: int) -> bool {
    if k == 0 {
        is_id_column(h)
    } else if k == 1 {
        is_time_column(h)
    } else if k == 2 {
        is_amount_column(h)
    } else if k == 3 {
        is_status_column(h)
    } else {
        is_other_column(h)
    }
}

/// The names of `all` in group `k`, in order.
pub open spec fn group_of(all: Seq<Seq<char>>, k: int) -> Seq<Seq<char>>
    decreases all.len(),
{
    if all.len() == 0 {
        Seq::empty()
    } else {
        let p = group_of(all.drop_last(), k);
        if in_group(all.last(), k) {
            p.push(all.last())
        } else {
            p
        }
    }
}

/// The export column order of the names `all`.
pub open spec fn ordered_headers(all: Seq<Seq<char>>) -> Seq<Seq<char>> {
    group_of(all, 0) + group_of(all, 1) + group_of(all, 2) + group_of(all, 3) + group_of(all, 4)
}

fn contains_str(t: &str, pat: &str) -> (r: bool)
    ensures
        r == contains_text(t@, pat@),
{
    let tv = chars_of(t);
    let pv = chars_of(pat);
    if pv.len() > tv.len() {
        return false;
    }
    let n = tv.len() - pv.len();
    let mut i: usize = 0;
    loop
        invariant
            pv@.len() <= tv@.len(),
            n == tv@.len() - pv@.len(),
            tv@ == t@,
            pv@ == pat@,
            i <= n,
            forall|j: int| 0 <= j < i ==> !crate::text::occurs_at(t@, pat@, j),
        decreases n - i,
    {
        if occurs_at_exec(&tv, &pv, i) {
            return true;
        }
        if i == n {
            return false;
        }
        i = i + 1;
    }
}

fn starts_with_exec(s: &str, p: &str) -> (r: bool)
    ensures
        r == starts_with(s@, p@),
{
    let sv = chars_of(s);
    let pv = chars_of(p);
    if pv.len() > sv.len() {
        return false;
    }
    let r = occurs_at_exec(&sv, &pv, 0);
    r
}

fn in_group_exec(h: &str, k: usize) -> (r: bool)
    ensures
        r == in_group(h@, k as int),
{
    let low = lowercase(h);
    let id = contains_str(low.as_str(), "id") && !contains_str(h, "normalized");
    let time = !id && contains_str(low.as_str(), "time");
    let amount = !id && !time && contains_str(low.as_str(), "amount");
    let status = !id && !time && !amount && contains_str(low.as_str(), "status");
    let other = !id && !time && !amount && !status && (starts_with_exec(h, "source") || contains_str(
        h,
        "normalized",
    ) || contains_str(h, "original"));
    if k == 0 {
        id
    } else if k == 1 {
        time
    } else if k == 2 {
        amount
    } else if k == 3 {
        status
    } else {
        other
    }
}

fn append_group(out: &mut Vec<String>, all: &Vec<String>, k: usize)
    ensures
        final(out)@.map_values(|s: String| s@) == old(out)@.map_values(|s: String| s@) + group_of(
            all@.map_values(|s: String| s@),
            k as int,
        ),
{
    let ghost names = all@.map_values(|s: String| s@);
    let ghost base = out@.map_values(|s: String| s@);
    let mut i: usize = 0;
    assert(names.subrange(0, 0) =~= Seq::<Seq<char>>::empty());
    assert(base + Seq::<Seq<char>>::empty() =~= base);
    while i < all.len()
        invariant
            i <= all@.len(),
            names == all@.map_values(|s: String| s@),
            out@.map_values(|s: String| s@) == base + group_of(names.subrange(0, i as int), k as int),
        decreases all@.len() - i,
    {
        let ghost pre = names.subrange(0, i + 1);
        assert(pre.drop_last() =~= names.subrange(0, i as int));
        assert(pre.last() == all@[i as int]@);
        if in_group_exec(all[i].as_str(), k) {
            let ghost prev = out@.map_values(|s: String| s@);
            out.push(all[i].clone());
            assert(out@.map_values(|s: String| s@) =~= prev.push(all@[i as int]@));
        }
        i = i + 1;
    }
    assert(names.subrange(0, i as int) =~= names);
}

/// The export column order of the distinct column names `all`.
pub fn order_headers(all: &Vec<String>) -> (r: Vec<String>)
    ensures
        r@.map_values(|s: String| s@) == ordered_headers(all@.map_values(|s: String| s@)),
{
    let mut out: Vec<String> = Vec::new();
    assert(out@.map_values(|s: String| s@) =~= Seq::<Seq<char>>::empty());
    append_group(&mut out, all, 0);
    append_group(&mut out, all, 1);
    append_group(&mut out, all, 2);
    append_group(&mut out, all, 3);
    append_group(&mut out, all, 4);
    let ghost names = all@.map_values(|s: String| s@);
    assert(out@.map_values(|s: String| s@) =~= ordered_headers(names));
    out
}

/// The decimal digits of `n`, most significant first.
pub open spec fn nat_text(n: nat) -> Seq<char>
    decreases n,
{
    if n < 10 {
        seq![digit_char(n as int)]
    } else {
        nat_text(n / 10).push(digit_char((n % 10) as int))
    }
}

fn digit_char_exec(d: u128) -> (r: char)
    requires
        d < 10,
    ensures
        r == digit_char(d as int),
{
    if d == 0 { '0' } else if d == 1 { '1' } else if d == 2 { '2' } else if d == 3 { '3' }
    else if d == 4 { '4' } else if d == 5 { '5' } else if d == 6 { '6' } else if d == 7 { '7' }
    else if d == 8 { '8' } else { '9' }
}

pub fn nat_text_exec(n: u128) -> (r: Vec<char>)
    ensures
        r@ == nat_text(n as nat),
    decreases n,
{
    if n < 10 {
        vec![digit_char_exec(n)]
    } else {
        let mut v = nat_text_exec(n / 10);
        v.push(digit_char_exec(n % 10));
        v
    }
}

/// `x` in hundredths, rounded half away from zero.
pub open spec fn round_hundredths(x: (int, int)) -> int {
    let t = x.0 * 100;
    if t >= 0 {
        (2 * t + x.1) / (2 * x.1)
    } else {
        -((-2 * t + x.1) / (2 * x.1))
    }
}

/// A count of hundredths written with two decimals, such as `-10.05`.
pub open spec fn hundredths_text(q: int) -> Seq<char> {
    let a = if q < 0 { -q } else { q };
    let body = nat_text((a / 100) as nat) + seq!['.', digit_char((a / 10) % 10), digit_char(a % 10)];
    if q < 0 {
        seq!['-'] + body
    } else {
        body
    }
}

/// `x - y` as a fraction.
pub open spec fn minus(x: (int, int), y: (int, int)) -> (int, int) {
    (x.0 * y.1 - y.0 * x.1, x.1 * y.1)
}

/// Numerator and denominator both within a quadrillion.
pub open spec fn in_working_range(x: (int, int)) -> bool {
    -1000000000000000 <= x.0 <= 1000000000000000 && x.1 <= 1000000000000000
}

/// `x - y` written with two decimals, when the difference fits the working
/// range; `None` otherwise.
pub fn difference_text(x: Number, y: Number) -> (r: Option<String>)
    requires
        x.wf(),
        y.wf(),
    ensures
        r is Some <==> in_working_range(x.pair()) && in_working_range(y.pair()),
        r matches Some(s) ==> s@ == hundredths_text(round_hundredths(minus(x.pair(), y.pair()))),
{
    let ghost xn = x.num as int;
    let ghost yn = y.num as int;
    let ghost xd = x.den as int;
    let ghost yd = y.den as int;
    if x.num < -1000000000000000 || x.num > 1000000000000000 || y.num < -1000000000000000
        || y.num > 1000000000000000 || x.den > 1000000000000000 || y.den > 1000000000000000 {
        return None;
    }
    proof {
        assert(-1000000000000000000000000000000 <= xn * yd <= 1000000000000000000000000000000) by (nonlinear_arith)
            requires -1000000000000000 <= xn <= 1000000000000000, 0 <= yd <= 1000000000000000;
        assert(-1000000000000000000000000000000 <= yn * xd <= 1000000000000000000000000000000) by (nonlinear_arith)
            requires -1000000000000000 <= yn <= 1000000000000000, 0 <= xd <= 1000000000000000;
        assert(0 < xd * yd <= 1000000000000000000000000000000) by (nonlinear_arith)
            requires 0 < xd <= 1000000000000000, 0 < yd <= 1000000000000000;
    }
    let n: i128 = (x.num as i128) * (y.den as i128) - (y.num as i128) * (x.den as i128);
    let d: i128 = (x.den as i128) * (y.den as i128);
    let t: i128 = n * 100;
    let a: i128 = if t >= 0 { t } else { -t };
    let q: i128 = (2 * a + d) / (2 * d);
    proof {
        assert(q >= 0);
    }
    let qv: i128 = if t >= 0 { q } else { -q };
    assert(qv == round_hundredths(minus(x.pair(), y.pair())));
    let m: u128 = q as u128;
    let mut out: Vec<char> = Vec::new();
    if qv < 0 {
        out.push('-');
    }
    let int_part = nat_text_exec(m / 100);
    let mut k: usize = 0;
    let ghost start = out@;
    while k < int_part.len()
        invariant
            k <= int_part@.len(),
            out@ == start + int_part@.subrange(0, k as int),
        decreases int_part@.len() - k,
    {
        out.push(int_part[k]);
        k = k + 1;
        assert(out@ =~= start + int_part@.subrange(0, k as int));
    }
    assert(int_part@.subrange(0, k as int) =~= int_part@);
    out.push('.');
    out.push(digit_char_exec((m / 10) % 10));
    out.push(digit_char_exec(m % 10));
    proof {
        let body = nat_text((m / 100) as nat) + seq!['.', digit_char(((m / 10) % 10) as int), digit_char((m % 10) as int)];
        if qv < 0 {
            assert(out@ =~= seq!['-'] + body);
        } else {
            assert(out@ =~= body);
        }
    }
    Some(string_of(&out))
}

/// The number of decimals `k` (at most eighteen) with `10^k == den`, if any.
pub open spec fn scale_of(den: int, k: nat) -> Option<nat>
    decreases 19 - k,
{
    if k >= 19 {
        None
    } else if pow10(k) == den {
        Some(k)
    } else {
        scale_of(den, k + 1)
    }
}

/// `n / 10^k` written in decimal with exactly `k` decimals, such as `100.0`
/// for `n == 1000, k == 1`.
pub open spec fn decimal_text(n: int, k: nat) -> Seq<char> {
    let a = if n < 0 { -n } else { n };
    let p = pow10(k) as int;
    let body = nat_text((a / p) as nat) + if k == 0 {
        Seq::<char>::empty()
    } else {
        seq!['.'] + padded_digits(a % p, k)
    };
    if n < 0 {
        seq!['-'] + body
    } else {
        body
    }
}

/// The text of a cell: text as it is, a boolean as `true` or `false`, a
/// number with a power-of-ten denominator as its own decimal text (the
/// decimals it was read with), any other number with two decimals (empty
/// when out of the working range), an absent value as the empty string.
pub open spec fn cell_text(v: Scalar) -> Seq<char> {
    match v {
        Scalar::Absent => Seq::empty(),
        Scalar::Flag(b) => if b { "true"@ } else { "false"@ },
        Scalar::Num(n, d) => match scale_of(d, 0) {
            Some(k) => decimal_text(n, k),
            None => if in_working_range((n, d)) {
                hundredths_text(round_hundredths(minus((n, d), (0, 1))))
            } else {
                Seq::empty()
            },
        },
        Scalar::Str(t) => t,
    }
}

fn padded_exec(n: u128, width: u32) -> (r: Vec<char>)
    ensures
        r@ == padded_digits(n as int, width as nat),
    decreases width,
{
    if width == 0 {
        Vec::new()
    } else {
        let mut v = padded_exec(n / 10, width - 1);
        v.push(digit_char_exec(n % 10));
        v
    }
}

fn scale_of_exec(den: u64) -> (r: Option<u32>)
    ensures
        match r {
            Some(k) => scale_of(den as int, 0) == Some(k as nat) && k <= 18,
            None => scale_of(den as int, 0) is None,
        },
{
    let mut k: u32 = 0;
    while k <= 18
        invariant
            k <= 19,
            scale_of(den as int, 0) == scale_of(den as int, k as nat),
        decreases 19 - k,
    {
        let p = pow10_exec(k);
        if p == den {
            return Some(k);
        }
        k = k + 1;
    }
    None
}

fn decimal_text_exec(n: i64, k: u32) -> (r: String)
    requires
        k <= 18,
        n >= -crate::value::NUM_LIMIT,
    ensures
        r@ == decimal_text(n as int, k as nat),
{
    let a: u128 = if n < 0 { (-n) as u128 } else { n as u128 };
    let p: u128 = pow10_exec(k) as u128;
    proof {
        crate::value::lemma_pow10_pos(k as nat);
    }
    let mut out: Vec<char> = Vec::new();
    if n < 0 {
        out.push('-');
    }
    let ip = nat_text_exec(a / p);
    let mut i: usize = 0;
    let ghost start = out@;
    while i < ip.len()
        invariant
            i <= ip@.len(),
            out@ == start + ip@.subrange(0, i as int),
        decreases ip@.len() - i,
    {
        out.push(ip[i]);
        i = i + 1;
        assert(out@ =~= start + ip@.subrange(0, i as int));
    }
    assert(ip@.subrange(0, i as int) =~= ip@);
    let ghost mid = out@;
    if k > 0 {
        out.push('.');
        let fp = padded_exec(a % p, k);
        let mut j: usize = 0;
        let ghost s2 = out@;
        while j < fp.len()
            invariant
                j <= fp@.len(),
                out@ == s2 + fp@.subrange(0, j as int),
            decreases fp@.len() - j,
        {
            out.push(fp[j]);
            j = j + 1;
            assert(out@ =~= s2 + fp@.subrange(0, j as int));
        }
        assert(fp@.subrange(0, j as int) =~= fp@);
    }
    proof {
        let body = nat_text((a / p) as nat) + if k == 0 {
            Seq::<char>::empty()
        } else {
            seq!['.'] + padded_digits((a % p) as int, k as nat)
        };
        if n < 0 {
            assert(out@ =~= seq!['-'] + body);
        } else {
            assert(out@ =~= body);
        }
    }
    string_of(&out)
}

/// The text of a cell; see `cell_text`.
pub fn cell_text_exec(v: &Value) -> (r: String)
    requires
        v.wf(),
    ensures
        r@ == cell_text(v@),
{
    match v {
        Value::Null => String::new(),
        Value::Bool(b) => if *b { "true".to_owned() } else { "false".to_owned() },
        Value::Number(n) => match scale_of_exec(n.den) {
            Some(k) => decimal_text_exec(n.num, k),
            None => match difference_text(*n, Number { num: 0, den: 1 }) {
                Some(t) => t,
                None => String::new(),
            },
        },
        Value::Text(t) => t.clone(),
    }
}

/// The cells of one row under `headers`; a column the row lacks is empty.
pub fn row_cells(row: &Row, headers: &Vec<String>) -> (r: Vec<String>)
    requires
        row.wf(),
    ensures
        r@.len() == headers@.len(),
        forall|i: int| 0 <= i < r@.len() ==> (#[trigger] r@[i])@ == cell_text(field_of(row@, headers@[i]@)),
{
    let mut out: Vec<String> = Vec::new();
    let mut i: usize = 0;
    while i < headers.len()
        invariant
            row.wf(),
            i <= headers@.len(),
            out@.len() == i,
            forall|j: int| 0 <= j < i ==> (#[trigger] out@[j])@ == cell_text(field_of(row@, headers@[j]@)),
        decreases headers@.len() - i,
    {
        let v = row.get(headers[i].as_str());
        out.push(cell_text_exec(&v));
        i = i + 1;
    }
    out
}

/// The amount-difference cell of a joined row: the amount in column `a`
/// minus the amount in column `b`, with two decimals; empty out of range.
pub fn difference_cell(row: &Row, a: &str, b: &str) -> (r: String)
    requires
        row.wf(),
    ensures
        ({
            let x = amount_of(field_of(row@, a@));
            let y = amount_of(field_of(row@, b@));
            r@ == if in_working_range(x) && in_working_range(y) {
                hundredths_text(round_hundredths(minus(x, y)))
            } else {
                Seq::<char>::empty()
            }
        }),
{
    let x = amount_value(&row.get(a));
    let y = amount_value(&row.get(b));
    match difference_text(x, y) {
        Some(t) => t,
        None => String::new(),
    }
}

/// Whether `h` is source A's amount column in an amount-mismatch export.
pub open spec fn is_a_amount(h: Seq<char>) -> bool {
    contains_text(lower_of(h), "amount"@) && contains_text(lower_of(h), "sourcea"@)
}

/// Whether `h` is source B's amount column in an amount-mismatch export.
pub open spec fn is_b_amount(h: Seq<char>) -> bool {
    contains_text(lower_of(h), "amount"@) && !contains_text(lower_of(h), "sourcea"@) && contains_text(
        lower_of(h),
        "sourceb"@,
    )
}

/// The last name of `all` that is source A's (`b` false) or source B's (`b`
/// true) amount column.
pub open spec fn last_amount(all: Seq<Seq<char>>, b: bool) -> Option<Seq<char>>
    decreases all.len(),
{
    if all.len() == 0 {
        None
    } else if (if b { is_b_amount(all.last()) } else { is_a_amount(all.last()) }) {
        Some(all.last())
    } else {
        last_amount(all.drop_last(), b)
    }
}

/// In an amount-mismatch export, whether `h` is a status column (`k` 3) or
/// another kept column (`k` 4), given the chosen amount columns `a` and `b`.
pub open spec fn in_diff_group(h: Seq<char>, k: int, a: Option<Seq<char>>, b: Option<Seq<char>>) -> bool {
    let chosen = is_id_column(h) || is_time_column(h) || a == Some(h) || b == Some(h);
    let status = !chosen && contains_text(lower_of(h), "status"@);
    if k == 3 {
        status
    } else {
        !chosen && !status && (starts_with(h, "source"@) || contains_text(h, "normalized"@) || contains_text(h, "original"@))
    }
}

pub open spec fn diff_group_of(all: Seq<Seq<char>>, k: int, a: Option<Seq<char>>, b: Option<Seq<char>>) -> Seq<Seq<char>>
    decreases all.len(),
{
    if all.len() == 0 {
        Seq::empty()
    } else {
        let p = diff_group_of(all.drop_last(), k, a, b);
        if in_diff_group(all.last(), k, a, b) {
            p.push(all.last())
        } else {
            p
        }
    }
}

pub open spec fn opt_seq(o: Option<Seq<char>>) -> Seq<Seq<char>> {
    match o {
        Some(x) => seq![x],
        None => Seq::empty(),
    }
}

/// The name of the computed difference column.
pub open spec fn difference_column() -> Seq<char> {
    "金额差异"@
}

/// The column order of an amount-mismatch export of the names `all`:
/// identifiers, times, source A's amount, source B's amount, statuses, the
/// other kept columns, and the difference column when both amounts exist.
pub open spec fn ordered_diff_headers(all: Seq<Seq<char>>) -> Seq<Seq<char>> {
    let a = last_amount(all, false);
    let b = last_amount(all, true);
    group_of(all, 0) + group_of(all, 1) + opt_seq(a) + opt_seq(b) + diff_group_of(all, 3, a, b)
        + diff_group_of(all, 4, a, b) + if a is Some && b is Some {
        seq![difference_column()]
    } else {
        Seq::empty()
    }
}

fn last_amount_exec(all: &Vec<String>, b: bool) -> (r: Option<String>)
    ensures
        match r {
            Some(x) => last_amount(all@.map_values(|s: String| s@), b) == Some(x@),
            None => last_amount(all@.map_values(|s: String| s@), b) is None,
        },
{
    let ghost names = all@.map_values(|s: String| s@);
    let mut i: usize = all.len();
    assert(names.subrange(0, names.len() as int) =~= names);
    while i > 0
        invariant
            i <= all@.len(),
            names == all@.map_values(|s: String| s@),
            last_amount(names, b) == last_amount(names.subrange(0, i as int), b),
        decreases i,
    {
        let ghost pre = names.subrange(0, i as int);
        assert(pre.drop_last() =~= names.subrange(0, i - 1));
        assert(pre.last() == all@[i - 1]@);
        let low = lowercase(all[i - 1].as_str());
        let amount = contains_str(low.as_str(), "amount");
        let sa = contains_str(low.as_str(), "sourcea");
        let hit = if b { amount && !sa && contains_str(low.as_str(), "sourceb") } else { amount && sa };
        if hit {
            return Some(all[i - 1].clone());
        }
        i = i - 1;
    }
    None
}

fn opt_eq(o: &Option<String>, h: &String) -> (r: bool)
    ensures
        r == (match o { Some(x) => Some(x@), None => None::<Seq<char>> } == Some(h@)),
{
    match o {
        Some(x) => *x == *h,
        None => false,
    }
}

fn append_diff_group(out: &mut Vec<String>, all: &Vec<String>, k: usize, a: &Option<String>, b: &Option<String>)
    ensures
        final(out)@.map_values(|s: String| s@) == old(out)@.map_values(|s: String| s@) + diff_group_of(
            all@.map_values(|s: String| s@),
            k as int,
            match a { Some(x) => Some(x@), None => None::<Seq<char>> },
            match b { Some(x) => Some(x@), None => None::<Seq<char>> },
        ),
{
    let ghost names = all@.map_values(|s: String| s@);
    let ghost av = match a { Some(x) => Some(x@), None => None::<Seq<char>> };
    let ghost bv = match b { Some(x) => Some(x@), None => None::<Seq<char>> };
    let ghost base = out@.map_values(|s: String| s@);
    let mut i: usize = 0;
    assert(names.subrange(0, 0) =~= Seq::<Seq<char>>::empty());
    assert(base + Seq::<Seq<char>>::empty() =~= base);
    while i < all.len()
        invariant
            i <= all@.len(),
            names == all@.map_values(|s: String| s@),
            av == match a { Some(x) => Some(x@), None => None::<Seq<char>> },
            bv == match b { Some(x) => Some(x@), None => None::<Seq<char>> },
            out@.map_values(|s: String| s@) == base + diff_group_of(names.subrange(0, i as int), k as int, av, bv),
        decreases all@.len() - i,
    {
        let ghost pre = names.subrange(0, i + 1);
        assert(pre.drop_last() =~= names.subrange(0, i as int));
        assert(pre.last() == all@[i as int]@);
        let h = &all[i];
        let chosen = in_group_exec(h.as_str(), 0) || in_group_exec(h.as_str(), 1) || opt_eq(a, h) || opt_eq(b, h);
        let low = lowercase(h.as_str());
        let status = !chosen && contains_str(low.as_str(), "status");
        let hit = if k == 3 {
            status
        } else {
            !chosen && !status && (starts_with_exec(h.as_str(), "source") || contains_str(h.as_str(), "normalized")
                || contains_str(h.as_str(), "original"))
        };
        if hit {
            let ghost prev = out@.map_values(|s: String| s@);
            out.push(h.clone());
            assert(out@.map_values(|s: String| s@) =~= prev.push(all@[i as int]@));
        }
        i = i + 1;
    }
    assert(names.subrange(0, i as int) =~= names);
}

/// The column order of an amount-mismatch export, with source A's and
/// source B's amount columns when found.
pub fn order_diff_headers(all: &Vec<String>) -> (r: (Vec<String>, Option<String>, Option<String>))
    ensures
        r.0@.map_values(|s: String| s@) == ordered_diff_headers(all@.map_values(|s: String| s@)),
        match r.1 { Some(x) => Some(x@), None => None::<Seq<char>> } == last_amount(all@.map_values(|s: String| s@), false),
        match r.2 { Some(x) => Some(x@), None => None::<Seq<char>> } == last_amount(all@.map_values(|s: String| s@), true),
{
    let ghost names = all@.map_values(|s: String| s@);
    let a = last_amount_exec(all, false);
    let b = last_amount_exec(all, true);
    let mut out: Vec<String> = Vec::new();
    assert(out@.map_values(|s: String| s@) =~= Seq::<Seq<char>>::empty());
    append_group(&mut out, all, 0);
    append_group(&mut out, all, 1);
    match &a {
        Some(x) => {
            let ghost prev = out@.map_values(|s: String| s@);
            out.push(x.clone());
            assert(out@.map_values(|s: String| s@) =~= prev + seq![x@]);
        },
        None => {
            assert(out@.map_values(|s: String| s@) =~= out@.map_values(|s: String| s@) + Seq::<Seq<char>>::empty());
        },
    }
    match &b {
        Some(x) => {
            let ghost prev = out@.map_values(|s: String| s@);
            out.push(x.clone());
            assert(out@.map_values(|s: String| s@) =~= prev + seq![x@]);
        },
        None => {
            assert(out@.map_values(|s: String| s@) =~= out@.map_values(|s: String| s@) + Seq::<Seq<char>>::empty());
        },
    }
    append_diff_group(&mut out, all, 3, &a, &b);
    append_diff_group(&mut out, all, 4, &a, &b);
    let ghost prev = out@.map_values(|s: String| s@);
    let both = a.is_some() && b.is_some();
    if both {
        out.push(string_of(&chars_of("金额差异")));
        assert(out@.map_values(|s: String| s@) =~= prev + seq![difference_column()]);
    } else {
        assert(out@.map_values(|s: String| s@) =~= prev + Seq::<Seq<char>>::empty());
    }
    assert(out@.map_values(|s: String| s@) =~= ordered_diff_headers(names));
    (out, a, b)
}

} // verus!
