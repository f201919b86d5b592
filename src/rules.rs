//! The rule pipeline: ordered per-column transformations that derive a
//! canonical field from a raw column.
//!
//! Textual operations act on text values; a value of another kind passes
//! through them unchanged. Numeric operations read text as a decimal literal.
//! An unknown operation tag, or a parameter that does not parse, leaves the
//! value as it is.

use vstd::prelude::*;
use crate::models::{ColumnMapping, FormatRule};
use crate::row::{Row, RowModel, field_of, set_field};
use crate::text::{chars_of, replace_all, replace_all_exec, str_eq, string_of};
use crate::value::{
    Number, Scalar, Value, abs_number, count_param, decimal_value, divide_number, index_of,
    lemma_index_of, number_abs, number_divide, parse_count, parse_decimal,
};

verus! {

/// What chrono's timestamp parser makes of `s` read as `%Y-%m-%dT%H:%M:%S`,
/// written back as `%Y-%m-%d %H:%M:%S`; none when `s` does not parse.
pub uninterp spec fn timestamp_text(s: Seq<char>) -> Option<Seq<char>>;

/// Relies on chrono's `NaiveDateTime::parse_from_str` with the format
/// `%Y-%m-%dT%H:%M:%S`, and on `format` with `%Y-%m-%d %H:%M:%S` for the text
/// of a parsed timestamp.
#[verifier::external_body]
fn reformat_timestamp(s: &str) -> (r: Option<String>)
    ensures
        match r {
            Some(t) => timestamp_text(s@) == Some(t@),
            None => timestamp_text(s@) is None,
        },
{
    match chrono::NaiveDateTime::parse_from_str(s, "%Y-%m-%dT%H:%M:%S") {
        Ok(t) => Some(t.format("%Y-%m-%d %H:%M:%S").to_string()),
        Err(_) => None,
    }
}

/// The content of the first bracketed group `[...]` holding at least one
/// character; empty when there is none.
pub open spec fn bracket_content(s: Seq<char>) -> Seq<char> {
    let i = index_of(s, '[') as int;
    if i + 2 <= s.len() {
        let rest = s.subrange(i + 2, s.len() as int);
        let j = index_of(rest, ']') as int;
        if j < rest.len() {
            s.subrange(i + 1, i + 2 + j)
        } else {
            Seq::empty()
        }
    } else {
        Seq::empty()
    }
}

/// The two sides of a `"from,to"` parameter that holds exactly one comma.
pub open spec fn replace_pair(p: Seq<char>) -> Option<(Seq<char>, Seq<char>)> {
    let i = index_of(p, ',') as int;
    let to = p.subrange(i + 1, p.len() as int);
    if i < p.len() && index_of(to, ',') == to.len() {
        Some((p.subrange(0, i), to))
    } else {
        None
    }
}

/// The number a value stands for, if any: a number itself, or text that is a
/// decimal literal.
pub open spec fn number_of(v: Scalar) -> Option<(int, int)> {
    match v {
        Scalar::Num(n, d) => Some((n, d)),
        Scalar::Str(t) => decimal_value(t),
        _ => None,
    }
}

/// `v` with its text replaced by `t`; a value of another kind is left alone.
pub open spec fn on_text(v: Scalar, t: Seq<char>) -> Scalar {
    match v {
        Scalar::Str(_) => Scalar::Str(t),
        _ => v,
    }
}

/// The text of a text value; empty for a value of another kind.
pub open spec fn text_of(v: Scalar) -> Seq<char> {
    match v {
        Scalar::Str(t) => t,
        _ => Seq::empty(),
    }
}

/// The effect of one rule, operation `op` with parameter `p`, on value `v`.
pub open spec fn rule_effect(v: Scalar, op: Seq<char>, p: Seq<char>) -> Scalar {
    let t = text_of(v);
    if op == "DEL_PRE"@ {
        match count_param(p) {
            Some(n) => on_text(v, t.subrange(if n < t.len() { n as int } else { t.len() as int }, t.len() as int)),
            None => v,
        }
    } else if op == "DEL_AFTER"@ {
        match count_param(p) {
            Some(n) => on_text(v, t.subrange(0, if n < t.len() { n as int } else { t.len() as int })),
            None => v,
        }
    } else if op == "DEL_CHAR"@ {
        on_text(v, replace_all(t, p, Seq::empty()))
    } else if op == "REPLACE_TWO_CHAR"@ {
        match replace_pair(p) {
            Some(ft) => on_text(v, replace_all(t, ft.0, ft.1)),
            None => v,
        }
    } else if op == "BRA_VALUE"@ {
        on_text(v, bracket_content(t))
    } else if op == "DIVIDE_NUMBER"@ {
        match (number_of(v), decimal_value(p)) {
            (Some(x), Some(y)) => match divide_number(x, y) {
                Some(q) => Scalar::Num(q.0, q.1),
                None => v,
            },
            _ => v,
        }
    } else if op == "ABS_VALUE"@ {
        match number_of(v) {
            Some(x) => Scalar::Num(abs_number(x).0, abs_number(x).1),
            None => v,
        }
    } else if op == "ADD_CHAR_PRE"@ {
        on_text(v, p + t)
    } else if op == "ADD_CHAR_AFTER"@ {
        on_text(v, t + p)
    } else if op == "XENDIT_TIME"@ {
        match (v, timestamp_text(t)) {
            (Scalar::Str(_), Some(u)) => Scalar::Str(u),
            _ => v,
        }
    } else {
        v
    }
}

/// The model of a rule: (operation, parameter).
pub open spec fn rule_model(r: FormatRule) -> (Seq<char>, Seq<char>) {
    (r.operation@, r.value@)
}

/// The effect of a chain of rules, applied in list order.
pub open spec fn chain_effect(v: Scalar, rules: Seq<(Seq<char>, Seq<char>)>) -> Scalar
    decreases rules.len(),
{
    if rules.len() == 0 {
        v
    } else {
        let w = chain_effect(v, rules.drop_last());
        rule_effect(w, rules.last().0, rules.last().1)
    }
}

fn index_of_exec(s: &Vec<char>, c: char) -> (r: usize)
    ensures
        r == index_of(s@, c),
{
    let mut i: usize = 0;
    while i < s.len()
        invariant
            i <= s@.len(),
            forall|t: int| 0 <= t < i ==> s@[t] != c,
        decreases s@.len() - i,
    {
        if s[i] == c {
            proof {
                lemma_index_of(s@, c, i as int);
            }
            return i;
        }
        i = i + 1;
    }
    proof {
        lemma_index_of(s@, c, i as int);
    }
    i
}

fn slice_chars(s: &Vec<char>, from: usize, to: usize) -> (r: Vec<char>)
    requires
        from <= to <= s@.len(),
    ensures
        r@ == s@.subrange(from as int, to as int),
{
    let mut out: Vec<char> = Vec::new();
    let mut i: usize = from;
    while i < to
        invariant
            from <= i <= to <= s@.len(),
            out@ == s@.subrange(from as int, i as int),
        decreases to - i,
    {
        out.push(s[i]);
        i = i + 1;
        assert(out@ =~= s@.subrange(from as int, i as int));
    }
    out
}

fn concat_chars(a: &Vec<char>, b: &Vec<char>) -> (r: Vec<char>)
    ensures
        r@ == a@ + b@,
{
    let mut out = a.clone();
    let mut i: usize = 0;
    while i < b.len()
        invariant
            i <= b@.len(),
            out@ == a@ + b@.subrange(0, i as int),
        decreases b@.len() - i,
    {
        out.push(b[i]);
        i = i + 1;
        assert(out@ =~= a@ + b@.subrange(0, i as int));
    }
    assert(b@.subrange(0, b@.len() as int) =~= b@);
    out
}

fn bracket_content_exec(s: &Vec<char>) -> (r: Vec<char>)
    ensures
        r@ == bracket_content(s@),
{
    let i = index_of_exec(s, '[');
    if i < s.len() && s.len() - i >= 2 {
        let rest = slice_chars(s, i + 2, s.len());
        let j = index_of_exec(&rest, ']');
        if j < rest.len() {
            return slice_chars(s, i + 1, i + 2 + j);
        }
    }
    Vec::new()
}

fn replace_pair_exec(p: &Vec<char>) -> (r: Option<(Vec<char>, Vec<char>)>)
    ensures
        match r {
            Some(ft) => replace_pair(p@) == Some((ft.0@, ft.1@)),
            None => replace_pair(p@) is None,
        },
{
    let i = index_of_exec(p, ',');
    if i >= p.len() {
        return None;
    }
    let to = slice_chars(p, i + 1, p.len());
    let j = index_of_exec(&to, ',');
    if j != to.len() {
        return None;
    }
    Some((slice_chars(p, 0, i), to))
}

fn number_of_exec(v: &Value) -> (r: Option<Number>)
    requires
        v.wf(),
    ensures
        match r {
            Some(n) => n.wf() && number_of(v@) == Some(n.pair()),
            None => number_of(v@) is None,
        },
{
    match v {
        Value::Number(n) => Some(*n),
        Value::Text(t) => parse_decimal(&chars_of(t.as_str())),
        _ => None,
    }
}

/// Applies one rule to a value.
pub fn apply_format_rule(v: &Value, rule: &FormatRule) -> (r: Value)
    requires
        v.wf(),
    ensures
        r.wf(),
        r@ == rule_effect(v@, rule.operation@, rule.value@),
{
    let op = rule.operation.as_str();
    let p = chars_of(rule.value.as_str());
    let t: Vec<char> = match v {
        Value::Text(s) => chars_of(s.as_str()),
        _ => Vec::new(),
    };
    let is_text = match v {
        Value::Text(_) => true,
        _ => false,
    };
    assert(t@ == text_of(v@));
    if str_eq(op, "DEL_PRE") {
        match parse_count(&p) {
            Some(n) => {
                if !is_text {
                    return v.duplicate();
                }
                let k: usize = if (n as u128) < (t.len() as u128) { n as usize } else { t.len() };
                Value::Text(string_of(&slice_chars(&t, k, t.len())))
            },
            None => v.duplicate(),
        }
    } else if str_eq(op, "DEL_AFTER") {
        match parse_count(&p) {
            Some(n) => {
                if !is_text {
                    return v.duplicate();
                }
                let k: usize = if (n as u128) < (t.len() as u128) { n as usize } else { t.len() };
                Value::Text(string_of(&slice_chars(&t, 0, k)))
            },
            None => v.duplicate(),
        }
    } else if str_eq(op, "DEL_CHAR") {
        if !is_text {
            return v.duplicate();
        }
        Value::Text(string_of(&replace_all_exec(&t, &p, &Vec::new())))
    } else if str_eq(op, "REPLACE_TWO_CHAR") {
        match replace_pair_exec(&p) {
            Some(ft) => {
                if !is_text {
                    return v.duplicate();
                }
                Value::Text(string_of(&replace_all_exec(&t, &ft.0, &ft.1)))
            },
            None => v.duplicate(),
        }
    } else if str_eq(op, "BRA_VALUE") {
        if !is_text {
            return v.duplicate();
        }
        Value::Text(string_of(&bracket_content_exec(&t)))
    } else if str_eq(op, "DIVIDE_NUMBER") {
        match (number_of_exec(v), parse_decimal(&p)) {
            (Some(x), Some(y)) => match number_divide(x, y) {
                Some(q) => Value::Number(q),
                None => v.duplicate(),
            },
            _ => v.duplicate(),
        }
    } else if str_eq(op, "ABS_VALUE") {
        match number_of_exec(v) {
            Some(x) => Value::Number(number_abs(x)),
            None => v.duplicate(),
        }
    } else if str_eq(op, "ADD_CHAR_PRE") {
        if !is_text {
            return v.duplicate();
        }
        Value::Text(string_of(&concat_chars(&p, &t)))
    } else if str_eq(op, "ADD_CHAR_AFTER") {
        if !is_text {
            return v.duplicate();
        }
        Value::Text(string_of(&concat_chars(&t, &p)))
    } else if str_eq(op, "XENDIT_TIME") {
        match v {
            Value::Text(s) => match reformat_timestamp(s.as_str()) {
                Some(u) => Value::Text(u),
                None => v.duplicate(),
            },
            _ => v.duplicate(),
        }
    } else {
        v.duplicate()
    }
}

/// Applies a chain of rules in list order, each to the previous one's output.
pub fn apply_format_rules(v: &Value, rules: &Vec<FormatRule>) -> (r: Value)
    requires
        v.wf(),
    ensures
        r.wf(),
        r@ == chain_effect(v@, rules@.map_values(|x: FormatRule| rule_model(x))),
{
    let ghost models = rules@.map_values(|x: FormatRule| rule_model(x));
    let mut cur = v.duplicate();
    let mut i: usize = 0;
    assert(models.subrange(0, 0) =~= Seq::<(Seq<char>, Seq<char>)>::empty());
    while i < rules.len()
        invariant
            i <= rules@.len(),
            models == rules@.map_values(|x: FormatRule| rule_model(x)),
            cur.wf(),
            cur@ == chain_effect(v@, models.subrange(0, i as int)),
        decreases rules@.len() - i,
    {
        let next = apply_format_rule(&cur, &rules[i]);
        assert(models.subrange(0, i + 1).drop_last() =~= models.subrange(0, i as int));
        cur = next;
        i = i + 1;
    }
    assert(models.subrange(0, i as int) =~= models);
    cur
}

/// The model of a column mapping: (source column, target field, rules, keep original).
pub open spec fn mapping_model(m: ColumnMapping) -> (Seq<char>, Seq<char>, Seq<(Seq<char>, Seq<char>)>, bool) {
    (m.source_column@, m.field_name@, m.format_rules@.map_values(|x: FormatRule| rule_model(x)), m.save_original)
}

/// The name under which the untransformed source value of `field` is kept.
pub open spec fn original_name(field: Seq<char>) -> Seq<char> {
    field + "_original"@
}

/// One mapping applied to a row: the target field receives the rule chain's
/// output on the source column, and, when asked, the untransformed source value
/// is kept under the derived name.
pub open spec fn apply_mapping(r: RowModel, m: (Seq<char>, Seq<char>, Seq<(Seq<char>, Seq<char>)>, bool)) -> RowModel {
    let src = field_of(r, m.0);
    let out = set_field(r, m.1, chain_effect(src, m.2));
    if m.3 {
        set_field(out, original_name(m.1), src)
    } else {
        out
    }
}

/// All mappings applied to a row, in list order.
pub open spec fn clean_row(r: RowModel, ms: Seq<(Seq<char>, Seq<char>, Seq<(Seq<char>, Seq<char>)>, bool)>) -> RowModel
    decreases ms.len(),
{
    if ms.len() == 0 {
        r
    } else {
        apply_mapping(clean_row(r, ms.drop_last()), ms.last())
    }
}

/// Applies every mapping, in list order, to one row.
pub fn clean_row_exec(row: &Row, mappings: &Vec<ColumnMapping>) -> (r: Row)
    requires
        row.wf(),
    ensures
        r.wf(),
        r@ == clean_row(row@, mappings@.map_values(|m: ColumnMapping| mapping_model(m))),
{
    let ghost ms = mappings@.map_values(|m: ColumnMapping| mapping_model(m));
    let mut cur = row.duplicate();
    let mut i: usize = 0;
    assert(ms.subrange(0, 0) =~= Seq::<(Seq<char>, Seq<char>, Seq<(Seq<char>, Seq<char>)>, bool)>::empty());
    while i < mappings.len()
        invariant
            i <= mappings@.len(),
            ms == mappings@.map_values(|m: ColumnMapping| mapping_model(m)),
            cur.wf(),
            cur@ == clean_row(row@, ms.subrange(0, i as int)),
        decreases mappings@.len() - i,
    {
        let m = &mappings[i];
        let src = cur.get(m.source_column.as_str());
        let out = apply_format_rules(&src, &m.format_rules);
        cur.set(m.field_name.clone(), out);
        if m.save_original {
            let name = string_of(&concat_chars(&chars_of(m.field_name.as_str()), &chars_of("_original")));
            cur.set(name, src);
        }
        assert(ms.subrange(0, i + 1).drop_last() =~= ms.subrange(0, i as int));
        i = i + 1;
    }
    assert(ms.subrange(0, i as int) =~= ms);
    cur
}

/// Applies the mappings to every row of a batch; rows keep their order.
pub fn apply_data_cleaning(rows: &Vec<Row>, mappings: &Vec<ColumnMapping>) -> (r: Vec<Row>)
    requires
        forall|i: int| 0 <= i < rows@.len() ==> (#[trigger] rows@[i]).wf(),
    ensures
        r@.len() == rows@.len(),
        forall|i: int| 0 <= i < r@.len() ==> (#[trigger] r@[i]).wf() && r@[i]@ == clean_row(
            rows@[i]@,
            mappings@.map_values(|m: ColumnMapping| mapping_model(m)),
        ),
{
    let mut out: Vec<Row> = Vec::new();
    let mut i: usize = 0;
    while i < rows.len()
        invariant
            i <= rows@.len(),
            out@.len() == i,
            forall|j: int| 0 <= j < rows@.len() ==> (#[trigger] rows@[j]).wf(),
            forall|j: int| 0 <= j < i ==> (#[trigger] out@[j]).wf() && out@[j]@ == clean_row(
                rows@[j]@,
                mappings@.map_values(|m: ColumnMapping| mapping_model(m)),
            ),
        decreases rows@.len() - i,
    {
        out.push(clean_row_exec(&rows[i], mappings));
        i = i + 1;
    }
    out
}

} // verus!
