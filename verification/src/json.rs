//! The JSON text codec of the store.
//!
//! The grammar is stated exactly by the spec functions below: a document is
//! one object `{"name":value,...}` with insignificant whitespace allowed
//! between tokens; strings carry the one-letter escapes and four-digit
//! hexadecimal escapes; integer literals cover the 64-bit range, without
//! leading zeros; numbers with a fraction or exponent are doubles, kept as
//! their text. Serialization writes explicit values only — schema defaults
//! are not part of a document.
//!
//! Four inputs are refused by decision rather than omission: `null`, which
//! has no tag in the store; an array element that is not an object, since
//! the store's arrays hold objects alone; a hexadecimal escape naming a
//! surrogate code point, which is no scalar value; and a repeated field
//! name, which would break the store's one-value-per-key shape.

use vstd::prelude::*;
use crate::model::{
    SpecValue, SpecItem, SpecObj, contains_name, lemma_contains_name_iff, distinct_names, wf_value,
    wf_item, wf_obj,
};
use crate::data::{
    DataValue, DataItem, DataObj, DataArray, DoubleText, view_value, view_item, view_items,
    view_obj, view_objs,
};

verus! {

/// A character that may stand inside a string literal: not a quote, not a
/// backslash, not a control character.
pub open spec fn is_plain_char(c: char) -> bool {
    c != '"' && c != '\\' && c as int >= 32
}

/// A decimal digit.
pub open spec fn is_digit(c: char) -> bool {
    48 <= c as int <= 57
}

/// A character that may stand inside a number literal.
pub open spec fn is_num_char(c: char) -> bool {
    is_digit(c) || c == '-' || c == '+' || c == '.' || c == 'e' || c == 'E'
}

/// The value of a decimal digit character.
pub open spec fn digit_val(c: char) -> int {
    c as int - 48
}

/// The digit character of a decimal digit value.
pub open spec fn digit_char(d: int) -> char {
    (48 + d) as char
}

/// The value of a run of decimal digits, most significant first.
pub open spec fn digits_value(s: Seq<char>) -> int
    decreases s.len(),
{
    if s.len() == 0 {
        0
    } else {
        digits_value(s.drop_last()) * 10 + digit_val(s.last())
    }
}

/// The length of the run of decimal digits starting at `pos`.
pub open spec fn digits_run(s: Seq<char>, pos: int) -> int
    decreases s.len() - pos,
{
    if pos < 0 || pos >= s.len() || !is_digit(s[pos]) {
        0
    } else {
        1 + digits_run(s, pos + 1)
    }
}

/// The length of the run of number characters starting at `pos`.
pub open spec fn num_run(s: Seq<char>, pos: int) -> int
    decreases s.len() - pos,
{
    if pos < 0 || pos >= s.len() || !is_num_char(s[pos]) {
        0
    } else {
        1 + num_run(s, pos + 1)
    }
}

/// A hexadecimal digit: `0-9`, `a-f` or `A-F`.
pub open spec fn is_hex(c: char) -> bool {
    is_digit(c) || 97 <= c as int <= 102 || 65 <= c as int <= 70
}

/// The value of a hexadecimal digit character.
pub open spec fn hex_val(c: char) -> int {
    if is_digit(c) {
        c as int - 48
    } else if 97 <= c as int <= 102 {
        c as int - 87
    } else {
        c as int - 55
    }
}

/// The lower-case hexadecimal digit character of a value below sixteen.
pub open spec fn hex_digit(d: int) -> char {
    if d < 10 {
        digit_char(d)
    } else {
        (87 + d) as char
    }
}

/// The decoded character of a one-letter escape, if the letter is one.
pub open spec fn esc_char_of(c: char) -> Option<char> {
    if c == '"' {
        Some('"')
    } else if c == '\\' {
        Some('\\')
    } else if c == '/' {
        Some('/')
    } else if c == 'b' {
        Some('\u{8}')
    } else if c == 'f' {
        Some('\u{c}')
    } else if c == 'n' {
        Some('\n')
    } else if c == 'r' {
        Some('\r')
    } else if c == 't' {
        Some('\t')
    } else {
        None
    }
}

/// How one character stands inside a string literal: itself when plain, a
/// one-letter escape where one exists, a four-digit hexadecimal escape for
/// the remaining control characters.
pub open spec fn esc_seq(c: char) -> Seq<char> {
    if c == '"' {
        seq!['\\', '"']
    } else if c == '\\' {
        seq!['\\', '\\']
    } else if c == '\u{8}' {
        seq!['\\', 'b']
    } else if c == '\u{c}' {
        seq!['\\', 'f']
    } else if c == '\n' {
        seq!['\\', 'n']
    } else if c == '\r' {
        seq!['\\', 'r']
    } else if c == '\t' {
        seq!['\\', 't']
    } else if (c as int) < 32 {
        seq!['\\', 'u', '0', '0', hex_digit(c as int / 16), hex_digit(c as int % 16)]
    } else {
        seq![c]
    }
}

/// A whole string, escaped.
pub open spec fn esc_all(s: Seq<char>) -> Seq<char>
    decreases s.len(),
{
    if s.len() == 0 {
        Seq::empty()
    } else {
        esc_seq(s[0]) + esc_all(s.drop_first())
    }
}

/// Insignificant whitespace: space, tab, line feed, carriage return.
pub open spec fn is_ws(c: char) -> bool {
    c == ' ' || c == '\t' || c == '\n' || c == '\r'
}

/// The length of the whitespace run starting at `pos`.
pub open spec fn ws_run(s: Seq<char>, pos: int) -> int
    decreases s.len() - pos,
{
    if pos < 0 || pos >= s.len() || !is_ws(s[pos]) {
        0
    } else {
        1 + ws_run(s, pos + 1)
    }
}

/// The first position at or after `pos` holding no whitespace.
pub open spec fn skip_ws(s: Seq<char>, pos: int) -> int {
    pos + ws_run(s, pos)
}

/// The value a whole number literal denotes: a 64-bit integer when the
/// literal is a plain integer whose value fits, a double — kept as its text —
/// when it carries a fraction or an exponent, nothing otherwise. A leading
/// zero is refused unless the integer part is exactly `0`.
pub open spec fn number_of_text(t: Seq<char>) -> Option<SpecValue> {
    let p0: int = if t.len() > 0 && t[0] == '-' {
        1
    } else {
        0
    };
    let d1: int = digits_run(t, p0);
    let p1: int = p0 + d1;
    if d1 == 0 {
        None
    } else if d1 > 1 && t[p0] == '0' {
        None
    } else if p1 == t.len() {
        let v: int = if p0 == 1 {
            -digits_value(t.subrange(p0, p1))
        } else {
            digits_value(t.subrange(p0, p1))
        };
        if i64::MIN <= v <= i64::MAX {
            Some(SpecValue::Int { i: v as i64 })
        } else {
            None
        }
    } else {
        let p2: int = if t[p1] == '.' {
            let d2: int = digits_run(t, p1 + 1);
            if d2 == 0 {
                -1
            } else {
                p1 + 1 + d2
            }
        } else {
            p1
        };
        if p2 == -1 {
            None
        } else if p2 == t.len() {
            Some(SpecValue::Dbl { text: t })
        } else if t[p2] == 'e' || t[p2] == 'E' {
            let p3: int = if p2 + 1 < t.len() && (t[p2 + 1] == '+' || t[p2 + 1] == '-') {
                p2 + 2
            } else {
                p2 + 1
            };
            let d3: int = digits_run(t, p3);
            if d3 > 0 && p3 + d3 == t.len() {
                Some(SpecValue::Dbl { text: t })
            } else {
                None
            }
        } else {
            None
        }
    }
}

/// Parses the body of a string literal at `pos`, up to and past its closing
/// quote: plain characters stand for themselves, a backslash opens a
/// one-letter or four-digit hexadecimal escape, and a surrogate code point
/// or a bare control character is refused.
pub open spec fn sp_str_body(s: Seq<char>, pos: int) -> Option<(Seq<char>, int)>
    decreases s.len() - pos,
{
    if pos < 0 || pos >= s.len() {
        None
    } else if s[pos] == '"' {
        Some((Seq::empty(), pos + 1))
    } else if s[pos] == '\\' {
        if pos + 1 < s.len() {
            if s[pos + 1] == 'u' {
                if pos + 6 <= s.len() && is_hex(s[pos + 2]) && is_hex(s[pos + 3]) && is_hex(
                    s[pos + 4],
                ) && is_hex(s[pos + 5]) {
                    let cp: int = hex_val(s[pos + 2]) * 4096 + hex_val(s[pos + 3]) * 256 + hex_val(
                        s[pos + 4],
                    ) * 16 + hex_val(s[pos + 5]);
                    if 0xD800 <= cp <= 0xDFFF {
                        None
                    } else {
                        match sp_str_body(s, pos + 6) {
                            Some((rest, p)) => Some((seq![cp as char] + rest, p)),
                            None => None,
                        }
                    }
                } else {
                    None
                }
            } else {
                match esc_char_of(s[pos + 1]) {
                    Some(c) => match sp_str_body(s, pos + 2) {
                        Some((rest, p)) => Some((seq![c] + rest, p)),
                        None => None,
                    },
                    None => None,
                }
            }
        } else {
            None
        }
    } else if is_plain_char(s[pos]) {
        match sp_str_body(s, pos + 1) {
            Some((rest, p)) => Some((seq![s[pos]] + rest, p)),
            None => None,
        }
    } else {
        None
    }
}

/// Parses a string literal at `pos`: a quote, its body, a quote.
pub open spec fn sp_string(s: Seq<char>, pos: int) -> Option<(Seq<char>, int)> {
    if 0 <= pos < s.len() && s[pos] == '"' {
        sp_str_body(s, pos + 1)
    } else {
        None
    }
}

/// Parses `true` or `false` at `pos`.
pub open spec fn sp_bool(s: Seq<char>, pos: int) -> Option<(SpecValue, int)> {
    if 0 <= pos && pos + 4 <= s.len() && s[pos] == 't' && s[pos + 1] == 'r' && s[pos + 2] == 'u'
        && s[pos + 3] == 'e' {
        Some((SpecValue::Bool { b: true }, pos + 4))
    } else if 0 <= pos && pos + 5 <= s.len() && s[pos] == 'f' && s[pos + 1] == 'a' && s[pos + 2]
        == 'l' && s[pos + 3] == 's' && s[pos + 4] == 'e' {
        Some((SpecValue::Bool { b: false }, pos + 5))
    } else {
        None
    }
}

/// Parses a number literal at `pos`: the maximal run of number characters,
/// classified by `number_of_text`.
pub open spec fn sp_number(s: Seq<char>, pos: int) -> Option<(SpecValue, int)> {
    let n: int = num_run(s, pos);
    if n == 0 {
        None
    } else {
        match number_of_text(s.subrange(pos, pos + n)) {
            Some(v) => Some((v, pos + n)),
            None => None,
        }
    }
}

/// Parses one value at `pos`, dispatched on its first character.
pub open spec fn sp_value(s: Seq<char>, pos: int) -> Option<(SpecValue, int)>
    decreases s.len() - pos, 2int,
{
    if pos < 0 || pos >= s.len() {
        None
    } else if s[pos] == '{' {
        match sp_obj(s, pos) {
            Some((o, p)) => Some((SpecValue::Obj { o }, p)),
            None => None,
        }
    } else if s[pos] == '[' {
        match sp_arr(s, pos) {
            Some((v, p)) => Some((v, p)),
            None => None,
        }
    } else if s[pos] == '"' {
        match sp_string(s, pos) {
            Some((t, p)) => Some((SpecValue::Str { s: t }, p)),
            None => None,
        }
    } else if s[pos] == 't' || s[pos] == 'f' {
        sp_bool(s, pos)
    } else {
        sp_number(s, pos)
    }
}

/// Parses an object at `pos`: `{}` or `{` members `}`.
pub open spec fn sp_obj(s: Seq<char>, pos: int) -> Option<(SpecObj, int)>
    decreases s.len() - pos, 0int,
{
    if 0 <= pos < s.len() && s[pos] == '{' {
        let q = skip_ws(s, pos + 1);
        if !(pos + 1 <= q <= s.len()) {
            None
        } else if q < s.len() && s[q] == '}' {
            Some((SpecObj { items: Seq::empty() }, q + 1))
        } else {
            match sp_members(s, q) {
                Some((items, p)) => Some((SpecObj { items }, p)),
                None => None,
            }
        }
    } else {
        None
    }
}

/// Parses one or more `"name":value` pairs at `pos`, separated by commas and
/// closed by `}`. A repeated name is refused.
pub open spec fn sp_members(s: Seq<char>, pos: int) -> Option<(Seq<SpecItem>, int)>
    decreases s.len() - pos, 1int,
{
    match sp_string(s, pos) {
        None => None,
        Some((name, p1)) => if !(pos < p1 <= s.len()) {
            None
        } else {
            let q1 = skip_ws(s, p1);
            if !(p1 <= q1 <= s.len()) {
                None
            } else if q1 < s.len() && s[q1] == ':' {
                let q2 = skip_ws(s, q1 + 1);
                if !(q1 + 1 <= q2 <= s.len()) {
                    None
                } else {
                    match sp_value(s, q2) {
                        None => None,
                        Some((v, p2)) => if !(q2 < p2 <= s.len()) {
                            None
                        } else {
                            let item = SpecItem { name, value: Some(v), default: None };
                            let q3 = skip_ws(s, p2);
                            if !(p2 <= q3 <= s.len()) {
                                None
                            } else if q3 < s.len() && s[q3] == ',' {
                                let q4 = skip_ws(s, q3 + 1);
                                if !(q3 + 1 <= q4 <= s.len()) {
                                    None
                                } else {
                                    match sp_members(s, q4) {
                                        None => None,
                                        Some((rest, p3)) => if contains_name(rest, name) {
                                            None
                                        } else {
                                            Some((seq![item] + rest, p3))
                                        },
                                    }
                                }
                            } else if q3 < s.len() && s[q3] == '}' {
                                Some((seq![item], q3 + 1))
                            } else {
                                None
                            }
                        },
                    }
                }
            } else {
                None
            }
        },
    }
}

/// Parses an array at `pos`: `[]` or `[` objects `]`. Elements are objects.
pub open spec fn sp_arr(s: Seq<char>, pos: int) -> Option<(SpecValue, int)>
    decreases s.len() - pos, 1int,
{
    if 0 <= pos < s.len() && s[pos] == '[' {
        let q = skip_ws(s, pos + 1);
        if !(pos + 1 <= q <= s.len()) {
            None
        } else if q < s.len() && s[q] == ']' {
            Some((SpecValue::Arr { objs: Seq::empty() }, q + 1))
        } else {
            match sp_elems(s, q) {
                Some((objs, p)) => Some((SpecValue::Arr { objs }, p)),
                None => None,
            }
        }
    } else {
        None
    }
}

/// Parses one or more objects at `pos`, separated by commas and closed by
/// `]`.
pub open spec fn sp_elems(s: Seq<char>, pos: int) -> Option<(Seq<SpecObj>, int)>
    decreases s.len() - pos, 1int,
{
    match sp_obj(s, pos) {
        None => None,
        Some((o, p1)) => if !(pos < p1 <= s.len()) {
            None
        } else {
            let q = skip_ws(s, p1);
            if !(p1 <= q <= s.len()) {
                None
            } else if q < s.len() && s[q] == ',' {
                let q2 = skip_ws(s, q + 1);
                if !(q + 1 <= q2 <= s.len()) {
                    None
                } else {
                    match sp_elems(s, q2) {
                        None => None,
                        Some((rest, p2)) => Some((seq![o] + rest, p2)),
                    }
                }
            } else if q < s.len() && s[q] == ']' {
                Some((seq![o], q + 1))
            } else {
                None
            }
        },
    }
}

/// Parses a whole document: one object, possibly surrounded by whitespace,
/// covering all of `s`.
pub open spec fn sp_document(s: Seq<char>) -> Option<SpecObj> {
    match sp_obj(s, skip_ws(s, 0)) {
        Some((o, p)) => if p <= s.len() && skip_ws(s, p) == s.len() {
            Some(o)
        } else {
            None
        },
        None => None,
    }
}

/// Whether any field of `items` holds an explicit value.
pub open spec fn has_explicit(items: Seq<SpecItem>) -> bool {
    exists|i: int| 0 <= i < items.len() && (#[trigger] items[i]).value is Some
}

/// The decimal digits of `n`, most significant first, no leading zeros.
pub open spec fn int_digits(n: nat) -> Seq<char>
    decreases n,
{
    if n < 10 {
        seq![digit_char(n as int)]
    } else {
        int_digits(n / 10).push(digit_char((n % 10) as int))
    }
}

/// The decimal text of `i`: a `-` sign first for a negative value, then the
/// digits of its magnitude.
pub open spec fn int_text(i: int) -> Seq<char> {
    if i < 0 {
        seq!['-'] + int_digits((-i) as nat)
    } else {
        int_digits(i as nat)
    }
}

/// Serializes one value. A string with a character the grammar cannot carry,
/// an integer of more than eighteen digits, or a double whose text is not a
/// double literal of the grammar has no serialization.
pub open spec fn ser_value(v: SpecValue) -> Option<Seq<char>>
    decreases v, 1int,
{
    match v {
        SpecValue::Str { s } => Some(seq!['"'] + esc_all(s) + seq!['"']),
        SpecValue::Int { i } => Some(int_text(i as int)),
        SpecValue::Dbl { text } => if number_of_text(text) == Some(SpecValue::Dbl { text }) {
            Some(text)
        } else {
            None
        },
        SpecValue::Bool { b } => if b {
            Some(seq!['t', 'r', 'u', 'e'])
        } else {
            Some(seq!['f', 'a', 'l', 's', 'e'])
        },
        SpecValue::Obj { o } => ser_obj(o),
        SpecValue::Arr { objs } => if objs.len() == 0 {
            Some(seq!['[', ']'])
        } else {
            match ser_objs(objs) {
                Some(t) => Some(seq!['['] + t + seq![']']),
                None => None,
            }
        },
    }
}

/// Serializes an object: its explicit fields, in order.
pub open spec fn ser_obj(o: SpecObj) -> Option<Seq<char>>
    decreases o, 1int,
{
    match ser_items(o.items) {
        Some(t) => Some(seq!['{'] + t + seq!['}']),
        None => None,
    }
}

/// Serializes the explicit fields of `items` as comma-separated pairs;
/// fields holding only a default are skipped.
pub open spec fn ser_items(items: Seq<SpecItem>) -> Option<Seq<char>>
    decreases items, 2int,
{
    if items.len() == 0 {
        Some(Seq::empty())
    } else {
        let rest = ser_items(items.drop_first());
        match items[0].value {
            None => rest,
            Some(v) => match ser_value(v) {
                None => None,
                Some(vt) => {
                    let pair = seq!['"'] + esc_all(items[0].name) + seq!['"', ':'] + vt;
                    match rest {
                        None => None,
                        Some(rt) => if has_explicit(items.drop_first()) {
                            Some(pair + seq![','] + rt)
                        } else {
                            Some(pair)
                        },
                    }
                },
            },
        }
    }
}

/// Serializes a nonempty run of objects as comma-separated documents.
pub open spec fn ser_objs(objs: Seq<SpecObj>) -> Option<Seq<char>>
    decreases objs, 2int,
{
    if objs.len() == 0 {
        Some(Seq::empty())
    } else {
        match ser_obj(objs[0]) {
            None => None,
            Some(t) => if objs.len() == 1 {
                Some(t)
            } else {
                match ser_objs(objs.drop_first()) {
                    None => None,
                    Some(rt) => Some(t + seq![','] + rt),
                }
            },
        }
    }
}

/// A value with every schema default dropped, recursively.
pub open spec fn strip_value(v: SpecValue) -> SpecValue
    decreases v, 1int,
{
    match v {
        SpecValue::Obj { o } => SpecValue::Obj { o: strip_obj(o) },
        SpecValue::Arr { objs } => SpecValue::Arr { objs: strip_objs(objs) },
        _ => v,
    }
}

/// An object reduced to its explicit fields, each with its default dropped,
/// recursively.
pub open spec fn strip_obj(o: SpecObj) -> SpecObj
    decreases o, 1int,
{
    SpecObj { items: strip_items(o.items) }
}

/// The explicit fields of `items`, stripped recursively.
pub open spec fn strip_items(items: Seq<SpecItem>) -> Seq<SpecItem>
    decreases items, 2int,
{
    if items.len() == 0 {
        Seq::empty()
    } else {
        let rest = strip_items(items.drop_first());
        match items[0].value {
            None => rest,
            Some(v) => seq![
                SpecItem { name: items[0].name, value: Some(strip_value(v)), default: None },
            ] + rest,
        }
    }
}

/// The objects of a run, stripped.
pub open spec fn strip_objs(objs: Seq<SpecObj>) -> Seq<SpecObj>
    decreases objs, 2int,
{
    Seq::new(
        objs.len(),
        |i: int|
            if 0 <= i < objs.len() {
                strip_obj(objs[i])
            } else {
                arbitrary()
            },
    )
}

/// Relies on `String::push`: it appends the given character to the string.
#[verifier::external_body]
fn push_char(s: &mut String, c: char)
    ensures
        final(s)@ == old(s)@.push(c),
{
    s.push(c);
}

/// Relies on the standard decimal formatter for `i64`: it writes the value
/// in base ten, most significant digit first, without leading zeros, with a
/// `-` sign first for a negative value — exactly `int_text`.
#[verifier::external_body]
fn int_to_text(v: i64) -> (r: String)
    ensures
        r@ == int_text(v as int),
{
    format!("{}", v)
}

/// The characters of `text`, as a vector.
fn str_chars(text: &str) -> (r: Vec<char>)
    ensures
        r@ == text@,
{
    let n = text.unicode_len();
    let mut r: Vec<char> = Vec::new();
    let mut i: usize = 0;
    while i < n
        invariant
            i <= n,
            n == text@.len(),
            r@ == text@.subrange(0, i as int),
        decreases n - i,
    {
        let c = text.get_char(i);
        r.push(c);
        proof {
            assert(r@ =~= text@.subrange(0, i + 1));
        }
        i += 1;
    }
    proof {
        assert(r@ =~= text@);
    }
    r
}

/// The characters `s[from..to]`, as a string.
fn chars_to_string(s: &Vec<char>, from: usize, to: usize) -> (r: String)
    requires
        from <= to <= s@.len(),
    ensures
        r@ == s@.subrange(from as int, to as int),
{
    let mut r = String::new();
    let mut j: usize = from;
    while j < to
        invariant
            from <= j <= to <= s@.len(),
            r@ == s@.subrange(from as int, j as int),
        decreases to - j,
    {
        push_char(&mut r, s[j]);
        proof {
            assert(r@ =~= s@.subrange(from as int, j + 1));
        }
        j += 1;
    }
    r
}

/// Facts of a digit run: it is in bounds, all its characters are digits, and
/// it is maximal.
proof fn lemma_digits_run_props(s: Seq<char>, pos: int)
    requires
        0 <= pos <= s.len(),
    ensures
        0 <= digits_run(s, pos),
        pos + digits_run(s, pos) <= s.len(),
        forall|k: int| pos <= k < pos + digits_run(s, pos) ==> is_digit(#[trigger] s[k]),
        pos + digits_run(s, pos) == s.len() || !is_digit(s[pos + digits_run(s, pos)]),
    decreases s.len() - pos,
{
    if pos < s.len() && is_digit(s[pos]) {
        lemma_digits_run_props(s, pos + 1);
    }
}

/// Facts of a number-character run, as for digits.
proof fn lemma_num_run_props(s: Seq<char>, pos: int)
    requires
        0 <= pos <= s.len(),
    ensures
        0 <= num_run(s, pos),
        pos + num_run(s, pos) <= s.len(),
        forall|k: int| pos <= k < pos + num_run(s, pos) ==> is_num_char(#[trigger] s[k]),
        pos + num_run(s, pos) == s.len() || !is_num_char(s[pos + num_run(s, pos)]),
    decreases s.len() - pos,
{
    if pos < s.len() && is_num_char(s[pos]) {
        lemma_num_run_props(s, pos + 1);
    }
}

/// Facts of a whitespace run, as for digits.
proof fn lemma_ws_run_props(s: Seq<char>, pos: int)
    requires
        0 <= pos <= s.len(),
    ensures
        0 <= ws_run(s, pos),
        pos + ws_run(s, pos) <= s.len(),
        pos + ws_run(s, pos) == s.len() || !is_ws(s[pos + ws_run(s, pos)]),
    decreases s.len() - pos,
{
    if pos < s.len() && is_ws(s[pos]) {
        lemma_ws_run_props(s, pos + 1);
    }
}

/// Skipping stays put where no whitespace stands.
proof fn lemma_skip_ws_none(s: Seq<char>, pos: int)
    requires
        0 <= pos,
        pos == s.len() || !is_ws(s[pos]),
    ensures
        skip_ws(s, pos) == pos,
{
}

/// Powers of ten.
pub open spec fn pow10(k: nat) -> int
    decreases k,
{
    if k == 0 {
        1
    } else {
        10 * pow10((k - 1) as nat)
    }
}

/// Powers of ten do not decrease.
proof fn lemma_pow10_mono(a: nat, b: nat)
    requires
        a <= b,
    ensures
        0 < pow10(a) <= pow10(b),
    decreases b,
{
    if b > 0 {
        if a == b {
            lemma_pow10_mono((a - 1) as nat, (b - 1) as nat);
        } else {
            lemma_pow10_mono(a, (b - 1) as nat);
        }
    }
}

/// The value of an all-digit run is bounded by a power of ten.
proof fn lemma_digits_value_bound(s: Seq<char>)
    requires
        forall|k: int| 0 <= k < s.len() ==> is_digit(#[trigger] s[k]),
    ensures
        0 <= digits_value(s) < pow10(s.len() as nat),
    decreases s.len(),
{
    if s.len() > 0 {
        lemma_digits_value_bound(s.drop_last());
        lemma_pow10_mono((s.len() - 1) as nat, (s.len() - 1) as nat);
        assert(digits_value(s) == digits_value(s.drop_last()) * 10 + digit_val(s.last()));
        assert(digits_value(s.drop_last()) * 10 <= (pow10((s.len() - 1) as nat) - 1) * 10)
            by (nonlinear_arith)
            requires
                digits_value(s.drop_last()) <= pow10((s.len() - 1) as nat) - 1,
        ;
    }
}

/// Whether `c` is a decimal digit.
fn c_is_digit(c: char) -> (b: bool)
    ensures
        b == is_digit(c),
{
    (c as u32) >= 48 && (c as u32) <= 57
}

/// Whether `c` may stand inside a number literal.
fn c_is_num(c: char) -> (b: bool)
    ensures
        b == is_num_char(c),
{
    c_is_digit(c) || c == '-' || c == '+' || c == '.' || c == 'e' || c == 'E'
}

/// Whether `c` may stand inside a string literal.
fn c_is_plain(c: char) -> (b: bool)
    ensures
        b == is_plain_char(c),
{
    c != '"' && c != '\\' && (c as u32) >= 32
}

/// The value of an all-digit run with a nonzero first digit is at least the
/// power of ten of its remaining length.
proof fn lemma_digits_value_lower(s: Seq<char>)
    requires
        s.len() >= 1,
        forall|k: int| 0 <= k < s.len() ==> is_digit(#[trigger] s[k]),
        digit_val(s[0]) >= 1,
    ensures
        digits_value(s) >= pow10((s.len() - 1) as nat),
    decreases s.len(),
{
    if s.len() == 1 {
    } else {
        lemma_digits_value_lower(s.drop_last());
        lemma_digits_value_bound(s);
        assert(digits_value(s) == digits_value(s.drop_last()) * 10 + digit_val(s.last()));
        assert(digits_value(s.drop_last()) * 10 >= pow10((s.len() - 2) as nat) * 10)
            by (nonlinear_arith)
            requires
                digits_value(s.drop_last()) >= pow10((s.len() - 2) as nat),
        ;
    }
}

/// Whether `c` is insignificant whitespace.
fn c_is_ws(c: char) -> (b: bool)
    ensures
        b == is_ws(c),
{
    c == ' ' || c == '\t' || c == '\n' || c == '\r'
}

/// The first position at or after `pos` holding no whitespace.
fn e_ws_end(s: &Vec<char>, pos: usize) -> (e: usize)
    requires
        pos <= s@.len(),
    ensures
        e == skip_ws(s@, pos as int),
        pos <= e <= s@.len(),
    {
    proof {
        lemma_ws_run_props(s@, pos as int);
    }
    let mut j: usize = pos;
    while j < s.len() && c_is_ws(s[j])
        invariant
            pos <= j <= s@.len(),
            ws_run(s@, pos as int) == (j - pos) + ws_run(s@, j as int),
        decreases s@.len() - j,
    {
        j += 1;
    }
    j
}

/// The end of the digit run starting at `pos`.
fn e_digits_end(s: &Vec<char>, pos: usize) -> (e: usize)
    requires
        pos <= s@.len(),
    ensures
        e == pos + digits_run(s@, pos as int),
        pos <= e <= s@.len(),
    {
    proof {
        lemma_digits_run_props(s@, pos as int);
    }
    let mut j: usize = pos;
    while j < s.len() && c_is_digit(s[j])
        invariant
            pos <= j <= s@.len(),
            digits_run(s@, pos as int) == (j - pos) + digits_run(s@, j as int),
        decreases s@.len() - j,
    {
        j += 1;
    }
    j
}

/// The end of the number-character run starting at `pos`.
fn e_num_end(s: &Vec<char>, pos: usize) -> (e: usize)
    requires
        pos <= s@.len(),
    ensures
        e == pos + num_run(s@, pos as int),
        pos <= e <= s@.len(),
    {
    proof {
        lemma_num_run_props(s@, pos as int);
    }
    let mut j: usize = pos;
    while j < s.len() && c_is_num(s[j])
        invariant
            pos <= j <= s@.len(),
            num_run(s@, pos as int) == (j - pos) + num_run(s@, j as int),
        decreases s@.len() - j,
    {
        j += 1;
    }
    j
}

/// Classifies the number literal `t`, mirroring `number_of_text`.
fn e_number_of(t: &Vec<char>) -> (r: Option<DataValue>)
    ensures
        match number_of_text(t@) {
            Some(v) => (r matches Some(rv) && rv@ == v),
            None => r is None,
        },
{
    let p0: usize = if t.len() > 0 && t[0] == '-' {
        1
    } else {
        0
    };
    let p1 = e_digits_end(t, p0);
    let d1 = p1 - p0;
    if d1 == 0 {
        None
    } else if d1 > 1 && t[p0] == '0' {
        None
    } else if p1 == t.len() {
        proof {
            lemma_digits_run_props(t@, p0 as int);
            assert forall|k: int| 0 <= k < d1 implies is_digit(
                #[trigger] t@.subrange(p0 as int, p1 as int)[k],
            ) by {
                assert(t@.subrange(p0 as int, p1 as int)[k] == t@[p0 + k]);
            }
        }
        if d1 >= 20 {
            // at least twenty digits without a leading zero: past the 64-bit
            // range on either side
            proof {
                let digits = t@.subrange(p0 as int, p1 as int);
                lemma_digits_value_lower(digits);
                lemma_pow10_mono(19, (d1 - 1) as nat);
                assert(pow10(19) == 10_000_000_000_000_000_000) by {
                    reveal_with_fuel(pow10, 20);
                }
            }
            None
        } else {
            let mut acc: u64 = 0;
            let mut j: usize = p0;
            while j < p1
                invariant
                    p0 <= j <= p1 <= t@.len(),
                    d1 == p1 - p0,
                    1 <= d1 <= 19,
                    d1 == digits_run(t@, p0 as int),
                    forall|k: int| p0 <= k < p1 ==> is_digit(#[trigger] t@[k]),
                    acc == digits_value(t@.subrange(p0 as int, j as int)),
                    0 <= acc < pow10((j - p0) as nat),
                decreases p1 - j,
            {
                let c = t[j];
                let d: u64 = ((c as u32) - 48) as u64;
                proof {
                    assert(is_digit(t@[j as int]));
                    assert(d == digit_val(t@[j as int]));
                    assert(pow10(((j + 1) - p0) as nat) == 10 * pow10((j - p0) as nat));
                    lemma_pow10_mono(((j + 1) - p0) as nat, 19);
                    assert(pow10(19) == 10_000_000_000_000_000_000) by {
                        reveal_with_fuel(pow10, 20);
                    }
                    assert(acc * 10 + d < pow10(((j + 1) - p0) as nat)) by (nonlinear_arith)
                        requires
                            0 <= acc < pow10((j - p0) as nat),
                            0 <= d <= 9,
                            pow10(((j + 1) - p0) as nat) == 10 * pow10((j - p0) as nat),
                    ;
                }
                acc = acc * 10 + d;
                j += 1;
                proof {
                    assert(t@.subrange(p0 as int, j as int).drop_last() =~= t@.subrange(
                        p0 as int,
                        j - 1,
                    ));
                    assert(t@.subrange(p0 as int, j as int).last() == t@[j - 1]);
                }
            }
            if p0 == 1 {
                if acc > 9_223_372_036_854_775_808u64 {
                    None
                } else if acc == 9_223_372_036_854_775_808u64 {
                    Some(DataValue::Int(i64::MIN))
                } else {
                    Some(DataValue::Int(-(acc as i64)))
                }
            } else {
                if acc > 9_223_372_036_854_775_807u64 {
                    None
                } else {
                    Some(DataValue::Int(acc as i64))
                }
            }
        }
    } else {
        let (p2_ok, p2): (bool, usize) = if t[p1] == '.' {
            let p2e = e_digits_end(t, p1 + 1);
            if p2e == p1 + 1 {
                (false, 0)
            } else {
                (true, p2e)
            }
        } else {
            (true, p1)
        };
        if !p2_ok {
            None
        } else if p2 == t.len() {
            let text = chars_to_string(t, 0, t.len());
            proof {
                assert(t@.subrange(0, t@.len() as int) =~= t@);
            }
            Some(DataValue::Dbl(DoubleText(text)))
        } else if t[p2] == 'e' || t[p2] == 'E' {
            let p3: usize = if p2 + 1 < t.len() && (t[p2 + 1] == '+' || t[p2 + 1] == '-') {
                p2 + 2
            } else {
                p2 + 1
            };
            let p3e = e_digits_end(t, p3);
            if p3e > p3 && p3e == t.len() {
                let text = chars_to_string(t, 0, t.len());
                proof {
                    assert(t@.subrange(0, t@.len() as int) =~= t@);
                }
                Some(DataValue::Dbl(DoubleText(text)))
            } else {
                None
            }
        } else {
            None
        }
    }
}

/// Relies on char::from_u32: every value at most 0x10FFFF and outside the
/// surrogate range is a scalar value, and the returned character carries it.
#[verifier::external_body]
fn char_of_u32(x: u32) -> (c: char)
    requires
        x <= 0x10FFFF,
        !(0xD800 <= x <= 0xDFFF),
    ensures
        c == x as char,
{
    char::from_u32(x).unwrap()
}

/// Whether `c` is a hexadecimal digit.
fn c_is_hex(c: char) -> (b: bool)
    ensures
        b == is_hex(c),
{
    c_is_digit(c) || ((c as u32) >= 97 && (c as u32) <= 102) || ((c as u32) >= 65 && (c as u32)
        <= 70)
}

/// The value of a hexadecimal digit character.
fn e_hex_val(c: char) -> (v: u32)
    requires
        is_hex(c),
    ensures
        v == hex_val(c),
        v < 16,
{
    if c_is_digit(c) {
        (c as u32) - 48
    } else if (c as u32) >= 97 {
        (c as u32) - 87
    } else {
        (c as u32) - 55
    }
}

/// Parses the body of a string literal at `pos`, mirroring `sp_str_body`.
fn p_str_body(s: &Vec<char>, pos: usize) -> (r: Option<(Vec<char>, usize)>)
    requires
        pos <= s@.len(),
    ensures
        match sp_str_body(s@, pos as int) {
            Some((cs, p)) => (r matches Some((rv, rp)) && rv@ == cs && rp == p && pos < p
                <= s@.len()),
            None => r is None,
        },
    decreases s@.len() - pos,
{
    if pos >= s.len() {
        return None;
    }
    let c = s[pos];
    if c == '"' {
        let empty: Vec<char> = Vec::new();
        proof {
            assert(empty@ =~= Seq::<char>::empty());
        }
        Some((empty, pos + 1))
    } else if c == '\\' {
        if pos + 1 < s.len() {
            let e = s[pos + 1];
            if e == 'u' {
                if s.len() - pos >= 6 && c_is_hex(s[pos + 2]) && c_is_hex(s[pos + 3]) && c_is_hex(
                    s[pos + 4],
                ) && c_is_hex(s[pos + 5]) {
                    let cp: u32 = e_hex_val(s[pos + 2]) * 4096 + e_hex_val(s[pos + 3]) * 256
                        + e_hex_val(s[pos + 4]) * 16 + e_hex_val(s[pos + 5]);
                    if 0xD800 <= cp && cp <= 0xDFFF {
                        None
                    } else {
                        let decoded = char_of_u32(cp);
                        match p_str_body(s, pos + 6) {
                            Some((mut rest, p)) => {
                                let ghost old_rest = rest@;
                                rest.insert(0, decoded);
                                proof {
                                    assert(rest@ =~= seq![decoded] + old_rest);
                                }
                                Some((rest, p))
                            },
                            None => None,
                        }
                    }
                } else {
                    None
                }
            } else {
                let decoded: char = if e == '"' {
                    '"'
                } else if e == '\\' {
                    '\\'
                } else if e == '/' {
                    '/'
                } else if e == 'b' {
                    '\u{8}'
                } else if e == 'f' {
                    '\u{c}'
                } else if e == 'n' {
                    '\n'
                } else if e == 'r' {
                    '\r'
                } else if e == 't' {
                    '\t'
                } else {
                    return None;
                };
                match p_str_body(s, pos + 2) {
                    Some((mut rest, p)) => {
                        let ghost old_rest = rest@;
                        rest.insert(0, decoded);
                        proof {
                            assert(rest@ =~= seq![decoded] + old_rest);
                        }
                        Some((rest, p))
                    },
                    None => None,
                }
            }
        } else {
            None
        }
    } else if c_is_plain(c) {
        match p_str_body(s, pos + 1) {
            Some((mut rest, p)) => {
                let ghost old_rest = rest@;
                rest.insert(0, c);
                proof {
                    assert(rest@ =~= seq![c] + old_rest);
                }
                Some((rest, p))
            },
            None => None,
        }
    } else {
        None
    }
}

/// Parses a string literal at `pos`.
fn p_string(s: &Vec<char>, pos: usize) -> (r: Option<(String, usize)>)
    requires
        pos <= s@.len(),
    ensures
        match sp_string(s@, pos as int) {
            Some((t, p)) => (r matches Some((rs, rp)) && rs@ == t && rp == p && pos < p
                <= s@.len()),
            None => r is None,
        },
{
    if pos < s.len() && s[pos] == '"' {
        match p_str_body(s, pos + 1) {
            Some((cs, p)) => {
                let text = chars_to_string(&cs, 0, cs.len());
                proof {
                    assert(cs@.subrange(0, cs@.len() as int) =~= cs@);
                }
                Some((text, p))
            },
            None => None,
        }
    } else {
        None
    }
}

/// Whether some field of `items` is named `name`.
fn items_contain_name(items: &Vec<DataItem>, name: &str) -> (b: bool)
    ensures
        b == contains_name(view_items(items@), name@),
{
    let key = name.to_owned();
    let mut j: usize = 0;
    while j < items.len()
        invariant
            j <= items@.len(),
            key@ == name@,
            forall|k: int| 0 <= k < j ==> view_items(items@)[k].name != name@,
        decreases items@.len() - j,
    {
        if items[j].name == key {
            proof {
                assert(view_items(items@)[j as int].name == name@);
                lemma_contains_name_iff(view_items(items@), name@);
            }
            return true;
        }
        j += 1;
    }
    proof {
        lemma_contains_name_iff(view_items(items@), name@);
    }
    false
}

/// The characters `s[from..to]`, as a vector.
fn copy_chars(s: &Vec<char>, from: usize, to: usize) -> (r: Vec<char>)
    requires
        from <= to <= s@.len(),
    ensures
        r@ == s@.subrange(from as int, to as int),
{
    let mut r: Vec<char> = Vec::new();
    let mut j: usize = from;
    while j < to
        invariant
            from <= j <= to <= s@.len(),
            r@ == s@.subrange(from as int, j as int),
        decreases to - j,
    {
        r.push(s[j]);
        proof {
            assert(r@ =~= s@.subrange(from as int, j + 1));
        }
        j += 1;
    }
    r
}

/// Parses a number literal at `pos`.
fn p_number(s: &Vec<char>, pos: usize) -> (r: Option<(DataValue, usize)>)
    requires
        pos <= s@.len(),
    ensures
        match sp_number(s@, pos as int) {
            Some((v, p)) => (r matches Some((rv, rp)) && rv@ == v && rp == p && pos < p && p
                <= s@.len()),
            None => r is None,
        },
{
    let end = e_num_end(s, pos);
    if end == pos {
        None
    } else {
        let t = copy_chars(s, pos, end);
        match e_number_of(&t) {
            Some(v) => Some((v, end)),
            None => None,
        }
    }
}

/// Parses `true` or `false` at `pos`.
fn p_bool(s: &Vec<char>, pos: usize) -> (r: Option<(DataValue, usize)>)
    requires
        pos <= s@.len(),
    ensures
        match sp_bool(s@, pos as int) {
            Some((v, p)) => (r matches Some((rv, rp)) && rv@ == v && rp == p && pos < p && p
                <= s@.len()),
            None => r is None,
        },
{
    if s.len() - pos >= 4 && s[pos] == 't' && s[pos + 1] == 'r' && s[pos + 2] == 'u' && s[pos + 3]
        == 'e' {
        Some((DataValue::Bool(true), pos + 4))
    } else if s.len() - pos >= 5 && s[pos] == 'f' && s[pos + 1] == 'a' && s[pos + 2] == 'l' && s[pos
        + 3] == 's' && s[pos + 4] == 'e' {
        Some((DataValue::Bool(false), pos + 5))
    } else {
        None
    }
}

/// Parses one value at `pos`.
fn p_value(s: &Vec<char>, pos: usize) -> (r: Option<(DataValue, usize)>)
    requires
        pos <= s@.len(),
    ensures
        match sp_value(s@, pos as int) {
            Some((v, p)) => (r matches Some((rv, rp)) && rv@ == v && rp == p && pos < p && p
                <= s@.len()),
            None => r is None,
        },
    decreases s@.len() - pos, 2int,
{
    if pos >= s.len() {
        return None;
    }
    let c = s[pos];
    if c == '{' {
        match p_obj(s, pos) {
            Some((o, p)) => Some((DataValue::Obj(o), p)),
            None => None,
        }
    } else if c == '[' {
        match p_arr(s, pos) {
            Some((a, p)) => Some((DataValue::Arr(a), p)),
            None => None,
        }
    } else if c == '"' {
        match p_string(s, pos) {
            Some((t, p)) => Some((DataValue::Str(t), p)),
            None => None,
        }
    } else if c == 't' || c == 'f' {
        p_bool(s, pos)
    } else {
        p_number(s, pos)
    }
}

/// Parses an object at `pos`.
fn p_obj(s: &Vec<char>, pos: usize) -> (r: Option<(DataObj, usize)>)
    requires
        pos <= s@.len(),
    ensures
        match sp_obj(s@, pos as int) {
            Some((o, p)) => (r matches Some((ro, rp)) && ro@ == o && rp == p && pos < p && p
                <= s@.len()),
            None => r is None,
        },
    decreases s@.len() - pos, 0int,
{
    if pos < s.len() && s[pos] == '{' {
        let q = e_ws_end(s, pos + 1);
        if q < s.len() && s[q] == '}' {
            let o = DataObj { items: Vec::new() };
            proof {
                assert(view_obj(o).items =~= Seq::<SpecItem>::empty());
            }
            Some((o, q + 1))
        } else {
            match p_members(s, q) {
                Some((items, p)) => Some((DataObj { items }, p)),
                None => None,
            }
        }
    } else {
        None
    }
}

/// Parses `"name":value` pairs at `pos`, closed by `}`.
fn p_members(s: &Vec<char>, pos: usize) -> (r: Option<(Vec<DataItem>, usize)>)
    requires
        pos <= s@.len(),
    ensures
        match sp_members(s@, pos as int) {
            Some((items, p)) => (r matches Some((rv, rp)) && view_items(rv@) == items && rp == p
                && pos < p && p <= s@.len()),
            None => r is None,
        },
    decreases s@.len() - pos, 1int,
{
    let (name, p1) = match p_string(s, pos) {
        None => {
            return None;
        },
        Some(x) => x,
    };
    let q1 = e_ws_end(s, p1);
    if q1 < s.len() && s[q1] == ':' {
        let q2 = e_ws_end(s, q1 + 1);
        let (v, p2) = match p_value(s, q2) {
            None => {
                return None;
            },
            Some(x) => x,
        };
        let item = DataItem { name, value: Some(v), default: None };
        let q3 = e_ws_end(s, p2);
        if q3 < s.len() && s[q3] == ',' {
            let q4 = e_ws_end(s, q3 + 1);
            let (mut rest, p3) = match p_members(s, q4) {
                None => {
                    return None;
                },
                Some(x) => x,
            };
            if items_contain_name(&rest, item.name.as_str()) {
                None
            } else {
                let ghost old_rest = rest@;
                rest.insert(0, item);
                proof {
                    assert(view_items(rest@) =~= seq![view_item(item)] + view_items(old_rest));
                }
                Some((rest, p3))
            }
        } else if q3 < s.len() && s[q3] == '}' {
            let mut one: Vec<DataItem> = Vec::new();
            one.push(item);
            proof {
                assert(view_items(one@) =~= seq![view_item(item)]);
            }
            Some((one, q3 + 1))
        } else {
            None
        }
    } else {
        None
    }
}

/// Parses an array at `pos`.
fn p_arr(s: &Vec<char>, pos: usize) -> (r: Option<(DataArray, usize)>)
    requires
        pos <= s@.len(),
    ensures
        match sp_arr(s@, pos as int) {
            Some((v, p)) => (r matches Some((ra, rp)) && SpecValue::Arr { objs: ra@ } == v && rp
                == p && pos < p && p <= s@.len()),
            None => r is None,
        },
    decreases s@.len() - pos, 1int,
{
    if pos < s.len() && s[pos] == '[' {
        let q = e_ws_end(s, pos + 1);
        if q < s.len() && s[q] == ']' {
            let a = DataArray { items: Vec::new() };
            proof {
                assert(view_objs(a.items@) =~= Seq::<SpecObj>::empty());
            }
            Some((a, q + 1))
        } else {
            match p_elems(s, q) {
                Some((objs, p)) => Some((DataArray { items: objs }, p)),
                None => None,
            }
        }
    } else {
        None
    }
}

/// Parses objects at `pos`, closed by `]`.
fn p_elems(s: &Vec<char>, pos: usize) -> (r: Option<(Vec<DataObj>, usize)>)
    requires
        pos <= s@.len(),
    ensures
        match sp_elems(s@, pos as int) {
            Some((objs, p)) => (r matches Some((rv, rp)) && view_objs(rv@) == objs && rp == p
                && pos < p && p <= s@.len()),
            None => r is None,
        },
    decreases s@.len() - pos, 1int,
{
    let (o, p1) = match p_obj(s, pos) {
        None => {
            return None;
        },
        Some(x) => x,
    };
    let q = e_ws_end(s, p1);
    if q < s.len() && s[q] == ',' {
        let q2 = e_ws_end(s, q + 1);
        let (mut rest, p2) = match p_elems(s, q2) {
            None => {
                return None;
            },
            Some(x) => x,
        };
        let ghost old_rest = rest@;
        rest.insert(0, o);
        proof {
            assert(view_objs(rest@) =~= seq![view_obj(o)] + view_objs(old_rest));
        }
        Some((rest, p2))
    } else if q < s.len() && s[q] == ']' {
        let mut one: Vec<DataObj> = Vec::new();
        one.push(o);
        proof {
            assert(view_objs(one@) =~= seq![view_obj(o)]);
        }
        Some((one, q + 1))
    } else {
        None
    }
}

/// Whether any field of `items`, from `idx` on, holds an explicit value.
fn has_explicit_from(items: &Vec<DataItem>, idx: usize) -> (b: bool)
    requires
        idx <= items@.len(),
    ensures
        b == has_explicit(view_items(items@).subrange(idx as int, items@.len() as int)),
{
    let ghost sv = view_items(items@).subrange(idx as int, items@.len() as int);
    let mut j: usize = idx;
    while j < items.len()
        invariant
            idx <= j <= items@.len(),
            sv == view_items(items@).subrange(idx as int, items@.len() as int),
            forall|k: int| idx <= k < j ==> (#[trigger] view_items(items@)[k]).value is None,
        decreases items@.len() - j,
    {
        if items[j].value.is_some() {
            proof {
                assert(sv[j - idx].value is Some);
            }
            return true;
        }
        j += 1;
    }
    proof {
        assert forall|k: int| 0 <= k < sv.len() implies (#[trigger] sv[k]).value is None by {
            assert(sv[k] == view_items(items@)[idx + k]);
        }
    }
    false
}

/// The lower-case hexadecimal digit character of a value below sixteen.
fn e_hex_digit(d: u32) -> (c: char)
    requires
        d < 16,
    ensures
        c == hex_digit(d as int),
{
    if d < 10 {
        ((48 + d) as u8) as char
    } else {
        ((87 + d) as u8) as char
    }
}

/// Writes the characters of `sv` from `idx` on in their escaped form,
/// mirroring `esc_all`.
fn write_esc_from(sv: &Vec<char>, idx: usize, out: &mut String)
    requires
        idx <= sv@.len(),
    ensures
        final(out)@ == old(out)@ + esc_all(sv@.subrange(idx as int, sv@.len() as int)),
    decreases sv@.len() - idx,
{
    let ghost len = sv@.len() as int;
    let ghost suffix = sv@.subrange(idx as int, len);
    if idx == sv.len() {
        proof {
            assert(suffix =~= Seq::<char>::empty());
            assert(out@ =~= out@ + Seq::<char>::empty());
        }
        return ;
    }
    proof {
        assert(suffix[0] == sv@[idx as int]);
        assert(suffix.drop_first() =~= sv@.subrange(idx + 1, len));
    }
    let c = sv[idx];
    proof {
        lemma_char_bounds(c);
    }
    if c == '"' {
        push_char(out, '\\');
        push_char(out, '"');
    } else if c == '\\' {
        push_char(out, '\\');
        push_char(out, '\\');
    } else if c == '\u{8}' {
        push_char(out, '\\');
        push_char(out, 'b');
    } else if c == '\u{c}' {
        push_char(out, '\\');
        push_char(out, 'f');
    } else if c == '\n' {
        push_char(out, '\\');
        push_char(out, 'n');
    } else if c == '\r' {
        push_char(out, '\\');
        push_char(out, 'r');
    } else if c == '\t' {
        push_char(out, '\\');
        push_char(out, 't');
    } else if (c as u32) < 32 {
        proof {
            assert((c as u32) as int == c as int);
            assert(((c as u32) / 16) as int == c as int / 16);
            assert(((c as u32) % 16) as int == c as int % 16);
        }
        push_char(out, '\\');
        push_char(out, 'u');
        push_char(out, '0');
        push_char(out, '0');
        push_char(out, e_hex_digit((c as u32) / 16));
        push_char(out, e_hex_digit((c as u32) % 16));
    } else {
        push_char(out, c);
    }
    let ghost mid = out@;
    proof {
        assert(mid =~= old(out)@ + esc_seq(sv@[idx as int]));
    }
    write_esc_from(sv, idx + 1, out);
    proof {
        assert(out@ =~= old(out)@ + (esc_seq(suffix[0]) + esc_all(suffix.drop_first())));
    }
}

/// Writes a whole string literal: a quote, the escaped text, a quote.
fn write_string(sv: &str, out: &mut String)
    ensures
        final(out)@ == old(out)@ + (seq!['"'] + esc_all(sv@) + seq!['"']),
{
    let chars = str_chars(sv);
    push_char(out, '"');
    write_esc_from(&chars, 0, out);
    push_char(out, '"');
    proof {
        assert(chars@.subrange(0, chars@.len() as int) =~= sv@);
        assert(out@ =~= old(out)@ + (seq!['"'] + esc_all(sv@) + seq!['"']));
    }
}

/// Writes one value, mirroring `ser_value`.
fn write_value(v: &DataValue, out: &mut String) -> (ok: bool)
    ensures
        match ser_value(v@) {
            Some(t) => ok && final(out)@ == old(out)@ + t,
            None => !ok,
        },
    decreases *v, 1int,
{
    match v {
        DataValue::Str(st) => {
            write_string(st.as_str(), out);
            true
        },
        DataValue::Int(i) => {
            let txt = int_to_text(*i);
            out.append(txt.as_str());
            true
        },
        DataValue::Dbl(d) => {
            let t = str_chars(d.0.as_str());
            let parsed = e_number_of(&t);
            let mut is_dbl = false;
            match &parsed {
                Some(DataValue::Dbl(_)) => {
                    is_dbl = true;
                },
                _ => {},
            }
            if is_dbl {
                out.append(d.0.as_str());
                true
            } else {
                false
            }
        },
        DataValue::Bool(b) => {
            if *b {
                out.append("true");
                proof {
                    reveal_strlit("true");
                    assert(out@ =~= old(out)@ + seq!['t', 'r', 'u', 'e']);
                }
            } else {
                out.append("false");
                proof {
                    reveal_strlit("false");
                    assert(out@ =~= old(out)@ + seq!['f', 'a', 'l', 's', 'e']);
                }
            }
            true
        },
        DataValue::Obj(o) => write_obj(o, out),
        DataValue::Arr(a) => {
            proof {
                assert(*a == v->Arr_0);
                assert(decreases_to!(*v => v->Arr_0));
                assert(decreases_to!(v->Arr_0 => v->Arr_0.items));
                assert(decreases_to!(v->Arr_0.items => v->Arr_0.items@));
                assert(a.items@.subrange(0, a.items@.len() as int) =~= a.items@);
                assert(view_objs(a.items@).subrange(0, a.items@.len() as int) =~= view_objs(
                    a.items@,
                ));
                assert(decreases_to!(*v, 1int => a.items@.subrange(
                    0,
                    a.items@.len() as int,
                ), 2int));
            }
            push_char(out, '[');
            if a.items.len() == 0 {
                push_char(out, ']');
                proof {
                    assert(out@ =~= old(out)@ + seq!['[', ']']);
                }
                true
            } else {
                if write_objs(&a.items, 0, out) {
                    push_char(out, ']');
                    proof {
                        let t = ser_objs(view_objs(a.items@))->0;
                        assert(out@ =~= old(out)@ + (seq!['['] + t + seq![']']));
                    }
                    true
                } else {
                    false
                }
            }
        },
    }
}

/// Writes an object, mirroring `ser_obj`.
fn write_obj(o: &DataObj, out: &mut String) -> (ok: bool)
    ensures
        match ser_obj(o@) {
            Some(t) => ok && final(out)@ == old(out)@ + t,
            None => !ok,
        },
    decreases *o, 1int,
{
    proof {
        assert(decreases_to!(*o => o.items));
        assert(decreases_to!(o.items => o.items@));
        assert(o.items@.subrange(0, o.items@.len() as int) =~= o.items@);
        assert(decreases_to!(*o, 1int => o.items@.subrange(0, o.items@.len() as int), 2int));
        assert(view_items(o.items@).subrange(0, o.items@.len() as int) =~= view_items(o.items@));
    }
    push_char(out, '{');
    if write_items(&o.items, 0, out) {
        push_char(out, '}');
        proof {
            let t = ser_items(view_items(o.items@))->0;
            assert(out@ =~= old(out)@ + (seq!['{'] + t + seq!['}']));
        }
        true
    } else {
        false
    }
}

/// Writes the explicit fields of `items` from `idx` on, mirroring
/// `ser_items`.
fn write_items(items: &Vec<DataItem>, idx: usize, out: &mut String) -> (ok: bool)
    requires
        idx <= items@.len(),
    ensures
        match ser_items(view_items(items@).subrange(idx as int, items@.len() as int)) {
            Some(t) => ok && final(out)@ == old(out)@ + t,
            None => !ok,
        },
    decreases items@.subrange(idx as int, items@.len() as int), 2int,
{
    let ghost len = items@.len() as int;
    let ghost sv = view_items(items@).subrange(idx as int, len);
    if idx == items.len() {
        proof {
            assert(sv =~= Seq::<SpecItem>::empty());
            assert(out@ =~= out@ + Seq::<char>::empty());
        }
        return true;
    }
    proof {
        assert(sv[0] == view_item(items@[idx as int]));
        assert(sv.drop_first() =~= view_items(items@).subrange(idx + 1, len));
        assert(items@.subrange(idx + 1, len) =~= items@.subrange(idx as int, len).subrange(
            1,
            len - idx,
        ));
    }
    let it = &items[idx];
    match &it.value {
        None => write_items(items, idx + 1, out),
        Some(v) => {
            proof {
                let sub = items@.subrange(idx as int, len);
                assert(sub[0] == items@[idx as int]);
                assert(decreases_to!(sub => sub[0]));
                assert(decreases_to!(sub[0] => sub[0].value));
                assert(decreases_to!(sub[0].value => sub[0].value->0));
                assert(sub[0].value->0 == *v);
                assert(decreases_to!(items@.subrange(idx as int, len), 2int => *v, 1int));
            }
            write_string(it.name.as_str(), out);
            push_char(out, ':');
            let ghost before_val = out@;
            proof {
                assert(before_val =~= old(out)@ + (seq!['"'] + esc_all(it.name@) + seq!['"', ':']));
            }
            if !write_value(v, out) {
                return false;
            }
            let more = has_explicit_from(items, idx + 1);
            if more {
                push_char(out, ',');
            }
            let ghost before_rest = out@;
            if !write_items(items, idx + 1, out) {
                return false;
            }
            proof {
                let vt = ser_value(view_value(*v))->0;
                let rt = ser_items(sv.drop_first())->0;
                let pair = seq!['"'] + esc_all(it.name@) + seq!['"', ':'] + vt;
                if more {
                    assert(out@ =~= old(out)@ + (pair + seq![','] + rt));
                } else {
                    assert(rt =~= Seq::<char>::empty()) by {
                        lemma_ser_items_no_explicit(sv.drop_first());
                    }
                    assert(out@ =~= old(out)@ + pair);
                }
            }
            true
        },
    }
}

/// Fields with no explicit value serialize to nothing.
proof fn lemma_ser_items_no_explicit(items: Seq<SpecItem>)
    requires
        !has_explicit(items),
    ensures
        ser_items(items) == Some(Seq::<char>::empty()),
    decreases items.len(),
{
    if items.len() > 0 {
        assert(items[0].value is None);
        assert(!has_explicit(items.drop_first())) by {
            if has_explicit(items.drop_first()) {
                let k = choose|k: int|
                    0 <= k < items.drop_first().len() && (#[trigger] items.drop_first()[k]).value
                        is Some;
                assert(items[k + 1].value is Some);
            }
        }
        lemma_ser_items_no_explicit(items.drop_first());
    }
}

/// Writes the objects of `objs` from `idx` on, mirroring `ser_objs`.
fn write_objs(objs: &Vec<DataObj>, idx: usize, out: &mut String) -> (ok: bool)
    requires
        idx < objs@.len(),
    ensures
        match ser_objs(view_objs(objs@).subrange(idx as int, objs@.len() as int)) {
            Some(t) => ok && final(out)@ == old(out)@ + t,
            None => !ok,
        },
    decreases objs@.subrange(idx as int, objs@.len() as int), 2int,
{
    let ghost len = objs@.len() as int;
    let ghost sv = view_objs(objs@).subrange(idx as int, len);
    let n = objs.len();
    proof {
        let sub = objs@.subrange(idx as int, len);
        assert(sv[0] == view_obj(objs@[idx as int]));
        assert(sub[0] == objs@[idx as int]);
        assert(decreases_to!(sub => sub[0]));
        assert(decreases_to!(objs@.subrange(idx as int, len), 2int => objs@[idx as int], 1int));
    }
    let o = &objs[idx];
    if !write_obj(o, out) {
        return false;
    }
    if idx + 1 == n {
        proof {
            assert(sv.len() == 1);
        }
        return true;
    }
    push_char(out, ',');
    proof {
        assert(sv.drop_first() =~= view_objs(objs@).subrange(idx + 1, len));
        assert(objs@.subrange(idx + 1, len) =~= objs@.subrange(idx as int, len).subrange(
            1,
            len - idx,
        ));
    }
    if !write_objs(objs, idx + 1, out) {
        return false;
    }
    proof {
        let t0 = ser_obj(view_obj(objs@[idx as int]))->0;
        let rt = ser_objs(sv.drop_first())->0;
        assert(out@ =~= old(out)@ + (t0 + seq![','] + rt));
    }
    true
}

/// `t` stands letter for letter inside `s` at `pos`.
pub open spec fn embedded(s: Seq<char>, t: Seq<char>, pos: int) -> bool {
    &&& 0 <= pos
    &&& pos + t.len() <= s.len()
    &&& forall|k: int| pos <= k < pos + t.len() ==> #[trigger] s[k] == t[k - pos]
}

/// A part of an embedded text is embedded where it stands.
proof fn lemma_embed_sub(s: Seq<char>, t: Seq<char>, pos: int, a: int, b: int)
    requires
        embedded(s, t, pos),
        0 <= a <= b <= t.len(),
    ensures
        embedded(s, t.subrange(a, b), pos + a),
{
    assert forall|k: int| pos + a <= k < pos + a + (b - a) implies #[trigger] s[k] == t.subrange(
        a,
        b,
    )[k - (pos + a)] by {
        assert(s[k] == t[k - pos]);
    }
}

/// A digit run is exactly `n` when `n` digits stand at `pos` and no digit
/// follows them.
proof fn lemma_digits_run_exact(s: Seq<char>, pos: int, n: int)
    requires
        0 <= pos,
        0 <= n,
        pos + n <= s.len(),
        forall|k: int| pos <= k < pos + n ==> is_digit(#[trigger] s[k]),
        pos + n == s.len() || !is_digit(s[pos + n]),
    ensures
        digits_run(s, pos) == n,
    decreases n,
{
    if n > 0 {
        lemma_digits_run_exact(s, pos + 1, n - 1);
    }
}

/// A number-character run is exactly `n` under the same conditions.
proof fn lemma_num_run_exact(s: Seq<char>, pos: int, n: int)
    requires
        0 <= pos,
        0 <= n,
        pos + n <= s.len(),
        forall|k: int| pos <= k < pos + n ==> is_num_char(#[trigger] s[k]),
        pos + n == s.len() || !is_num_char(s[pos + n]),
    ensures
        num_run(s, pos) == n,
    decreases n,
{
    if n > 0 {
        lemma_num_run_exact(s, pos + 1, n - 1);
    }
}

/// Every character is a Unicode scalar value: its code point is bounded and
/// is no surrogate.
proof fn lemma_char_bounds(c: char)
    ensures
        0 <= c as int <= 0x10FFFF,
        !(0xD800 <= c as int <= 0xDFFF),
{
}

/// A hexadecimal digit character decodes to its value.
proof fn lemma_hex_digit(d: int)
    requires
        0 <= d < 16,
    ensures
        is_hex(hex_digit(d)),
        hex_val(hex_digit(d)) == d,
{
    if d < 10 {
        assert(digit_char(d) as int == 48 + d);
    } else {
        assert(((87 + d) as char) as int == 87 + d);
    }
}

/// The body of an escaped string literal, followed by its closing quote,
/// parses back to exactly the original text.
proof fn lemma_rt_str_body(sv: Seq<char>, s: Seq<char>, pos: int)
    requires
        embedded(s, esc_all(sv) + seq!['"'], pos),
    ensures
        sp_str_body(s, pos) == Some((sv, pos + esc_all(sv).len() + 1)),
    decreases sv.len(),
{
    let t = esc_all(sv) + seq!['"'];
    if sv.len() == 0 {
        assert(s[pos] == t[0] && t[0] == '"');
        assert(Seq::<char>::empty() =~= sv);
    } else {
        let c = sv[0];
        lemma_char_bounds(c);
        let e = esc_seq(c);
        let rest = sv.drop_first();
        assert(esc_all(sv) == e + esc_all(rest));
        assert forall|k: int| 0 <= k < e.len() implies s[pos + k] == #[trigger] e[k] by {
            assert(s[pos + k] == t[k]);
            assert(t[k] == e[k]);
        }
        let rt = esc_all(rest) + seq!['"'];
        assert(embedded(s, rt, pos + e.len() as int)) by {
            assert forall|k: int|
                pos + e.len() <= k < pos + e.len() + rt.len() implies #[trigger] s[k] == rt[k - pos
                - e.len()] by {
                assert(s[k] == t[k - pos]);
            }
        }
        lemma_rt_str_body(rest, s, pos + e.len() as int);
        if c == '"' || c == '\\' || c == '\u{8}' || c == '\u{c}' || c == '\n' || c == '\r' || c
            == '\t' {
            assert(s[pos] == '\\' && esc_char_of(s[pos + 1]) == Some(c));
        } else if (c as int) < 32 {
            assert(s[pos] == '\\' && s[pos + 1] == 'u' && s[pos + 2] == '0' && s[pos + 3] == '0');
            vstd::arithmetic::div_mod::lemma_fundamental_div_mod(c as int, 16);
            assert(0 <= (c as int) && (c as int) < 32);
            assert(0 <= (c as int) / 16 && (c as int) / 16 < 16);
            assert(0 <= (c as int) % 16 && (c as int) % 16 < 16);
            lemma_hex_digit(c as int / 16);
            lemma_hex_digit(c as int % 16);
            assert(hex_val('0') == 0);
            let cp: int = hex_val(s[pos + 2]) * 4096 + hex_val(s[pos + 3]) * 256 + hex_val(
                s[pos + 4],
            ) * 16 + hex_val(s[pos + 5]);
            assert(cp == c as int);
            assert(cp as char == c);
        } else {
            assert(s[pos] == c && is_plain_char(c));
        }
        assert(seq![c] + rest =~= sv);
    }
}

/// An escaped string literal with its quotes parses back to its text.
proof fn lemma_rt_string(sv: Seq<char>, s: Seq<char>, pos: int)
    requires
        embedded(s, seq!['"'] + esc_all(sv) + seq!['"'], pos),
    ensures
        sp_string(s, pos) == Some((sv, pos + esc_all(sv).len() + 2)),
{
    let t = seq!['"'] + esc_all(sv) + seq!['"'];
    assert(s[pos] == t[0] && t[0] == '"');
    let body = esc_all(sv) + seq!['"'];
    assert(embedded(s, body, pos + 1)) by {
        assert forall|k: int|
            pos + 1 <= k < pos + 1 + body.len() implies #[trigger] s[k] == body[k - pos - 1] by {
            assert(s[k] == t[k - pos]);
        }
    }
    lemma_rt_str_body(sv, s, pos + 1);
}

/// The digits of `n` are digits, value back to `n`, at least one of them.
proof fn lemma_int_digits_props(n: nat)
    ensures
        int_digits(n).len() >= 1,
        forall|k: int| 0 <= k < int_digits(n).len() ==> is_digit(#[trigger] int_digits(n)[k]),
        digits_value(int_digits(n)) == n,
    decreases n,
{
    if n < 10 {
        let t = int_digits(n);
        assert(digit_char(n as int) as int == 48 + n);
        assert(t.drop_last() =~= Seq::<char>::empty());
        assert(t.last() == digit_char(n as int));
        assert(digits_value(t) == digits_value(t.drop_last()) * 10 + digit_val(t.last()));
        assert(digit_val(t.last()) == n);
    } else {
        lemma_int_digits_props(n / 10);
        vstd::arithmetic::div_mod::lemma_fundamental_div_mod(n as int, 10);
        let t = int_digits(n);
        let head = int_digits(n / 10);
        assert(digit_char((n % 10) as int) as int == 48 + (n % 10));
        assert(t.drop_last() =~= head);
        assert(t.last() == digit_char((n % 10) as int));
        assert(digits_value(t) == digits_value(head) * 10 + digit_val(t.last()));
        assert(digit_val(t.last()) == n % 10);
        assert(digits_value(t) == (n / 10) * 10 + n % 10);
        assert forall|k: int| 0 <= k < t.len() implies is_digit(#[trigger] t[k]) by {
            if k < t.len() - 1 {
                assert(t[k] == head[k]);
            }
        }
    }
}

/// Its decimal text is never empty and has no leading zero.
proof fn lemma_int_digits_no_leading_zero(n: nat)
    requires
        n >= 1,
    ensures
        digit_val(int_digits(n)[0]) >= 1,
    decreases n,
{
    lemma_int_digits_props(n);
    if n < 10 {
        assert(digit_char(n as int) as int == 48 + n);
    } else {
        lemma_int_digits_props(n / 10);
        lemma_int_digits_no_leading_zero(n / 10);
        assert(int_digits(n)[0] == int_digits(n / 10)[0]);
    }
}

/// The decimal text of a 64-bit integer is a number literal denoting it.
proof fn lemma_number_of_int_text(i: int)
    requires
        i64::MIN <= i <= i64::MAX,
    ensures
        number_of_text(int_text(i)) == Some(SpecValue::Int { i: i as i64 }),
        int_text(i).len() >= 1,
        forall|k: int| 0 <= k < int_text(i).len() ==> is_num_char(#[trigger] int_text(i)[k]),
        int_text(i)[0] == '-' || is_digit(int_text(i)[0]),
{
    let t = int_text(i);
    let mag: nat = if i < 0 {
        (-i) as nat
    } else {
        i as nat
    };
    lemma_int_digits_props(mag);
    if mag >= 1 {
        lemma_int_digits_no_leading_zero(mag);
    }
    let d = int_digits(mag);
    if d.len() > 1 {
        assert(mag >= 10) by {
            if mag < 10 {
                assert(d.len() == 1);
            }
        }
    }
    let p0: int = if i < 0 {
        1
    } else {
        0
    };
    assert forall|k: int| p0 <= k < t.len() implies is_digit(#[trigger] t[k]) by {
        assert(t[k] == d[k - p0]);
    }
    lemma_digits_run_exact(t, p0, d.len() as int);
    assert(t.subrange(p0, t.len() as int) =~= d);
    if i < 0 {
        assert(t[0] == '-');
    } else {
        assert(!(t[0] == '-'));
    }
}

/// Every character of a double literal is a number character, and its first
/// is a sign or a digit.
proof fn lemma_dbl_text_chars(t: Seq<char>)
    requires
        number_of_text(t) == Some(SpecValue::Dbl { text: t }),
    ensures
        t.len() >= 1,
        forall|k: int| 0 <= k < t.len() ==> is_num_char(#[trigger] t[k]),
        t[0] == '-' || is_digit(t[0]),
{
    let p0: int = if t.len() > 0 && t[0] == '-' {
        1
    } else {
        0
    };
    lemma_digits_run_props(t, p0);
    let d1: int = digits_run(t, p0);
    let p1: int = p0 + d1;
    let p2: int = if t[p1] == '.' {
        let d2: int = digits_run(t, p1 + 1);
        if d2 == 0 {
            -1
        } else {
            p1 + 1 + d2
        }
    } else {
        p1
    };
    if t[p1] == '.' {
        lemma_digits_run_props(t, p1 + 1);
    }
    if p2 == t.len() {
        assert forall|k: int| 0 <= k < t.len() implies is_num_char(#[trigger] t[k]) by {}
    } else {
        let p3: int = if p2 + 1 < t.len() && (t[p2 + 1] == '+' || t[p2 + 1] == '-') {
            p2 + 2
        } else {
            p2 + 1
        };
        lemma_digits_run_props(t, p3);
        assert forall|k: int| 0 <= k < t.len() implies is_num_char(#[trigger] t[k]) by {}
    }
}

/// A serialization is never empty, and never opens with whitespace.
proof fn lemma_ser_value_len(v: SpecValue)
    requires
        ser_value(v) is Some,
    ensures
        ser_value(v)->0.len() >= 1,
        !is_ws(ser_value(v)->0[0]),
{
    let t = ser_value(v)->0;
    match v {
        SpecValue::Str { s } => {
            assert(t[0] == '"');
        },
        SpecValue::Int { i } => {
            let mag: nat = if i < 0 {
                (-i) as nat
            } else {
                i as nat
            };
            lemma_int_digits_props(mag);
            if i >= 0 {
                assert(t[0] == int_digits(mag)[0]);
                assert(is_digit(t[0]));
            }
        },
        SpecValue::Dbl { text } => {
            if text.len() == 0 {
                assert(digits_run(text, 0) == 0);
            }
            lemma_dbl_text_chars(text);
        },
        SpecValue::Bool { b } => {},
        SpecValue::Obj { o } => {
            assert(t[0] == '{');
        },
        SpecValue::Arr { objs } => {
            assert(t[0] == '[');
        },
    }
}

/// Fields with no explicit value strip to nothing.
proof fn lemma_strip_no_explicit(items: Seq<SpecItem>)
    requires
        !has_explicit(items),
    ensures
        strip_items(items) == Seq::<SpecItem>::empty(),
    decreases items.len(),
{
    if items.len() > 0 {
        assert(items[0].value is None);
        assert(!has_explicit(items.drop_first())) by {
            if has_explicit(items.drop_first()) {
                let k = choose|k: int|
                    0 <= k < items.drop_first().len() && (#[trigger] items.drop_first()[k]).value
                        is Some;
                assert(items[k + 1].value is Some);
            }
        }
        lemma_strip_no_explicit(items.drop_first());
    }
}

/// The serialization of fields with an explicit one starts with a quote.
proof fn lemma_ser_items_first(items: Seq<SpecItem>, t: Seq<char>)
    requires
        has_explicit(items),
        ser_items(items) == Some(t),
    ensures
        t.len() >= 1,
        t[0] == '"',
    decreases items.len(),
{
    if items[0].value is None {
        assert(has_explicit(items.drop_first())) by {
            let k = choose|k: int| 0 <= k < items.len() && (#[trigger] items[k]).value is Some;
            assert(items.drop_first()[k - 1].value is Some);
        }
        lemma_ser_items_first(items.drop_first(), t);
    }
}

/// Stripping keeps names, so a name absent from the fields is absent from
/// their stripped form.
proof fn lemma_strip_names(items: Seq<SpecItem>, name: Seq<char>)
    requires
        forall|k: int| 0 <= k < items.len() ==> (#[trigger] items[k]).name != name,
    ensures
        !contains_name(strip_items(items), name),
    decreases items.len(),
{
    assert forall|j: int|
        0 <= j < strip_items(items).len() implies (#[trigger] strip_items(items)[j]).name
        != name by {
        lemma_strip_names_index(items, j);
    }
    lemma_contains_name_iff(strip_items(items), name);
}

/// Each stripped field's name is some field's name.
proof fn lemma_strip_names_index(items: Seq<SpecItem>, j: int)
    requires
        0 <= j < strip_items(items).len(),
    ensures
        exists|k: int| 0 <= k < items.len() && (#[trigger] items[k]).name == strip_items(
            items,
        )[j].name,
    decreases items.len(),
{
    if items.len() > 0 {
        match items[0].value {
            None => {
                lemma_strip_names_index(items.drop_first(), j);
                let k = choose|k: int|
                    0 <= k < items.drop_first().len() && (#[trigger] items.drop_first()[k]).name
                        == strip_items(items.drop_first())[j].name;
                assert(items[k + 1].name == strip_items(items)[j].name);
            },
            Some(v) => {
                if j > 0 {
                    lemma_strip_names_index(items.drop_first(), j - 1);
                    let k = choose|k: int|
                        0 <= k < items.drop_first().len() && (#[trigger] items.drop_first()[k]).name
                            == strip_items(items.drop_first())[j - 1].name;
                    assert(items[k + 1].name == strip_items(items)[j].name);
                } else {
                    assert(items[0].name == strip_items(items)[0].name);
                }
            },
        }
    }
}

/// Round trip of one value: its serialization, embedded in a larger text and
/// not followed by a number character, parses back to the value with its
/// schema defaults dropped.
#[verifier::rlimit(100)]
proof fn lemma_rt_value(v: SpecValue, s: Seq<char>, pos: int)
    requires
        wf_value(v),
        ser_value(v) is Some,
        embedded(s, ser_value(v)->0, pos),
        pos + ser_value(v)->0.len() == s.len() || !is_num_char(s[pos + ser_value(v)->0.len()]),
    ensures
        sp_value(s, pos) == Some((strip_value(v), pos + ser_value(v)->0.len())),
    decreases v, 1int,
{
    let t = ser_value(v)->0;
    lemma_ser_value_len(v);
    assert(s[pos] == t[0]);
    match v {
        SpecValue::Str { s: sv } => {
            assert(t[0] == '"');
            assert(t.len() == esc_all(sv).len() + 2);
            lemma_rt_string(sv, s, pos);
        },
        SpecValue::Int { i } => {
            lemma_number_of_int_text(i as int);
            assert forall|k: int| pos <= k < pos + t.len() implies is_num_char(
                #[trigger] s[k],
            ) by {
                assert(s[k] == t[k - pos]);
            }
            lemma_num_run_exact(s, pos, t.len() as int);
            assert(s.subrange(pos, pos + t.len()) =~= t);
        },
        SpecValue::Dbl { text } => {
            lemma_dbl_text_chars(text);
            assert forall|k: int| pos <= k < pos + t.len() implies is_num_char(
                #[trigger] s[k],
            ) by {
                assert(s[k] == t[k - pos]);
            }
            lemma_num_run_exact(s, pos, t.len() as int);
            assert(s.subrange(pos, pos + t.len()) =~= t);
        },
        SpecValue::Bool { b } => {
            if b {
                assert(t == seq!['t', 'r', 'u', 'e']);
                assert(s[pos] == 't' && s[pos + 1] == 'r' && s[pos + 2] == 'u' && s[pos + 3]
                    == 'e');
            } else {
                assert(t == seq!['f', 'a', 'l', 's', 'e']);
                assert(s[pos] == 'f' && s[pos + 1] == 'a' && s[pos + 2] == 'l' && s[pos + 3] == 's'
                    && s[pos + 4] == 'e');
            }
        },
        SpecValue::Obj { o } => {
            assert(decreases_to!(v, 1int => o, 1int)) by {
                assert(decreases_to!(v => v->Obj_o));
            }
            lemma_rt_obj(o, s, pos);
            assert(t[0] == '{');
        },
        SpecValue::Arr { objs } => {
            if objs.len() == 0 {
                assert(t == seq!['[', ']']);
                assert(s[pos] == '[' && s[pos + 1] == ']');
                lemma_skip_ws_none(s, pos + 1);
                assert(strip_objs(objs) =~= Seq::<SpecObj>::empty());
            } else {
                let ot = ser_objs(objs)->0;
                assert(t == seq!['['] + ot + seq![']']);
                assert(s[pos] == '[');
                let t0 = ser_obj(objs[0])->0;
                assert(t0.len() >= 1 && t0[0] == '{') by {
                    assert(ser_obj(objs[0]) is Some);
                }
                assert(ot[0] == t0[0]);
                assert(s[pos + 1] == t[1] && t[1] == ot[0]);
                lemma_skip_ws_none(s, pos + 1);
                assert(decreases_to!(v, 1int => objs, 2int)) by {
                    assert(decreases_to!(v => v->Arr_objs));
                }
                assert(t.subrange(1, 1 + ot.len() as int) =~= ot);
                lemma_embed_sub(s, t, pos, 1, 1 + ot.len() as int);
                assert(s[pos + 1 + ot.len() as int] == t[t.len() - 1]);
                lemma_rt_elems(objs, s, pos + 1);
            }
        },
    }
}

/// Round trip of one object.
#[verifier::rlimit(50)]
proof fn lemma_rt_obj(o: SpecObj, s: Seq<char>, pos: int)
    requires
        wf_obj(o),
        ser_obj(o) is Some,
        embedded(s, ser_obj(o)->0, pos),
    ensures
        sp_obj(s, pos) == Some((strip_obj(o), pos + ser_obj(o)->0.len())),
    decreases o, 1int,
{
    let t = ser_obj(o)->0;
    let mt = ser_items(o.items)->0;
    assert(t == seq!['{'] + mt + seq!['}']);
    assert(s[pos] == t[0] && t[0] == '{');
    if has_explicit(o.items) {
        lemma_ser_items_first(o.items, mt);
        assert(s[pos + 1] == t[1] && t[1] == mt[0]);
        lemma_skip_ws_none(s, pos + 1);
        assert(t.subrange(1, 1 + mt.len() as int) =~= mt);
        lemma_embed_sub(s, t, pos, 1, 1 + mt.len() as int);
        assert(s[pos + 1 + mt.len() as int] == t[t.len() - 1]);
        assert(decreases_to!(o, 1int => o.items, 2int));
        lemma_rt_members(o.items, s, pos + 1);
    } else {
        lemma_ser_items_no_explicit(o.items);
        assert(t.len() == 2 && t[1] == '}');
        assert(s[pos + 1] == '}');
        lemma_skip_ws_none(s, pos + 1);
        lemma_strip_no_explicit(o.items);
    }
}

/// Round trip of the serialized fields, up to the closing brace.
#[verifier::rlimit(100)]
proof fn lemma_rt_members(items: Seq<SpecItem>, s: Seq<char>, pos: int)
    requires
        distinct_names(items),
        forall|k: int| 0 <= k < items.len() ==> wf_item(#[trigger] items[k]),
        has_explicit(items),
        ser_items(items) is Some,
        embedded(s, ser_items(items)->0, pos),
        pos + ser_items(items)->0.len() < s.len(),
        s[pos + ser_items(items)->0.len()] == '}',
    ensures
        sp_members(s, pos) == Some((strip_items(items), pos + ser_items(items)->0.len() + 1)),
    decreases items, 2int,
{
    let t = ser_items(items)->0;
    let rest = items.drop_first();
    match items[0].value {
        None => {
            assert(has_explicit(rest)) by {
                let k = choose|k: int| 0 <= k < items.len() && (#[trigger] items[k]).value is Some;
                assert(rest[k - 1].value is Some);
            }
            assert forall|k: int| 0 <= k < rest.len() implies wf_item(#[trigger] rest[k]) by {
                assert(rest[k] == items[k + 1]);
            }
            assert forall|i: int, j: int| 0 <= i < j < rest.len() implies rest[i].name
                != rest[j].name by {
                assert(rest[i] == items[i + 1] && rest[j] == items[j + 1]);
            }
            lemma_rt_members(rest, s, pos);
        },
        Some(v) => {
            let name = items[0].name;
            let en = esc_all(name);
            let nl = en.len() as int;
            let vt = ser_value(v)->0;
            let more = has_explicit(rest);
            let pair = seq!['"'] + en + seq!['"', ':'] + vt;
            lemma_ser_value_len(v);
            assert(wf_item(items[0]));
            // the name token
            assert(pair.subrange(0, nl + 2) =~= seq!['"'] + en + seq!['"']);
            assert(t.subrange(0, nl + 2) =~= seq!['"'] + en + seq!['"']) by {
                assert forall|k: int| 0 <= k < nl + 2 implies t[k] == pair[k] by {}
                assert(t.subrange(0, nl + 2) =~= pair.subrange(0, nl + 2));
            }
            lemma_embed_sub(s, t, pos, 0, nl + 2);
            assert(embedded(s, seq!['"'] + en + seq!['"'], pos)) by {
                assert(t.subrange(0, nl + 2) == seq!['"'] + en + seq!['"']);
            }
            lemma_rt_string(name, s, pos);
            let p1 = pos + nl + 2;
            // the colon, with no whitespace on either side of it in the
            // serialized text
            assert(s[p1] == t[nl + 2] && t[nl + 2] == pair[nl + 2] && pair[nl + 2] == ':');
            lemma_skip_ws_none(s, p1);
            assert(s[p1 + 1] == t[nl + 3] && t[nl + 3] == pair[nl + 3] && pair[nl + 3] == vt[0]);
            lemma_skip_ws_none(s, p1 + 1);
            // the value token
            assert(t.subrange(nl + 3, nl + 3 + vt.len()) =~= vt) by {
                assert forall|k: int| nl + 3 <= k < nl + 3 + vt.len() implies t[k] == vt[k - nl
                    - 3] by {
                    assert(t[k] == pair[k]);
                }
            }
            lemma_embed_sub(s, t, pos, nl + 3, nl + 3 + vt.len());
            let p2 = p1 + 1 + vt.len();
            assert(p2 == pos + pair.len() as int);
            if more {
                assert(s[p2] == t[pair.len() as int] && t[pair.len() as int] == ',');
            } else {
                assert(p2 == pos + t.len());
            }
            lemma_skip_ws_none(s, p2);
            lemma_rt_value(v, s, p1 + 1);
            if more {
                let rt = ser_items(rest)->0;
                assert(has_explicit(rest));
                assert forall|k: int| 0 <= k < rest.len() implies wf_item(#[trigger] rest[k]) by {
                    assert(rest[k] == items[k + 1]);
                }
                assert forall|i: int, j: int| 0 <= i < j < rest.len() implies rest[i].name
                    != rest[j].name by {
                    assert(rest[i] == items[i + 1] && rest[j] == items[j + 1]);
                }
                assert(t.subrange(pair.len() as int + 1, t.len() as int) =~= rt) by {
                    assert forall|k: int|
                        pair.len() as int + 1 <= k < t.len() implies t[k] == rt[k - pair.len() as int - 1] by {}
                }
                lemma_embed_sub(s, t, pos, pair.len() as int + 1, t.len() as int);
                lemma_ser_items_first(rest, rt);
                assert(s[p2 + 1] == t[pair.len() as int + 1] && t[pair.len() as int + 1] == rt[0]);
                lemma_skip_ws_none(s, p2 + 1);
                lemma_rt_members(rest, s, p2 + 1);
                assert forall|k: int| 0 <= k < rest.len() implies (#[trigger] rest[k]).name
                    != name by {
                    assert(rest[k] == items[k + 1]);
                }
                lemma_strip_names(rest, name);
                assert(seq![
                    SpecItem { name, value: Some(strip_value(v)), default: None },
                ] + strip_items(rest) =~= strip_items(items));
            } else {
                lemma_strip_no_explicit(rest);
                assert(seq![SpecItem { name, value: Some(strip_value(v)), default: None }]
                    =~= strip_items(items));
            }
        },
    }
}

/// Round trip of the serialized array elements, up to the closing bracket.
proof fn lemma_rt_elems(objs: Seq<SpecObj>, s: Seq<char>, pos: int)
    requires
        objs.len() >= 1,
        forall|k: int| 0 <= k < objs.len() ==> wf_obj(#[trigger] objs[k]),
        ser_objs(objs) is Some,
        embedded(s, ser_objs(objs)->0, pos),
        pos + ser_objs(objs)->0.len() < s.len(),
        s[pos + ser_objs(objs)->0.len()] == ']',
    ensures
        sp_elems(s, pos) == Some((strip_objs(objs), pos + ser_objs(objs)->0.len() + 1)),
    decreases objs, 2int,
{
    let t = ser_objs(objs)->0;
    let t0 = ser_obj(objs[0])->0;
    assert(t0.subrange(0, t0.len() as int) =~= t0);
    if objs.len() == 1 {
        assert(t == t0);
        lemma_rt_obj(objs[0], s, pos);
        lemma_skip_ws_none(s, pos + t0.len());
        assert(strip_objs(objs) =~= seq![strip_obj(objs[0])]);
    } else {
        let rt = ser_objs(objs.drop_first())->0;
        assert(t == t0 + seq![','] + rt);
        assert(t.subrange(0, t0.len() as int) =~= t0);
        lemma_embed_sub(s, t, pos, 0, t0.len() as int);
        lemma_rt_obj(objs[0], s, pos);
        let p1 = pos + t0.len();
        assert(s[p1] == t[t0.len() as int] && t[t0.len() as int] == ',');
        lemma_skip_ws_none(s, p1);
        let t00 = ser_obj(objs.drop_first()[0])->0;
        assert(t00.len() >= 1 && t00[0] == '{') by {
            assert(objs.drop_first()[0] == objs[1]);
            assert(ser_obj(objs.drop_first()[0]) is Some);
        }
        assert(rt[0] == t00[0]);
        assert(s[p1 + 1] == t[t0.len() as int + 1] && t[t0.len() as int + 1] == rt[0]);
        lemma_skip_ws_none(s, p1 + 1);
        assert forall|k: int| 0 <= k < objs.drop_first().len() implies wf_obj(
            #[trigger] objs.drop_first()[k],
        ) by {
            assert(objs.drop_first()[k] == objs[k + 1]);
        }
        assert(t.subrange(t0.len() as int + 1, t.len() as int) =~= rt) by {
            assert forall|k: int| t0.len() as int + 1 <= k < t.len() implies t[k] == rt[k - t0.len() as int
                - 1] by {}
        }
        lemma_embed_sub(s, t, pos, t0.len() as int + 1, t.len() as int);
        lemma_rt_elems(objs.drop_first(), s, p1 + 1);
        assert(seq![strip_obj(objs[0])] + strip_objs(objs.drop_first()) =~= strip_objs(objs));
    }
}

/// The JSON round trip: parsing a serialized object reconstructs exactly its
/// explicit fields — the object with its schema defaults dropped.
pub proof fn lemma_json_round_trip(o: SpecObj)
    requires
        wf_obj(o),
        ser_obj(o) is Some,
    ensures
        sp_document(ser_obj(o)->0) == Some(strip_obj(o)),
{
    let t = ser_obj(o)->0;
    assert(embedded(t, t, 0));
    assert(t[0] == '{');
    lemma_skip_ws_none(t, 0);
    lemma_rt_obj(o, t, 0);
    lemma_skip_ws_none(t, t.len() as int);
}

/// A parsed value is well formed.
proof fn lemma_sp_value_wf(s: Seq<char>, pos: int)
    requires
        0 <= pos,
    ensures
        sp_value(s, pos) matches Some(vp) ==> wf_value(vp.0),
    decreases s.len() - pos, 2int,
{
    if pos < s.len() {
        if s[pos] == '{' {
            lemma_sp_obj_wf(s, pos);
        } else if s[pos] == '[' {
            lemma_sp_arr_wf(s, pos);
        }
    }
}

/// A parsed object is well formed.
proof fn lemma_sp_obj_wf(s: Seq<char>, pos: int)
    requires
        0 <= pos,
    ensures
        sp_obj(s, pos) matches Some(op) ==> wf_obj(op.0),
    decreases s.len() - pos, 0int,
{
    if 0 <= pos < s.len() && s[pos] == '{' {
        let q = skip_ws(s, pos + 1);
        if pos + 1 <= q <= s.len() {
            if !(q < s.len() && s[q] == '}') {
                lemma_sp_members_wf(s, q);
            }
        }
    }
}

/// Parsed members have distinct names, and each is a well-formed field with
/// an explicit value.
proof fn lemma_sp_members_wf(s: Seq<char>, pos: int)
    requires
        0 <= pos,
    ensures
        sp_members(s, pos) matches Some(ip) ==> distinct_names(ip.0) && forall|k: int|
            0 <= k < ip.0.len() ==> wf_item(#[trigger] ip.0[k]) && ip.0[k].value is Some,
    decreases s.len() - pos, 1int,
{
    match sp_string(s, pos) {
        None => {},
        Some((name, p1)) => {
            if pos < p1 <= s.len() && p1 <= skip_ws(s, p1) <= s.len() && skip_ws(s, p1) < s.len()
                && s[skip_ws(s, p1)] == ':' {
                let q1 = skip_ws(s, p1);
                let q2 = skip_ws(s, q1 + 1);
                if q1 + 1 <= q2 <= s.len() {
                    lemma_sp_value_wf(s, q2);
                    match sp_value(s, q2) {
                        None => {},
                        Some((v, p2)) => {
                            if q2 < p2 <= s.len() {
                                let item = SpecItem { name, value: Some(v), default: None };
                                let q3 = skip_ws(s, p2);
                                if p2 <= q3 <= s.len() && q3 < s.len() && s[q3] == ',' {
                                    let q4 = skip_ws(s, q3 + 1);
                                    if q3 + 1 <= q4 <= s.len() {
                                        lemma_sp_members_wf(s, q4);
                                        match sp_members(s, q4) {
                                            None => {},
                                            Some((rest, p3)) => {
                                                if !contains_name(rest, name) {
                                                    lemma_contains_name_iff(rest, name);
                                                    let items = seq![item] + rest;
                                                    assert forall|k: int|
                                                        0 <= k < items.len() implies wf_item(
                                                        #[trigger] items[k],
                                                    ) && items[k].value is Some by {
                                                        if k > 0 {
                                                            assert(items[k] == rest[k - 1]);
                                                        }
                                                    }
                                                    assert forall|i: int, j: int|
                                                        0 <= i < j < items.len() implies items[i].name != items[j].name by {
                                                        if i > 0 {
                                                            assert(items[i] == rest[i - 1]);
                                                            assert(items[j] == rest[j - 1]);
                                                        } else {
                                                            assert(items[j] == rest[j - 1]);
                                                        }
                                                    }
                                                }
                                            },
                                        }
                                    }
                                }
                            }
                        },
                    }
                }
            }
        },
    }
}

/// A parsed array holds well-formed objects.
proof fn lemma_sp_arr_wf(s: Seq<char>, pos: int)
    requires
        0 <= pos,
    ensures
        sp_arr(s, pos) matches Some(vp) ==> wf_value(vp.0),
    decreases s.len() - pos, 1int,
{
    if 0 <= pos < s.len() && s[pos] == '[' {
        let q = skip_ws(s, pos + 1);
        if pos + 1 <= q <= s.len() {
            if !(q < s.len() && s[q] == ']') {
                lemma_sp_elems_wf(s, q);
            }
        }
    }
}

/// Parsed array elements are well-formed objects.
proof fn lemma_sp_elems_wf(s: Seq<char>, pos: int)
    requires
        0 <= pos,
    ensures
        sp_elems(s, pos) matches Some(op) ==> forall|k: int|
            0 <= k < op.0.len() ==> wf_obj(#[trigger] op.0[k]),
    decreases s.len() - pos, 1int,
{
    lemma_sp_obj_wf(s, pos);
    match sp_obj(s, pos) {
        None => {},
        Some((o, p1)) => {
            if pos < p1 <= s.len() {
                let q = skip_ws(s, p1);
                if p1 <= q <= s.len() && q < s.len() && s[q] == ',' {
                    let q2 = skip_ws(s, q + 1);
                    if q + 1 <= q2 <= s.len() {
                        lemma_sp_elems_wf(s, q2);
                        match sp_elems(s, q2) {
                            None => {},
                            Some((rest, p2)) => {
                                let objs = seq![o] + rest;
                                assert forall|k: int| 0 <= k < objs.len() implies wf_obj(
                                    #[trigger] objs[k],
                                ) by {
                                    if k > 0 {
                                        assert(objs[k] == rest[k - 1]);
                                    }
                                }
                            },
                        }
                    }
                }
            }
        },
    }
}

/// A parsed value always serializes.
proof fn lemma_sp_value_ser(s: Seq<char>, pos: int)
    requires
        0 <= pos,
    ensures
        sp_value(s, pos) matches Some(vp) ==> ser_value(vp.0) is Some,
    decreases s.len() - pos, 2int,
{
    if pos < s.len() {
        if s[pos] == '{' {
            lemma_sp_obj_ser(s, pos);
        } else if s[pos] == '[' {
            lemma_sp_arr_ser(s, pos);
        }
    }
}

/// A parsed object always serializes.
proof fn lemma_sp_obj_ser(s: Seq<char>, pos: int)
    requires
        0 <= pos,
    ensures
        sp_obj(s, pos) matches Some(op) ==> ser_obj(op.0) is Some,
    decreases s.len() - pos, 0int,
{
    if 0 <= pos < s.len() && s[pos] == '{' {
        let q = skip_ws(s, pos + 1);
        if pos + 1 <= q <= s.len() {
            if !(q < s.len() && s[q] == '}') {
                lemma_sp_members_ser(s, q);
            } else {
                assert(ser_items(Seq::<SpecItem>::empty()) is Some);
            }
        }
    }
}

/// Parsed members always serialize.
proof fn lemma_sp_members_ser(s: Seq<char>, pos: int)
    requires
        0 <= pos,
    ensures
        sp_members(s, pos) matches Some(ip) ==> ser_items(ip.0) is Some,
    decreases s.len() - pos, 1int,
{
    match sp_string(s, pos) {
        None => {},
        Some((name, p1)) => {
            if pos < p1 <= s.len() && p1 <= skip_ws(s, p1) <= s.len() && skip_ws(s, p1) < s.len()
                && s[skip_ws(s, p1)] == ':' {
                let q1 = skip_ws(s, p1);
                let q2 = skip_ws(s, q1 + 1);
                if q1 + 1 <= q2 <= s.len() {
                    lemma_sp_value_ser(s, q2);
                    match sp_value(s, q2) {
                        None => {},
                        Some((v, p2)) => {
                            if q2 < p2 <= s.len() {
                                let item = SpecItem { name, value: Some(v), default: None };
                                let q3 = skip_ws(s, p2);
                                if p2 <= q3 <= s.len() && q3 < s.len() && s[q3] == ',' {
                                    let q4 = skip_ws(s, q3 + 1);
                                    if q3 + 1 <= q4 <= s.len() {
                                        lemma_sp_members_ser(s, q4);
                                        match sp_members(s, q4) {
                                            None => {},
                                            Some((rest, p3)) => {
                                                if !contains_name(rest, name) {
                                                    let items = seq![item] + rest;
                                                    assert(items[0] == item);
                                                    assert(items.drop_first() =~= rest);
                                                }
                                            },
                                        }
                                    }
                                } else if p2 <= q3 <= s.len() && q3 < s.len() && s[q3] == '}' {
                                    let items = seq![item];
                                    assert(items[0] == item);
                                    assert(items.drop_first() =~= Seq::<SpecItem>::empty());
                                    assert(ser_items(Seq::<SpecItem>::empty()) is Some);
                                }
                            }
                        },
                    }
                }
            }
        },
    }
}

/// A parsed array always serializes.
proof fn lemma_sp_arr_ser(s: Seq<char>, pos: int)
    requires
        0 <= pos,
    ensures
        sp_arr(s, pos) matches Some(vp) ==> ser_value(vp.0) is Some,
    decreases s.len() - pos, 1int,
{
    if 0 <= pos < s.len() && s[pos] == '[' {
        let q = skip_ws(s, pos + 1);
        if pos + 1 <= q <= s.len() {
            if !(q < s.len() && s[q] == ']') {
                lemma_sp_elems_ser(s, q);
            }
        }
    }
}

/// Parsed array elements always serialize.
proof fn lemma_sp_elems_ser(s: Seq<char>, pos: int)
    requires
        0 <= pos,
    ensures
        sp_elems(s, pos) matches Some(op) ==> op.0.len() >= 1 && ser_objs(op.0) is Some,
    decreases s.len() - pos, 1int,
{
    lemma_sp_obj_ser(s, pos);
    match sp_obj(s, pos) {
        None => {},
        Some((o, p1)) => {
            if pos < p1 <= s.len() {
                let q = skip_ws(s, p1);
                if p1 <= q <= s.len() && q < s.len() && s[q] == ',' {
                    let q2 = skip_ws(s, q + 1);
                    if q + 1 <= q2 <= s.len() {
                        lemma_sp_elems_ser(s, q2);
                        match sp_elems(s, q2) {
                            None => {},
                            Some((rest, p2)) => {
                                let objs = seq![o] + rest;
                                assert(objs[0] == o);
                                assert(objs.drop_first() =~= rest);
                            },
                        }
                    }
                } else if p1 <= q <= s.len() && q < s.len() && s[q] == ']' {
                    let objs = seq![o];
                    assert(objs[0] == o);
                }
            }
        },
    }
}

/// A whole parsed document always serializes: `get_json` cannot fail on an
/// object just loaded from text.
pub proof fn lemma_sp_document_ser(s: Seq<char>)
    ensures
        sp_document(s) matches Some(m) ==> ser_obj(m) is Some,
{
    lemma_ws_run_props(s, 0);
    lemma_sp_obj_ser(s, skip_ws(s, 0));
}

/// A whole parsed document is well formed.
pub proof fn lemma_sp_document_wf(s: Seq<char>)
    ensures
        sp_document(s) matches Some(m) ==> wf_obj(m),
{
    lemma_ws_run_props(s, 0);
    lemma_sp_obj_wf(s, skip_ws(s, 0));
}

impl DataObj {
    /// Loads an object from a JSON document; yields nothing when the text is
    /// not a document of the codec's grammar.
    pub fn from_json(text: &str) -> (r: Option<DataObj>)
        ensures
            match sp_document(text@) {
                Some(m) => (r matches Some(o) && o@ == m && wf_obj(o@)),
                None => r is None,
            },
    {
        proof {
            lemma_sp_document_wf(text@);
        }
        let chars = str_chars(text);
        let q0 = e_ws_end(&chars, 0);
        match p_obj(&chars, q0) {
            Some((o, p)) => if e_ws_end(&chars, p) == chars.len() {
                Some(o)
            } else {
                None
            },
            None => None,
        }
    }

    /// Loads an object from the text of a document, with an optional backup
    /// text tried when the primary text is missing or malformed. This is the
    /// decision half of loading from a file: reading the texts is the
    /// caller's.
    pub fn from_json_with_backup(primary: Option<&str>, backup: Option<&str>) -> (r: Option<
        DataObj,
    >)
        ensures
            match (if primary is Some && sp_document(primary->0@) is Some {
                sp_document(primary->0@)
            } else if backup is Some {
                sp_document(backup->0@)
            } else {
                None
            }) {
                Some(m) => (r matches Some(o) && o@ == m && wf_obj(o@)),
                None => r is None,
            },
    {
        if let Some(p) = primary {
            if let Some(o) = DataObj::from_json(p) {
                return Some(o);
            }
        }
        match backup {
            Some(b) => DataObj::from_json(b),
            None => None,
        }
    }

    /// Creates the JSON document of this object's explicit fields; yields
    /// nothing when some value cannot be carried by the codec's grammar.
    pub fn get_json(&self) -> (r: Option<String>)
        ensures
            match ser_obj(self@) {
                Some(t) => (r matches Some(x) && x@ == t),
                None => r is None,
            },
    {
        let mut out = String::new();
        if write_obj(self, &mut out) {
            Some(out)
        } else {
            None
        }
    }
}

} // verus!
