//! Reading what was written: the JSON text of a value stands for that value.

use crate::fleece::{
    entries_put, entries_sorted, is_rank, lemma_rank_unique, model_wf, Entries,
};
use crate::json::{
    entries_text, escaped_char, escaped_text, hex4, hex_char, hex_value, integer_text, is_control,
    is_ws, items_text, json_text, parse_array, parse_elements, parse_escape, parse_json,
    parse_member, parse_members, parse_number, parse_object, parse_string_body, parse_value,
    quoted_text, skip_ws, starts_with,
};
use crate::number::{
    count_digits, digit_value, digits_value, ends_number, exponent_end, fraction_end,
    integer_part, integral_value, is_digit, is_double_text, is_number_text,
    lemma_count_digits_is, lemma_shape_bounds, lemma_shape_extended, number_shape,
    shape_is_integral, NumberShape,
};
use crate::fleece::ValueModel;
use crate::text::{decimal_text, digit_char, is_char_code};
use vstd::prelude::*;

verus! {

/// The text of a string begins with the text of its first character.
pub proof fn lemma_escaped_text_front(s: Seq<char>)
    requires
        s.len() > 0,
    ensures
        escaped_text(s) == escaped_char(s[0]) + escaped_text(s.drop_first()),
    decreases s.len(),
{
    if s.len() == 1 {
        assert(s.drop_last() =~= Seq::empty());
        assert(s.drop_first() =~= Seq::empty());
        assert(escaped_text(s) =~= escaped_char(s[0]) + escaped_text(s.drop_first()));
    } else {
        lemma_escaped_text_front(s.drop_last());
        assert(s.drop_last().drop_first() =~= s.drop_first().drop_last());
        assert(s.drop_first().last() == s.last());
        assert(s.drop_last()[0] == s[0]);
        assert(escaped_text(s) =~= escaped_char(s[0]) + escaped_text(s.drop_first()));
    }
}

/// The value of the hexadecimal digit of a number below sixteen is that number.
proof fn lemma_hex_round_trip(d: u8)
    requires
        d < 16,
    ensures
        hex_value(hex_char(d)) == Some(d as u32),
{
}

/// What was written for one character of a string is read as that character.
proof fn lemma_parse_escaped_char(c: char, tail: Seq<char>, acc: Seq<char>)
    ensures
        parse_string_body(escaped_char(c) + tail, acc) == parse_string_body(tail, acc.push(c)),
{
    let s = escaped_char(c) + tail;
    if c == '"' || c == '\\' || c == '\n' || c == '\r' || c == '\t' {
        assert(s[0] == '\\');
        assert(s.drop_first().drop_first() =~= tail);
        assert(s.drop_first()[0] == escaped_char(c)[1]);
    } else if is_control(c) {
        let code = c as u32;
        let hi = (code / 16) as u8;
        let lo = (code % 16) as u8;
        assert(code < 32);
        lemma_hex_round_trip(hi);
        lemma_hex_round_trip(lo);
        assert(s[0] == '\\');
        let e = s.drop_first();
        assert(e[0] == 'u');
        let h = e.skip(1);
        assert(h[0] == '0' && h[1] == '0' && h[2] == hex_char(hi) && h[3] == hex_char(lo));
        assert(hex4(h) == Some((hi as u32 * 16 + lo as u32) as u32));
        assert(hi as u32 * 16 + lo as u32 == code);
        assert(is_char_code(code));
        vstd::utf8::char_u32_cast(c, code);
        assert(e.skip(5) =~= tail);
    } else {
        assert(s[0] == c);
        assert(s.drop_first() =~= tail);
    }
}

/// What was written for a string, with the closing quotation mark, is read as
/// that string, and the text behind it is left.
pub proof fn lemma_parse_string(s: Seq<char>, rest: Seq<char>, acc: Seq<char>)
    ensures
        parse_string_body(escaped_text(s) + seq!['"'] + rest, acc) == Some((acc + s, rest)),
    decreases s.len(),
{
    if s.len() == 0 {
        let t = escaped_text(s) + seq!['"'] + rest;
        assert(t[0] == '"');
        assert(t.drop_first() =~= rest);
        assert(acc + s =~= acc);
    } else {
        lemma_escaped_text_front(s);
        let tail = escaped_text(s.drop_first()) + seq!['"'] + rest;
        assert(escaped_text(s) + seq!['"'] + rest =~= escaped_char(s[0]) + tail);
        lemma_parse_escaped_char(s[0], tail, acc);
        lemma_parse_string(s.drop_first(), rest, acc.push(s[0]));
        assert(acc.push(s[0]) + s.drop_first() =~= acc + s);
    }
}

/// The digits of a number in decimal: at least one, all of them digits, no `0`
/// in front but for the number 0, and their value is the number.
pub proof fn lemma_decimal_text(n: nat)
    ensures
        decimal_text(n).len() >= 1,
        forall|i: int| 0 <= i < decimal_text(n).len() ==> is_digit(#[trigger] decimal_text(n)[i]),
        decimal_text(n)[0] == '0' ==> n == 0,
        n == 0 ==> decimal_text(n) == seq!['0'],
        digits_value(decimal_text(n)) == n,
    decreases n,
{
    let d = digit_char((n % 10) as int);
    assert(is_digit(d) && digit_value(d) == n % 10 && (d == '0' ==> n % 10 == 0));
    if n < 10 {
        assert(decimal_text(n) =~= seq![d]);
        assert(decimal_text(n).drop_last() =~= Seq::empty());
        assert(digits_value(Seq::<char>::empty()) == 0);
    } else {
        lemma_decimal_text(n / 10);
        let front = decimal_text(n / 10);
        assert(decimal_text(n) == front.push(d));
        assert(decimal_text(n).drop_last() =~= front);
        assert forall|i: int| 0 <= i < decimal_text(n).len() implies is_digit(
            #[trigger] decimal_text(n)[i],
        ) by {
            if i < front.len() {
                assert(decimal_text(n)[i] == front[i]);
            }
        }
        assert(decimal_text(n)[0] == front[0]);
    }
}

/// The text of an integer is a number by the grammar of JSON, without fraction
/// and exponent, and stands for that integer.
pub proof fn lemma_integer_text(n: int)
    ensures
        is_number_text(integer_text(n)),
        shape_is_integral(number_shape(integer_text(n))->0),
        integral_value(integer_text(n), number_shape(integer_text(n))->0) == n,
{
    let t = integer_text(n);
    let magnitude: nat = if n < 0 { (-n) as nat } else { n as nat };
    let digits = decimal_text(magnitude);
    lemma_decimal_text(magnitude);
    let from: int = if n < 0 { 1 } else { 0 };
    assert(t.skip(from) =~= digits);
    assert(t.len() == from + digits.len());
    if n >= 0 {
        assert(t[0] == digits[0]);
        assert(t[0] != '-');
    }
    lemma_count_digits_is(t.skip(from), digits.len());
    assert(t[from] == digits[0]);
    if digits[0] == '0' {
        assert(magnitude == 0);
        assert(digits.len() == 1);
    }
    assert(integer_part(t) == Some((from, t.len() as int)));
    assert(fraction_end(t, t.len() as int) == Some(t.len() as int));
    assert(exponent_end(t, t.len() as int) == Some(t.len() as int));
    assert(t.subrange(from, t.len() as int) =~= digits);
}

/// What was written for an integer of 64 bits is read as that integer, where
/// nothing follows that could be taken for a part of the number.
pub proof fn lemma_parse_integer(n: int, rest: Seq<char>)
    requires
        i64::MIN <= n <= u64::MAX,
        rest.len() == 0 || ends_number(rest[0]),
    ensures
        parse_number(integer_text(n) + rest) == Some((ValueModel::Int(n), rest)),
{
    let t = integer_text(n);
    lemma_integer_text(n);
    lemma_shape_extended(t, rest);
    let shape = number_shape(t)->0;
    lemma_shape_bounds(t);
    let s = t + rest;
    assert(s.skip(shape.end) =~= rest);
    assert(s.subrange(shape.digits_from, shape.digits_to) =~= t.subrange(
        shape.digits_from,
        shape.digits_to,
    ));
}

/// What was written for a number that is held as text is read as that text,
/// where nothing follows that could be taken for a part of the number.
pub proof fn lemma_parse_double(text: Seq<char>, rest: Seq<char>)
    requires
        is_double_text(text),
        rest.len() == 0 || ends_number(rest[0]),
    ensures
        parse_number(text + rest) == Some((ValueModel::Double(text), rest)),
{
    lemma_shape_extended(text, rest);
    let shape = number_shape(text)->0;
    lemma_shape_bounds(text);
    let s = text + rest;
    assert(s.skip(shape.end) =~= rest);
    assert(s.subrange(0, shape.end) =~= text);
    assert(s.subrange(shape.digits_from, shape.digits_to) =~= text.subrange(
        shape.digits_from,
        shape.digits_to,
    ));
}


/// True for a value that JSON has a form for: neither `Undefined` nor binary
/// data, and neither of them anywhere inside it.
pub open spec fn json_safe(m: ValueModel) -> bool
    decreases m,
{
    match m {
        ValueModel::Undefined => false,
        ValueModel::Data(_) => false,
        ValueModel::Array(items) => forall|i: int|
            0 <= i < items.len() ==> json_safe(#[trigger] items[i]),
        ValueModel::Dict(entries) => forall|i: int|
            0 <= i < entries.len() ==> json_safe((#[trigger] entries[i]).1),
        _ => true,
    }
}

/// True for the characters that the JSON text of a value can begin with.
pub open spec fn starts_value(c: char) -> bool {
    c == 'n' || c == 't' || c == 'f' || c == '-' || is_digit(c) || c == '"' || c == '[' || c == '{'
}

/// The JSON text of a value begins with a character that a value can begin
/// with, and so with no white space.
pub proof fn lemma_text_begins(m: ValueModel)
    requires
        json_safe(m),
        model_wf(m),
    ensures
        json_text(m).len() > 0,
        starts_value(json_text(m)[0]),
        skip_ws(json_text(m)) == json_text(m),
        forall|rest: Seq<char>| #[trigger] skip_ws(json_text(m) + rest) == json_text(m) + rest,
{
    let t = json_text(m);
    match m {
        ValueModel::Int(n) => {
            let magnitude: nat = if n < 0 { (-n) as nat } else { n as nat };
            lemma_decimal_text(magnitude);
            if n >= 0 {
                assert(t[0] == decimal_text(magnitude)[0]);
            }
        },
        ValueModel::Double(text) => {
            lemma_shape_bounds(text);
            let shape = number_shape(text)->0;
            if shape.digits_from == 0 {
                assert(is_digit(text[0]));
            }
        },
        ValueModel::Bool(b) => {},
        ValueModel::String(s) => {
            assert(t[0] == '"');
        },
        ValueModel::Array(items) => {
            assert(t[0] == '[');
        },
        ValueModel::Dict(entries) => {
            assert(t[0] == '{');
        },
        _ => {},
    }
    assert(t.len() > 0 && starts_value(t[0]));
    assert forall|rest: Seq<char>| #[trigger] skip_ws(t + rest) == t + rest by {
        assert((t + rest)[0] == t[0]);
    }
    assert(t + Seq::<char>::empty() =~= t);
}

/// The text of the items of an array begins with the text of the first item.
pub proof fn lemma_items_text_front(items: Seq<ValueModel>)
    requires
        items.len() > 0,
    ensures
        items_text(items) == json_text(items[0]) + (if items.len() > 1 {
            seq![','] + items_text(items.drop_first())
        } else {
            Seq::empty()
        }),
    decreases items.len(),
{
    if items.len() == 1 {
        assert(json_text(items[0]) + Seq::<char>::empty() =~= json_text(items[0]));
    } else {
        let front = items.drop_last();
        lemma_items_text_front(front);
        assert(front[0] == items[0]);
        assert(front.drop_first() =~= items.drop_first().drop_last());
        assert(items.drop_first().last() == items.last());
        if items.len() == 2 {
            assert(items.drop_first()[0] == items.last());
            assert(items_text(items) =~= json_text(items[0]) + (seq![','] + items_text(
                items.drop_first(),
            )));
        } else {
            assert(items_text(items) =~= json_text(items[0]) + (seq![','] + items_text(
                items.drop_first(),
            )));
        }
    }
}

/// The text of one entry of a dictionary: key, colon, value.
pub open spec fn entry_text(entry: (Seq<char>, ValueModel)) -> Seq<char> {
    quoted_text(entry.0) + seq![':'] + json_text(entry.1)
}

/// The text of the entries of a dictionary begins with the text of the first
/// entry.
pub proof fn lemma_entries_text_front(entries: Entries)
    requires
        entries.len() > 0,
    ensures
        entries_text(entries) == entry_text(entries[0]) + (if entries.len() > 1 {
            seq![','] + entries_text(entries.drop_first())
        } else {
            Seq::empty()
        }),
    decreases entries.len(),
{
    if entries.len() == 1 {
        assert(entry_text(entries[0]) + Seq::<char>::empty() =~= entry_text(entries[0]));
    } else {
        let front = entries.drop_last();
        lemma_entries_text_front(front);
        assert(front[0] == entries[0]);
        assert(front.drop_first() =~= entries.drop_first().drop_last());
        assert(entries.drop_first().last() == entries.last());
        if entries.len() == 2 {
            assert(entries.drop_first()[0] == entries.last());
        }
        assert(entries_text(entries) =~= entry_text(entries[0]) + (seq![','] + entries_text(
            entries.drop_first(),
        )));
    }
}

/// What was written for `null`, `true` or `false` is read as that value.
proof fn lemma_parse_word(m: ValueModel, rest: Seq<char>)
    requires
        m is Null || m is Bool,
    ensures
        parse_value(json_text(m) + rest) == Some((m, rest)),
{
    let s = json_text(m) + rest;
    assert(s[0] == json_text(m)[0]);
    assert(skip_ws(s) == s);
    match m {
        ValueModel::Null => {
            assert(s.subrange(0, 4) =~= seq!['n', 'u', 'l', 'l']);
            assert(s.skip(4) =~= rest);
        },
        ValueModel::Bool(b) => {
            if b {
                assert(s.subrange(0, 4) =~= seq!['t', 'r', 'u', 'e']);
                assert(s.skip(4) =~= rest);
                if starts_with(s, seq!['n', 'u', 'l', 'l']) {
                    assert(s.subrange(0, 4)[0] == 'n');
                }
            } else {
                assert(s.subrange(0, 5) =~= seq!['f', 'a', 'l', 's', 'e']);
                assert(s.skip(5) =~= rest);
                if starts_with(s, seq!['n', 'u', 'l', 'l']) {
                    assert(s.subrange(0, 4)[0] == 'n');
                }
                if starts_with(s, seq!['t', 'r', 'u', 'e']) {
                    assert(s.subrange(0, 4)[0] == 't');
                }
            }
        },
        _ => {},
    }
}

/// What was written for a number is read as that number, where nothing follows
/// that could be taken for a part of it.
proof fn lemma_parse_number_value(m: ValueModel, rest: Seq<char>)
    requires
        m is Int || m is Double,
        model_wf(m),
        rest.len() == 0 || ends_number(rest[0]),
    ensures
        parse_value(json_text(m) + rest) == Some((m, rest)),
{
    let t = json_text(m);
    let s = t + rest;
    match m {
        ValueModel::Int(n) => {
            let magnitude: nat = if n < 0 { (-n) as nat } else { n as nat };
            lemma_decimal_text(magnitude);
            if n >= 0 {
                assert(t[0] == decimal_text(magnitude)[0]);
            }
            assert(t[0] == '-' || is_digit(t[0]));
            lemma_parse_integer(n, rest);
        },
        ValueModel::Double(text) => {
            lemma_shape_bounds(text);
            let shape = number_shape(text)->0;
            if shape.digits_from == 0 {
                assert(is_digit(text[0]));
            }
            assert(t[0] == '-' || is_digit(t[0]));
            lemma_parse_double(text, rest);
        },
        _ => {},
    }
    assert(s[0] == t[0]);
    assert(skip_ws(s) == s);
    lemma_number_is_no_word(s);
}

/// What was written for a string is read as that string.
proof fn lemma_parse_string_value(text: Seq<char>, rest: Seq<char>)
    ensures
        parse_value(json_text(ValueModel::String(text)) + rest) == Some(
            (ValueModel::String(text), rest),
        ),
{
    let s = json_text(ValueModel::String(text)) + rest;
    assert(s[0] == '"');
    assert(skip_ws(s) == s);
    lemma_parse_string(text, rest, Seq::empty());
    assert(s.drop_first() =~= escaped_text(text) + seq!['"'] + rest);
    assert(Seq::<char>::empty() + text =~= text);
}

/// What was written for an array is read as that array.
proof fn lemma_parse_array_value(items: Seq<ValueModel>, rest: Seq<char>)
    requires
        forall|i: int| 0 <= i < items.len() ==> json_safe(#[trigger] items[i]) && model_wf(items[i]),
    ensures
        parse_value(json_text(ValueModel::Array(items)) + rest) == Some(
            (ValueModel::Array(items), rest),
        ),
    decreases items, items.len() + 1, 0nat,
{
    let s = json_text(ValueModel::Array(items)) + rest;
    assert(s[0] == '[');
    assert(skip_ws(s) == s);
    let inner = items_text(items) + seq![']'] + rest;
    assert(s.drop_first() =~= inner);
    if items.len() == 0 {
        assert(inner[0] == ']');
        assert(skip_ws(inner) == inner);
        assert(inner.drop_first() =~= rest);
        assert(items =~= Seq::empty());
    } else {
        lemma_items_text_front(items);
        lemma_text_begins(items[0]);
        assert(inner[0] == json_text(items[0])[0]);
        assert(skip_ws(inner) == inner);
        assert(items.skip(0) =~= items);
        assert(items.take(0) =~= Seq::empty());
        lemma_parse_elements(items, 0, rest);
    }
}

/// What was written for a dictionary is read as that dictionary.
proof fn lemma_parse_dict_value(entries: Entries, rest: Seq<char>)
    requires
        entries_sorted(entries),
        forall|i: int|
            0 <= i < entries.len() ==> json_safe((#[trigger] entries[i]).1) && model_wf(
                entries[i].1,
            ),
    ensures
        parse_value(json_text(ValueModel::Dict(entries)) + rest) == Some(
            (ValueModel::Dict(entries), rest),
        ),
    decreases entries, entries.len() + 1, 0nat,
{
    let s = json_text(ValueModel::Dict(entries)) + rest;
    assert(s[0] == '{');
    assert(skip_ws(s) == s);
    let inner = entries_text(entries) + seq!['}'] + rest;
    assert(s.drop_first() =~= inner);
    if entries.len() == 0 {
        assert(inner[0] == '}');
        assert(skip_ws(inner) == inner);
        assert(inner.drop_first() =~= rest);
        assert(entries =~= Seq::empty());
    } else {
        lemma_entries_text_front(entries);
        assert(inner[0] == '"');
        assert(skip_ws(inner) == inner);
        assert(entries.skip(0) =~= entries);
        assert(entries.take(0) =~= Seq::empty());
        lemma_parse_members(entries, 0, rest);
    }
}

/// What was written for a value is read as that value, and the text behind it
/// is left, where that text does not begin with a character that could be taken
/// for a part of a number.
pub proof fn lemma_parse_value(m: ValueModel, rest: Seq<char>)
    requires
        json_safe(m),
        model_wf(m),
        rest.len() == 0 || ends_number(rest[0]),
    ensures
        parse_value(json_text(m) + rest) == Some((m, rest)),
    decreases m, 0nat, 0nat,
{
    match m {
        ValueModel::Null => {
            lemma_parse_word(m, rest);
        },
        ValueModel::Bool(_) => {
            lemma_parse_word(m, rest);
        },
        ValueModel::Int(_) => {
            lemma_parse_number_value(m, rest);
        },
        ValueModel::Double(_) => {
            lemma_parse_number_value(m, rest);
        },
        ValueModel::String(text) => {
            lemma_parse_string_value(text, rest);
        },
        ValueModel::Array(items) => {
            lemma_parse_array_value(items, rest);
        },
        ValueModel::Dict(entries) => {
            lemma_parse_dict_value(entries, rest);
        },
        _ => {},
    }
}

/// A text that begins with a digit or a minus sign begins with none of the
/// words `null`, `true` and `false`.
proof fn lemma_number_is_no_word(s: Seq<char>)
    requires
        s.len() > 0,
        s[0] == '-' || is_digit(s[0]),
    ensures
        !starts_with(s, seq!['n', 'u', 'l', 'l']),
        !starts_with(s, seq!['t', 'r', 'u', 'e']),
        !starts_with(s, seq!['f', 'a', 'l', 's', 'e']),
{
    if starts_with(s, seq!['n', 'u', 'l', 'l']) {
        assert(s.subrange(0, 4)[0] == 'n');
    }
    if starts_with(s, seq!['t', 'r', 'u', 'e']) {
        assert(s.subrange(0, 4)[0] == 't');
    }
    if starts_with(s, seq!['f', 'a', 'l', 's', 'e']) {
        assert(s.subrange(0, 5)[0] == 'f');
    }
}

/// What was written for the items of an array from position `k` on, with the
/// closing bracket, is read as those items behind the first `k`.
pub proof fn lemma_parse_elements(all: Seq<ValueModel>, k: int, rest: Seq<char>)
    requires
        0 <= k < all.len(),
        forall|i: int| 0 <= i < all.len() ==> json_safe(#[trigger] all[i]) && model_wf(all[i]),
    ensures
        parse_elements(items_text(all.skip(k)) + seq![']'] + rest, all.take(k)) == Some(
            (ValueModel::Array(all), rest),
        ),
    decreases all, all.len() - k, 1nat,
{
    let tail = all.skip(k);
    let s = items_text(tail) + seq![']'] + rest;
    lemma_items_text_front(tail);
    assert(tail[0] == all[k]);
    let item = all[k];
    let behind: Seq<char> = (if tail.len() > 1 {
        seq![','] + items_text(tail.drop_first())
    } else {
        Seq::empty()
    }) + seq![']'] + rest;
    assert(s =~= json_text(item) + behind);
    assert(behind[0] == ',' || behind[0] == ']');
    lemma_parse_value(item, behind);
    assert(skip_ws(behind) == behind);
    lemma_text_begins(item);
    assert(behind.len() <= s.len());
    assert(all.take(k).push(item) =~= all.take(k + 1));
    if tail.len() > 1 {
        assert(tail.drop_first() =~= all.skip(k + 1));
        assert(behind.drop_first() =~= items_text(all.skip(k + 1)) + seq![']'] + rest);
        lemma_parse_elements(all, k + 1, rest);
    } else {
        assert(behind.drop_first() =~= rest);
        assert(all.take(k + 1) =~= all);
    }
}

/// What was written for one entry of a dictionary is read as that entry, where
/// a comma or the closing brace follows.
pub proof fn lemma_parse_entry(entry: (Seq<char>, ValueModel), behind: Seq<char>)
    requires
        json_safe(entry.1),
        model_wf(entry.1),
        behind.len() > 0,
        behind[0] == ',' || behind[0] == '}',
    ensures
        parse_member(entry_text(entry) + behind) == Some((entry.0, entry.1, behind)),
    decreases entry, 0nat, 0nat,
{
    let key = entry.0;
    let value = entry.1;
    let s = entry_text(entry) + behind;
    let after_key = seq![':'] + json_text(value) + behind;
    assert(s =~= seq!['"'] + escaped_text(key) + seq!['"'] + after_key);
    assert(s[0] == '"');
    assert(skip_ws(s) == s);
    assert(s.drop_first() =~= escaped_text(key) + seq!['"'] + after_key);
    lemma_parse_string(key, after_key, Seq::empty());
    assert(Seq::<char>::empty() + key =~= key);
    assert(after_key[0] == ':');
    assert(skip_ws(after_key) == after_key);
    assert(after_key.drop_first() =~= json_text(value) + behind);
    lemma_parse_value(value, behind);
    assert(skip_ws(behind) == behind);
}

/// An entry whose key comes behind all the keys of sorted entries is put behind
/// them.
proof fn lemma_put_behind(all: Entries, k: int)
    requires
        0 <= k < all.len(),
        entries_sorted(all),
    ensures
        entries_put(all.take(k), all[k].0, all[k].1) == all.take(k + 1),
{
    let before = all.take(k);
    let key = all[k].0;
    assert(is_rank(before, key, k)) by {
        assert forall|j: int| 0 <= j < k implies crate::text::key_lt((#[trigger] before[j]).0, key) by {
            assert(before[j] == all[j]);
        }
    }
    lemma_rank_unique(before, key, k);
    assert(entries_put(before, key, all[k].1) =~= all.take(k + 1));
}

/// What was written for the entries of a dictionary from position `k` on, with
/// the closing brace, is read as those entries behind the first `k`.
pub proof fn lemma_parse_members(all: Entries, k: int, rest: Seq<char>)
    requires
        0 <= k < all.len(),
        entries_sorted(all),
        forall|i: int|
            0 <= i < all.len() ==> json_safe((#[trigger] all[i]).1) && model_wf(all[i].1),
    ensures
        parse_members(entries_text(all.skip(k)) + seq!['}'] + rest, all.take(k)) == Some(
            (ValueModel::Dict(all), rest),
        ),
    decreases all, all.len() - k, 1nat,
{
    let tail = all.skip(k);
    let s = entries_text(tail) + seq!['}'] + rest;
    lemma_entries_text_front(tail);
    assert(tail[0] == all[k]);
    let behind: Seq<char> = (if tail.len() > 1 {
        seq![','] + entries_text(tail.drop_first())
    } else {
        Seq::empty()
    }) + seq!['}'] + rest;
    assert(s =~= entry_text(all[k]) + behind);
    assert(behind[0] == ',' || behind[0] == '}');
    lemma_parse_entry(all[k], behind);
    lemma_put_behind(all, k);
    assert(behind.len() <= s.len());
    if tail.len() > 1 {
        assert(tail.drop_first() =~= all.skip(k + 1));
        assert(behind.drop_first() =~= entries_text(all.skip(k + 1)) + seq!['}'] + rest);
        lemma_parse_members(all, k + 1, rest);
    } else {
        assert(behind.drop_first() =~= rest);
        assert(all.take(k + 1) =~= all);
    }
}

/// Reading what was written gives the value back: the JSON text of a valid
/// value that holds neither `Undefined` nor binary data stands for that value.
pub proof fn lemma_json_round_trip(m: ValueModel)
    requires
        json_safe(m),
        model_wf(m),
    ensures
        parse_json(json_text(m)) == Some(m),
{
    lemma_parse_value(m, Seq::empty());
    assert(json_text(m) + Seq::<char>::empty() =~= json_text(m));
}

/// Writing again what was read gives the same text as writing the value that
/// was written at first: the text of a value is stable under reading and
/// writing.
pub proof fn lemma_json_text_is_stable(m: ValueModel)
    requires
        json_safe(m),
        model_wf(m),
    ensures
        parse_json(json_text(m)) matches Some(again) && json_text(again) == json_text(m),
{
    lemma_json_round_trip(m);
}

} // verus!
