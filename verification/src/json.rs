//! JSON: how a value is written as JSON text, and how JSON text is read as a
//! value.

use crate::fleece::{
    entries_model, entries_put, items_model, lemma_container_view, Array, Borrowed, Dict, Entries,
    Node, Value, ValueModel,
};
use crate::fleece_mutable::MutableArray;
use crate::error::{Error, ErrorCode, FleeceError};
use crate::fleece_mutable::MutableDict;
use crate::number::{
    digits_to_u64, integral_value, is_double_text, lemma_shape_bounds, lemma_shape_of_token,
    number_shape, scan_number, shape_is_integral,
};
use crate::text::is_char_code;
use crate::text::{chars_of, decimal_text, push_decimal};
use vstd::prelude::*;

verus! {

/// The character that stands for the six bits `i` in base 64.
pub open spec fn base64_char(i: u8) -> char {
    if i == 0 {
        'A'
    } else if i == 1 {
        'B'
    } else if i == 2 {
        'C'
    } else if i == 3 {
        'D'
    } else if i == 4 {
        'E'
    } else if i == 5 {
        'F'
    } else if i == 6 {
        'G'
    } else if i == 7 {
        'H'
    } else if i == 8 {
        'I'
    } else if i == 9 {
        'J'
    } else if i == 10 {
        'K'
    } else if i == 11 {
        'L'
    } else if i == 12 {
        'M'
    } else if i == 13 {
        'N'
    } else if i == 14 {
        'O'
    } else if i == 15 {
        'P'
    } else if i == 16 {
        'Q'
    } else if i == 17 {
        'R'
    } else if i == 18 {
        'S'
    } else if i == 19 {
        'T'
    } else if i == 20 {
        'U'
    } else if i == 21 {
        'V'
    } else if i == 22 {
        'W'
    } else if i == 23 {
        'X'
    } else if i == 24 {
        'Y'
    } else if i == 25 {
        'Z'
    } else if i == 26 {
        'a'
    } else if i == 27 {
        'b'
    } else if i == 28 {
        'c'
    } else if i == 29 {
        'd'
    } else if i == 30 {
        'e'
    } else if i == 31 {
        'f'
    } else if i == 32 {
        'g'
    } else if i == 33 {
        'h'
    } else if i == 34 {
        'i'
    } else if i == 35 {
        'j'
    } else if i == 36 {
        'k'
    } else if i == 37 {
        'l'
    } else if i == 38 {
        'm'
    } else if i == 39 {
        'n'
    } else if i == 40 {
        'o'
    } else if i == 41 {
        'p'
    } else if i == 42 {
        'q'
    } else if i == 43 {
        'r'
    } else if i == 44 {
        's'
    } else if i == 45 {
        't'
    } else if i == 46 {
        'u'
    } else if i == 47 {
        'v'
    } else if i == 48 {
        'w'
    } else if i == 49 {
        'x'
    } else if i == 50 {
        'y'
    } else if i == 51 {
        'z'
    } else if i == 52 {
        '0'
    } else if i == 53 {
        '1'
    } else if i == 54 {
        '2'
    } else if i == 55 {
        '3'
    } else if i == 56 {
        '4'
    } else if i == 57 {
        '5'
    } else if i == 58 {
        '6'
    } else if i == 59 {
        '7'
    } else if i == 60 {
        '8'
    } else if i == 61 {
        '9'
    } else if i == 62 {
        '+'
    } else {
        '/'
    }
}

fn base64_of(i: u8) -> (c: char)
    ensures
        c == base64_char(i),
{
    match i {
        0 => 'A',
        1 => 'B',
        2 => 'C',
        3 => 'D',
        4 => 'E',
        5 => 'F',
        6 => 'G',
        7 => 'H',
        8 => 'I',
        9 => 'J',
        10 => 'K',
        11 => 'L',
        12 => 'M',
        13 => 'N',
        14 => 'O',
        15 => 'P',
        16 => 'Q',
        17 => 'R',
        18 => 'S',
        19 => 'T',
        20 => 'U',
        21 => 'V',
        22 => 'W',
        23 => 'X',
        24 => 'Y',
        25 => 'Z',
        26 => 'a',
        27 => 'b',
        28 => 'c',
        29 => 'd',
        30 => 'e',
        31 => 'f',
        32 => 'g',
        33 => 'h',
        34 => 'i',
        35 => 'j',
        36 => 'k',
        37 => 'l',
        38 => 'm',
        39 => 'n',
        40 => 'o',
        41 => 'p',
        42 => 'q',
        43 => 'r',
        44 => 's',
        45 => 't',
        46 => 'u',
        47 => 'v',
        48 => 'w',
        49 => 'x',
        50 => 'y',
        51 => 'z',
        52 => '0',
        53 => '1',
        54 => '2',
        55 => '3',
        56 => '4',
        57 => '5',
        58 => '6',
        59 => '7',
        60 => '8',
        61 => '9',
        62 => '+',
        _ => '/',
    }
}
/// The first of the four characters that stand for three bytes in base 64.
pub open spec fn sextet_0(a: u8) -> u8 {
    a >> 2
}

/// The second of the four characters.
pub open spec fn sextet_1(a: u8, b: u8) -> u8 {
    ((a & 3) << 4) | (b >> 4)
}

/// The third of the four characters.
pub open spec fn sextet_2(b: u8, c: u8) -> u8 {
    ((b & 15) << 2) | (c >> 6)
}

/// The fourth of the four characters.
pub open spec fn sextet_3(c: u8) -> u8 {
    c & 63
}

/// Bytes in base 64, with the standard alphabet, padded with `=` to a multiple
/// of four characters.
pub open spec fn base64_text(d: Seq<u8>) -> Seq<char>
    decreases d.len(),
{
    if d.len() == 0 {
        Seq::empty()
    } else if d.len() == 1 {
        seq![base64_char(sextet_0(d[0])), base64_char(sextet_1(d[0], 0)), '=', '=']
    } else if d.len() == 2 {
        seq![
            base64_char(sextet_0(d[0])),
            base64_char(sextet_1(d[0], d[1])),
            base64_char(sextet_2(d[1], 0)),
            '=',
        ]
    } else {
        seq![
            base64_char(sextet_0(d[0])),
            base64_char(sextet_1(d[0], d[1])),
            base64_char(sextet_2(d[1], d[2])),
            base64_char(sextet_3(d[2])),
        ] + base64_text(d.skip(3))
    }
}

/// The character of a hexadecimal digit, in lower case.
pub open spec fn hex_char(d: u8) -> char {
    if d == 0 {
        '0'
    } else if d == 1 {
        '1'
    } else if d == 2 {
        '2'
    } else if d == 3 {
        '3'
    } else if d == 4 {
        '4'
    } else if d == 5 {
        '5'
    } else if d == 6 {
        '6'
    } else if d == 7 {
        '7'
    } else if d == 8 {
        '8'
    } else if d == 9 {
        '9'
    } else if d == 10 {
        'a'
    } else if d == 11 {
        'b'
    } else if d == 12 {
        'c'
    } else if d == 13 {
        'd'
    } else if d == 14 {
        'e'
    } else {
        'f'
    }
}

fn hex_of(d: u8) -> (c: char)
    ensures
        c == hex_char(d),
{
    match d {
        0 => '0',
        1 => '1',
        2 => '2',
        3 => '3',
        4 => '4',
        5 => '5',
        6 => '6',
        7 => '7',
        8 => '8',
        9 => '9',
        10 => 'a',
        11 => 'b',
        12 => 'c',
        13 => 'd',
        14 => 'e',
        _ => 'f',
    }
}

/// True for the control characters, which JSON text does not hold as they are.
pub open spec fn is_control(c: char) -> bool {
    c < ' '
}

/// How one character of a string is written in JSON text: the quotation mark
/// and the backslash behind a backslash; line feed, carriage return and tab as
/// `\n`, `\r` and `\t`; any other control character as `\u00` and its two
/// hexadecimal digits; every other character as it is.
pub open spec fn escaped_char(c: char) -> Seq<char> {
    if c == '"' {
        seq!['\\', '"']
    } else if c == '\\' {
        seq!['\\', '\\']
    } else if c == '\n' {
        seq!['\\', 'n']
    } else if c == '\r' {
        seq!['\\', 'r']
    } else if c == '\t' {
        seq!['\\', 't']
    } else if is_control(c) {
        seq!['\\', 'u', '0', '0', hex_char(((c as u32) / 16) as u8), hex_char(((c as u32) % 16) as u8)]
    } else {
        seq![c]
    }
}

/// The characters of a string as they are written in JSON text, without the
/// quotation marks around them.
pub open spec fn escaped_text(s: Seq<char>) -> Seq<char>
    decreases s.len(),
{
    if s.len() == 0 {
        Seq::empty()
    } else {
        escaped_text(s.drop_last()) + escaped_char(s.last())
    }
}

/// A string as it is written in JSON text: in quotation marks.
pub open spec fn quoted_text(s: Seq<char>) -> Seq<char> {
    seq!['"'] + escaped_text(s) + seq!['"']
}

/// An integer as it is written in JSON text: in decimal, with a minus sign
/// where it is negative.
pub open spec fn integer_text(n: int) -> Seq<char> {
    if n < 0 {
        seq!['-'] + decimal_text((-n) as nat)
    } else {
        decimal_text(n as nat)
    }
}

/// The JSON text of the items of an array, with commas between them.
pub open spec fn items_text(items: Seq<ValueModel>) -> Seq<char>
    decreases items, 0nat,
{
    if items.len() == 0 {
        Seq::empty()
    } else if items.len() == 1 {
        json_text(items[0])
    } else {
        items_text(items.drop_last()) + seq![','] + json_text(items.last())
    }
}

/// The JSON text of the entries of a dictionary, each a key, a colon and a
/// value, with commas between them.
pub open spec fn entries_text(entries: Entries) -> Seq<char>
    decreases entries, 0nat,
{
    if entries.len() == 0 {
        Seq::empty()
    } else if entries.len() == 1 {
        quoted_text(entries[0].0) + seq![':'] + json_text(entries[0].1)
    } else {
        entries_text(entries.drop_last()) + seq![','] + quoted_text(entries.last().0) + seq![':']
            + json_text(entries.last().1)
    }
}

/// A value as JSON text, without any white space. A dictionary's entries stand
/// in the order of their keys. Binary data, for which JSON has no form, is
/// written as a string in base 64, and `Undefined` as `undefined`.
pub open spec fn json_text(m: ValueModel) -> Seq<char>
    decreases m, 1nat,
{
    match m {
        ValueModel::Undefined => seq!['u', 'n', 'd', 'e', 'f', 'i', 'n', 'e', 'd'],
        ValueModel::Null => seq!['n', 'u', 'l', 'l'],
        ValueModel::Bool(b) => if b {
            seq!['t', 'r', 'u', 'e']
        } else {
            seq!['f', 'a', 'l', 's', 'e']
        },
        ValueModel::Int(n) => integer_text(n),
        ValueModel::Double(text) => text,
        ValueModel::String(s) => quoted_text(s),
        ValueModel::Data(d) => seq!['"'] + base64_text(d) + seq!['"'],
        ValueModel::Array(items) => seq!['['] + items_text(items) + seq![']'],
        ValueModel::Dict(entries) => seq!['{'] + entries_text(entries) + seq!['}'],
    }
}


/// Appends one character of a string as it is written in JSON text.
fn push_escaped_char(out: &mut String, c: char)
    ensures
        final(out)@ == old(out)@ + escaped_char(c),
{
    if c == '"' {
        out.push('\\');
        out.push('"');
        assert(out@ =~= old(out)@ + escaped_char(c));
    } else if c == '\\' {
        out.push('\\');
        out.push('\\');
        assert(out@ =~= old(out)@ + escaped_char(c));
    } else if c == '\n' {
        out.push('\\');
        out.push('n');
        assert(out@ =~= old(out)@ + escaped_char(c));
    } else if c == '\r' {
        out.push('\\');
        out.push('r');
        assert(out@ =~= old(out)@ + escaped_char(c));
    } else if c == '\t' {
        out.push('\\');
        out.push('t');
        assert(out@ =~= old(out)@ + escaped_char(c));
    } else if ' ' > c {
        let code = c as u32;
        out.push('\\');
        out.push('u');
        out.push('0');
        out.push('0');
        out.push(hex_of((code / 16) as u8));
        out.push(hex_of((code % 16) as u8));
        assert(out@ =~= old(out)@ + escaped_char(c));
    } else {
        out.push(c);
        assert(out@ =~= old(out)@ + escaped_char(c));
    }
}

/// Appends a string as it is written in JSON text, in quotation marks.
fn push_quoted(out: &mut String, s: &str)
    ensures
        final(out)@ == old(out)@ + quoted_text(s@),
{
    let chars = chars_of(s);
    out.push('"');
    let mut i: usize = 0;
    assert(chars@.subrange(0, 0) =~= Seq::empty());
    assert(out@ =~= old(out)@ + seq!['"'] + escaped_text(chars@.subrange(0, 0)));
    while i < chars.len()
        invariant
            i <= chars.len(),
            out@ == old(out)@ + seq!['"'] + escaped_text(chars@.subrange(0, i as int)),
        decreases chars.len() - i,
    {
        proof {
            let next = chars@.subrange(0, i + 1);
            assert(next.drop_last() =~= chars@.subrange(0, i as int));
            assert(next.last() == chars@[i as int]);
        }
        let ghost before = out@;
        push_escaped_char(out, chars[i]);
        assert(out@ =~= old(out)@ + seq!['"'] + escaped_text(chars@.subrange(0, i + 1)));
        i += 1;
    }
    assert(chars@.subrange(0, i as int) =~= chars@);
    out.push('"');
    assert(out@ =~= old(out)@ + quoted_text(s@));
}

/// Appends bytes in base 64.
fn push_base64(out: &mut String, d: &Vec<u8>)
    ensures
        final(out)@ == old(out)@ + base64_text(d@),
{
    let n = d.len();
    let mut i: usize = 0;
    assert(d@.skip(0) =~= d@);
    while n - i >= 3
        invariant
            i <= n,
            n == d.len(),
            out@ + base64_text(d@.skip(i as int)) == old(out)@ + base64_text(d@),
        decreases n - i,
    {
        let a = d[i];
        let b = d[i + 1];
        let c = d[i + 2];
        let ghost before = out@;
        proof {
            let rest = d@.skip(i as int);
            assert(rest[0] == a && rest[1] == b && rest[2] == c);
            assert(rest.skip(3) =~= d@.skip(i + 3));
        }
        out.push(base64_of(a >> 2));
        out.push(base64_of(((a & 3) << 4) | (b >> 4)));
        out.push(base64_of(((b & 15) << 2) | (c >> 6)));
        out.push(base64_of(c & 63));
        proof {
            let group = seq![
                base64_char(sextet_0(a)),
                base64_char(sextet_1(a, b)),
                base64_char(sextet_2(b, c)),
                base64_char(sextet_3(c)),
            ];
            assert(out@ =~= before + group);
            assert(out@ + base64_text(d@.skip(i + 3)) =~= before + (group + base64_text(
                d@.skip(i + 3),
            )));
        }
        i += 3;
    }
    let ghost before = out@;
    if n - i == 1 {
        let a = d[i];
        proof {
            assert(d@.skip(i as int)[0] == a);
        }
        out.push(base64_of(a >> 2));
        out.push(base64_of(((a & 3) << 4) | (0u8 >> 4)));
        out.push('=');
        out.push('=');
        assert(out@ =~= before + base64_text(d@.skip(i as int)));
    } else if n - i == 2 {
        let a = d[i];
        let b = d[i + 1];
        proof {
            assert(d@.skip(i as int)[0] == a && d@.skip(i as int)[1] == b);
        }
        out.push(base64_of(a >> 2));
        out.push(base64_of(((a & 3) << 4) | (b >> 4)));
        out.push(base64_of(((b & 15) << 2) | (0u8 >> 6)));
        out.push('=');
        assert(out@ =~= before + base64_text(d@.skip(i as int)));
    } else {
        assert(out@ =~= before + base64_text(d@.skip(i as int)));
    }
}

/// Bytes as text in base 64.
pub fn encode_base64(d: &Vec<u8>) -> (r: String)
    ensures
        r@ == base64_text(d@),
{
    let mut out = String::new();
    push_base64(&mut out, d);
    assert(Seq::<char>::empty() + base64_text(d@) =~= base64_text(d@));
    out
}

/// Appends an integer in decimal.
fn push_integer(out: &mut String, n: i64)
    ensures
        final(out)@ == old(out)@ + integer_text(n as int),
{
    if n < 0 {
        out.push('-');
        let magnitude: u64 = ((-(n + 1)) as u64) + 1;
        push_decimal(out, magnitude);
        assert(out@ =~= old(out)@ + integer_text(n as int));
    } else {
        push_decimal(out, n as u64);
    }
}

/// Appends the JSON text of a tree.
#[verifier::loop_isolation(false)]
pub fn write_node(node: &Node, out: &mut String)
    ensures
        final(out)@ == old(out)@ + json_text(node@),
    decreases node,
{
    proof {
        lemma_container_view(*node);
    }
    match node {
        Node::Null => {
            out.push('n');
            out.push('u');
            out.push('l');
            out.push('l');
            assert(out@ =~= old(out)@ + json_text(node@));
        },
        Node::Bool(b) => {
            if *b {
                out.push('t');
                out.push('r');
                out.push('u');
                out.push('e');
            } else {
                out.push('f');
                out.push('a');
                out.push('l');
                out.push('s');
                out.push('e');
            }
            assert(out@ =~= old(out)@ + json_text(node@));
        },
        Node::Int(n) => {
            push_integer(out, *n);
        },
        Node::UInt(u) => {
            push_decimal(out, *u);
        },
        Node::Double(s) => {
            out.append(s.as_str());
        },
        Node::String(s) => {
            push_quoted(out, s.as_str());
        },
        Node::Data(d) => {
            out.push('"');
            push_base64(out, d);
            out.push('"');
            assert(out@ =~= old(out)@ + json_text(node@));
        },
        Node::Array(items) => {
            out.push('[');
            write_items(items, out);
            out.push(']');
            assert(out@ =~= old(out)@ + json_text(node@));
        },
        Node::Dict(entries) => {
            out.push('{');
            write_entries(entries, out);
            out.push('}');
            assert(out@ =~= old(out)@ + json_text(node@));
        },
    }
}

/// Appends the JSON text of the items of an array, with commas between them.
#[verifier::loop_isolation(false)]
pub fn write_items(items: &Vec<Node>, out: &mut String)
    ensures
        final(out)@ == old(out)@ + items_text(items_model(items@)),
    decreases items,
{
    let ghost all = items_model(items@);
    let mut i: usize = 0;
    assert(all.subrange(0, 0) =~= Seq::empty());
    assert(out@ =~= old(out)@ + items_text(all.subrange(0, 0)));
    while i < items.len()
        invariant
            i <= items.len(),
            out@ == old(out)@ + items_text(all.subrange(0, i as int)),
        decreases items.len() - i,
    {
        proof {
            let next = all.subrange(0, i + 1);
            assert(next.drop_last() =~= all.subrange(0, i as int));
            assert(next.last() == items@[i as int]@);
            if i == 0 {
                assert(next[0] == items@[0]@);
            }
        }
        let ghost before = out@;
        if i > 0 {
            out.push(',');
        }
        write_node(&items[i], out);
        assert(out@ =~= old(out)@ + items_text(all.subrange(0, i + 1)));
        i += 1;
    }
    assert(all.subrange(0, i as int) =~= all);
}

/// Appends the JSON text of the entries of a dictionary, with commas between
/// them.
#[verifier::loop_isolation(false)]
pub fn write_entries(entries: &Vec<(String, Node)>, out: &mut String)
    ensures
        final(out)@ == old(out)@ + entries_text(entries_model(entries@)),
    decreases entries,
{
    let ghost all = entries_model(entries@);
    let mut i: usize = 0;
    assert(all.subrange(0, 0) =~= Seq::empty());
    assert(out@ =~= old(out)@ + entries_text(all.subrange(0, 0)));
    while i < entries.len()
        invariant
            i <= entries.len(),
            out@ == old(out)@ + entries_text(all.subrange(0, i as int)),
        decreases entries.len() - i,
    {
        proof {
            let next = all.subrange(0, i + 1);
            assert(next.drop_last() =~= all.subrange(0, i as int));
            assert(next.last() == (entries@[i as int].0@, entries@[i as int].1@));
            if i == 0 {
                assert(next[0] == (entries@[0].0@, entries@[0].1@));
            }
        }
        if i > 0 {
            out.push(',');
        }
        push_quoted(out, entries[i].0.as_str());
        out.push(':');
        write_node(&entries[i].1, out);
        assert(out@ =~= old(out)@ + entries_text(all.subrange(0, i + 1)));
        i += 1;
    }
    assert(all.subrange(0, i as int) =~= all);
}

/// The JSON text of a value.
pub fn to_json(value: &Value) -> (r: String)
    ensures
        r@ == json_text(value@),
{
    let mut out = String::new();
    match value.flat() {
        Borrowed::Nothing => {
            out.push('u');
            out.push('n');
            out.push('d');
            out.push('e');
            out.push('f');
            out.push('i');
            out.push('n');
            out.push('e');
            out.push('d');
            assert(out@ =~= json_text(value@));
        },
        Borrowed::Tree(node) => {
            write_node(node, &mut out);
            assert(out@ =~= json_text(value@));
        },
        Borrowed::Items(items) => {
            out.push('[');
            write_items(items, &mut out);
            out.push(']');
            assert(out@ =~= json_text(value@));
        },
        Borrowed::Entries(entries) => {
            out.push('{');
            write_entries(entries, &mut out);
            out.push('}');
            assert(out@ =~= json_text(value@));
        },
    }
    out
}


/// True for the white space of JSON: space, line feed, carriage return and tab.
pub open spec fn is_ws(c: char) -> bool {
    c == ' ' || c == '\n' || c == '\r' || c == '\t'
}

/// The text behind the white space that `s` begins with.
pub open spec fn skip_ws(s: Seq<char>) -> Seq<char>
    decreases s.len(),
{
    if s.len() > 0 && is_ws(s[0]) {
        skip_ws(s.drop_first())
    } else {
        s
    }
}

/// The value of a hexadecimal digit, in either case; `None` for any other
/// character.
pub open spec fn hex_value(c: char) -> Option<u32> {
    if c == '0' {
        Some(0u32)
    } else if c == '1' {
        Some(1u32)
    } else if c == '2' {
        Some(2u32)
    } else if c == '3' {
        Some(3u32)
    } else if c == '4' {
        Some(4u32)
    } else if c == '5' {
        Some(5u32)
    } else if c == '6' {
        Some(6u32)
    } else if c == '7' {
        Some(7u32)
    } else if c == '8' {
        Some(8u32)
    } else if c == '9' {
        Some(9u32)
    } else if c == 'a' || c == 'A' {
        Some(10u32)
    } else if c == 'b' || c == 'B' {
        Some(11u32)
    } else if c == 'c' || c == 'C' {
        Some(12u32)
    } else if c == 'd' || c == 'D' {
        Some(13u32)
    } else if c == 'e' || c == 'E' {
        Some(14u32)
    } else if c == 'f' || c == 'F' {
        Some(15u32)
    } else {
        None
    }
}

/// The number that the four hexadecimal digits stand for that `s` begins with;
/// `None` where `s` does not begin with four of them.
pub open spec fn hex4(s: Seq<char>) -> Option<u32> {
    if s.len() >= 4 && hex_value(s[0]) is Some && hex_value(s[1]) is Some && hex_value(s[2]) is Some
        && hex_value(s[3]) is Some {
        Some(
            (hex_value(s[0])->0 * 4096 + hex_value(s[1])->0 * 256 + hex_value(s[2])->0 * 16
                + hex_value(s[3])->0) as u32,
        )
    } else {
        None
    }
}

/// The character that an escape stands for, and the text behind the escape,
/// where `s` is the text behind the backslash; `None` for an escape that JSON
/// does not have. A character beyond the basic plane is written as two escapes,
/// a high surrogate and a low one; a surrogate alone stands for nothing.
pub open spec fn parse_escape(s: Seq<char>) -> Option<(char, Seq<char>)> {
    if s.len() == 0 {
        None
    } else if s[0] == '"' {
        Some(('"', s.drop_first()))
    } else if s[0] == '\\' {
        Some(('\\', s.drop_first()))
    } else if s[0] == '/' {
        Some(('/', s.drop_first()))
    } else if s[0] == 'b' {
        Some(('\u{8}', s.drop_first()))
    } else if s[0] == 'f' {
        Some(('\u{c}', s.drop_first()))
    } else if s[0] == 'n' {
        Some(('\n', s.drop_first()))
    } else if s[0] == 'r' {
        Some(('\r', s.drop_first()))
    } else if s[0] == 't' {
        Some(('\t', s.drop_first()))
    } else if s[0] == 'u' {
        match hex4(s.skip(1)) {
            None => None,
            Some(code) => {
                if is_char_code(code) {
                    Some((code as char, s.skip(5)))
                } else if code < 0xDC00 && s.len() >= 11 && s[5] == '\\' && s[6] == 'u' {
                    match hex4(s.skip(7)) {
                        Some(low) => if 0xDC00 <= low <= 0xDFFF {
                            Some(
                                (
                                    ((0x10000 + (code - 0xD800) * 0x400 + (low - 0xDC00)) as u32) as char,
                                    s.skip(11),
                                ),
                            )
                        } else {
                            None
                        },
                        None => None,
                    }
                } else {
                    None
                }
            },
        }
    } else {
        None
    }
}

/// The characters of the string whose text `s` begins with, behind `acc`, and
/// the text behind the closing quotation mark, where `s` is the text behind the
/// opening one; `None` where the string does not end, holds a control
/// character as it is, or holds an escape that JSON does not have.
pub open spec fn parse_string_body(s: Seq<char>, acc: Seq<char>) -> Option<(Seq<char>, Seq<char>)>
    decreases s.len(),
{
    if s.len() == 0 {
        None
    } else if s[0] == '"' {
        Some((acc, s.drop_first()))
    } else if s[0] == '\\' {
        match parse_escape(s.drop_first()) {
            None => None,
            Some((c, rest)) => if rest.len() < s.len() {
                parse_string_body(rest, acc.push(c))
            } else {
                None
            },
        }
    } else if is_control(s[0]) {
        None
    } else {
        parse_string_body(s.drop_first(), acc.push(s[0]))
    }
}

/// True when `s` begins with `word`.
pub open spec fn starts_with(s: Seq<char>, word: Seq<char>) -> bool {
    s.len() >= word.len() && s.subrange(0, word.len() as int) == word
}

/// The number whose text `s` begins with, and the text behind it: an integer
/// where the text has neither fraction nor exponent and fits in 64 bits, signed
/// or unsigned; else the text itself.
pub open spec fn parse_number(s: Seq<char>) -> Option<(ValueModel, Seq<char>)> {
    match number_shape(s) {
        None => None,
        Some(shape) => {
            let rest = s.skip(shape.end);
            if shape_is_integral(shape) && i64::MIN <= integral_value(s, shape) <= u64::MAX {
                Some((ValueModel::Int(integral_value(s, shape)), rest))
            } else {
                Some((ValueModel::Double(s.subrange(0, shape.end)), rest))
            }
        },
    }
}

/// The value whose JSON text `s` begins with, after white space, and the text
/// behind it; `None` where `s` does not begin with the text of a value.
pub open spec fn parse_value(s: Seq<char>) -> Option<(ValueModel, Seq<char>)>
    decreases s.len(), 1nat,
{
    let t = skip_ws(s);
    if t.len() == 0 || t.len() > s.len() {
        None
    } else if t[0] == '[' {
        parse_array(t.drop_first())
    } else if t[0] == '{' {
        parse_object(t.drop_first())
    } else if t[0] == '"' {
        match parse_string_body(t.drop_first(), Seq::empty()) {
            Some((text, rest)) => Some((ValueModel::String(text), rest)),
            None => None,
        }
    } else if starts_with(t, seq!['n', 'u', 'l', 'l']) {
        Some((ValueModel::Null, t.skip(4)))
    } else if starts_with(t, seq!['t', 'r', 'u', 'e']) {
        Some((ValueModel::Bool(true), t.skip(4)))
    } else if starts_with(t, seq!['f', 'a', 'l', 's', 'e']) {
        Some((ValueModel::Bool(false), t.skip(5)))
    } else {
        parse_number(t)
    }
}

/// The array whose text `s` begins with, and the text behind it, where `s` is
/// the text behind the opening bracket.
pub open spec fn parse_array(s: Seq<char>) -> Option<(ValueModel, Seq<char>)>
    decreases s.len(), 3nat,
{
    let t = skip_ws(s);
    if t.len() > 0 && t[0] == ']' {
        Some((ValueModel::Array(Seq::empty()), t.drop_first()))
    } else {
        parse_elements(s, Seq::empty())
    }
}

/// The array whose items are `acc` and then those whose text `s` begins with,
/// up to the closing bracket, and the text behind that.
pub open spec fn parse_elements(s: Seq<char>, acc: Seq<ValueModel>) -> Option<
    (ValueModel, Seq<char>),
>
    decreases s.len(), 2nat,
{
    match parse_value(s) {
        None => None,
        Some((item, rest)) => {
            let t = skip_ws(rest);
            if t.len() == 0 || t.len() > s.len() {
                None
            } else if t[0] == ',' {
                parse_elements(t.drop_first(), acc.push(item))
            } else if t[0] == ']' {
                Some((ValueModel::Array(acc.push(item)), t.drop_first()))
            } else {
                None
            }
        },
    }
}

/// The dictionary whose text `s` begins with, and the text behind it, where `s`
/// is the text behind the opening brace.
pub open spec fn parse_object(s: Seq<char>) -> Option<(ValueModel, Seq<char>)>
    decreases s.len(), 4nat,
{
    let t = skip_ws(s);
    if t.len() > 0 && t[0] == '}' {
        Some((ValueModel::Dict(Seq::empty()), t.drop_first()))
    } else {
        parse_members(s, Seq::empty())
    }
}

/// The entry whose text `s` begins with, after white space: its key, its value,
/// and the text behind the value and the white space that follows it.
pub open spec fn parse_member(s: Seq<char>) -> Option<(Seq<char>, ValueModel, Seq<char>)>
    decreases s.len(), 2nat,
{
    let t = skip_ws(s);
    if t.len() == 0 || t.len() > s.len() || t[0] != '"' {
        None
    } else {
        match parse_string_body(t.drop_first(), Seq::empty()) {
            None => None,
            Some((key, after_key)) => {
                let u = skip_ws(after_key);
                if u.len() == 0 || u.len() > s.len() || u[0] != ':' {
                    None
                } else {
                    match parse_value(u.drop_first()) {
                        None => None,
                        Some((value, rest)) => Some((key, value, skip_ws(rest))),
                    }
                }
            },
        }
    }
}

/// The dictionary whose entries are `acc` and then those whose text `s` begins
/// with, up to the closing brace, and the text behind that. Of two entries with
/// one key the later one stays.
pub open spec fn parse_members(s: Seq<char>, acc: Entries) -> Option<(ValueModel, Seq<char>)>
    decreases s.len(), 3nat,
{
    match parse_member(s) {
        None => None,
        Some((key, value, w)) => {
            if w.len() == 0 || w.len() > s.len() {
                None
            } else if w[0] == ',' {
                parse_members(w.drop_first(), entries_put(acc, key, value))
            } else if w[0] == '}' {
                Some((ValueModel::Dict(entries_put(acc, key, value)), w.drop_first()))
            } else {
                None
            }
        },
    }
}

/// The value that the JSON text `s` stands for: the text of one value, with
/// white space around it at most; `None` for any other text.
pub open spec fn parse_json(s: Seq<char>) -> Option<ValueModel> {
    match parse_value(s) {
        Some((value, rest)) => if skip_ws(rest).len() == 0 {
            Some(value)
        } else {
            None
        },
        None => None,
    }
}


/// The position behind the white space that begins at `pos`.
fn skip_ws_at(v: &Vec<char>, pos: usize) -> (r: usize)
    requires
        pos <= v.len(),
    ensures
        pos <= r <= v.len(),
        v@.skip(r as int) == skip_ws(v@.skip(pos as int)),
{
    let mut i = pos;
    while i < v.len() && (v[i] == ' ' || v[i] == '\n' || v[i] == '\r' || v[i] == '\t')
        invariant
            pos <= i <= v.len(),
            skip_ws(v@.skip(i as int)) == skip_ws(v@.skip(pos as int)),
        decreases v.len() - i,
    {
        assert(v@.skip(i as int).drop_first() =~= v@.skip(i + 1));
        i += 1;
    }
    i
}

fn hex_digit(c: char) -> (r: Option<u32>)
    ensures
        r == hex_value(c),
{
    match c {
        '0' => Some(0),
        '1' => Some(1),
        '2' => Some(2),
        '3' => Some(3),
        '4' => Some(4),
        '5' => Some(5),
        '6' => Some(6),
        '7' => Some(7),
        '8' => Some(8),
        '9' => Some(9),
        'a' | 'A' => Some(10),
        'b' | 'B' => Some(11),
        'c' | 'C' => Some(12),
        'd' | 'D' => Some(13),
        'e' | 'E' => Some(14),
        'f' | 'F' => Some(15),
        _ => None,
    }
}

/// The number that the four hexadecimal digits at `pos` stand for.
fn hex4_at(v: &Vec<char>, pos: usize) -> (r: Option<u32>)
    requires
        pos <= v.len(),
    ensures
        r == hex4(v@.skip(pos as int)),
        r is Some ==> pos + 4 <= v.len(),
        r matches Some(code) ==> code <= 0xFFFF,
{
    if v.len() - pos < 4 {
        return None;
    }
    let ghost s = v@.skip(pos as int);
    assert(s[0] == v@[pos as int] && s[1] == v@[pos + 1] && s[2] == v@[pos + 2] && s[3] == v@[pos
        + 3]);
    match (hex_digit(v[pos]), hex_digit(v[pos + 1]), hex_digit(v[pos + 2]), hex_digit(v[pos + 3])) {
        (Some(a), Some(b), Some(c), Some(d)) => Some(a * 4096 + b * 256 + c * 16 + d),
        _ => None,
    }
}

/// Reads the escape behind the backslash at `pos - 1`.
fn parse_escape_at(v: &Vec<char>, pos: usize) -> (r: Option<(char, usize)>)
    requires
        pos <= v.len(),
    ensures
        parse_escape(v@.skip(pos as int)) is None ==> r is None,
        parse_escape(v@.skip(pos as int)) matches Some(found) ==> (r matches Some(got) && got.0
            == found.0 && pos < got.1 <= v.len() && found.1 == v@.skip(got.1 as int)),
{
    let ghost s = v@.skip(pos as int);
    if pos >= v.len() {
        return None;
    }
    assert(s[0] == v@[pos as int]);
    assert(s.drop_first() =~= v@.skip(pos + 1));
    let c = v[pos];
    if c == '"' {
        Some(('"', pos + 1))
    } else if c == '\\' {
        Some(('\\', pos + 1))
    } else if c == '/' {
        Some(('/', pos + 1))
    } else if c == 'b' {
        Some(('\u{8}', pos + 1))
    } else if c == 'f' {
        Some(('\u{c}', pos + 1))
    } else if c == 'n' {
        Some(('\n', pos + 1))
    } else if c == 'r' {
        Some(('\r', pos + 1))
    } else if c == 't' {
        Some(('\t', pos + 1))
    } else if c == 'u' {
        assert(s.skip(1) =~= v@.skip(pos + 1));
        match hex4_at(v, pos + 1) {
            None => None,
            Some(code) => {
                assert(s.skip(5) =~= v@.skip(pos + 5));
                match std::char::from_u32(code) {
                    Some(ch) => Some((ch, pos + 5)),
                    None => {
                        if code < 0xDC00 && v.len() - pos >= 11 && v[pos + 5] == '\\' && v[pos + 6]
                            == 'u' {
                            assert(s[5] == v@[pos + 5] && s[6] == v@[pos + 6]);
                            assert(s.skip(7) =~= v@.skip(pos + 7));
                            assert(s.skip(11) =~= v@.skip(pos + 11));
                            match hex4_at(v, pos + 7) {
                                Some(low) => {
                                    if 0xDC00 <= low && low <= 0xDFFF {
                                        let joined: u32 = 0x10000 + (code - 0xD800) * 0x400 + (low
                                            - 0xDC00);
                                        match std::char::from_u32(joined) {
                                            Some(ch) => Some((ch, pos + 11)),
                                            None => None,
                                        }
                                    } else {
                                        None
                                    }
                                },
                                None => None,
                            }
                        } else {
                            assert(s.len() == v.len() - pos);
                            if v.len() - pos >= 7 {
                                assert(s[5] == v@[pos + 5] && s[6] == v@[pos + 6]);
                            }
                            None
                        }
                    },
                }
            },
        }
    } else {
        None
    }
}

/// Reads the string behind the quotation mark at `pos - 1`.
fn parse_string_at(v: &Vec<char>, pos: usize) -> (r: Option<(String, usize)>)
    requires
        pos <= v.len(),
    ensures
        parse_string_body(v@.skip(pos as int), Seq::empty()) is None ==> r is None,
        parse_string_body(v@.skip(pos as int), Seq::empty()) matches Some(found) ==> (
        r matches Some(got) && got.0@ == found.0 && pos < got.1 <= v.len() && found.1 == v@.skip(
            got.1 as int,
        )),
{
    let mut out = String::new();
    let mut i = pos;
    let ghost goal = parse_string_body(v@.skip(pos as int), Seq::empty());
    loop
        invariant
            pos <= i <= v.len(),
            goal == parse_string_body(v@.skip(pos as int), Seq::empty()),
            parse_string_body(v@.skip(i as int), out@) == goal,
        decreases v.len() - i,
    {
        let ghost s = v@.skip(i as int);
        if i >= v.len() {
            return None;
        }
        assert(s[0] == v@[i as int]);
        assert(s.drop_first() =~= v@.skip(i + 1));
        let c = v[i];
        if c == '"' {
            return Some((out, i + 1));
        } else if c == '\\' {
            match parse_escape_at(v, i + 1) {
                None => {
                    return None;
                },
                Some((ch, next)) => {
                    out.push(ch);
                    i = next;
                },
            }
        } else if ' ' > c {
            return None;
        } else {
            out.push(c);
            i += 1;
        }
    }
}

/// Reads the number that begins at `pos`.
fn parse_number_at(v: &Vec<char>, pos: usize) -> (r: Option<(Node, usize)>)
    requires
        pos <= v.len(),
    ensures
        parse_number(v@.skip(pos as int)) is None ==> r is None,
        parse_number(v@.skip(pos as int)) matches Some(found) ==> (r matches Some(got) && got.0@
            == found.0 && got.0.wf() && pos < got.1 <= v.len() && found.1 == v@.skip(got.1 as int)),
{
    let ghost s = v@.skip(pos as int);
    let span = match scan_number(v, pos) {
        None => {
            return None;
        },
        Some(span) => span,
    };
    let ghost shape = number_shape(s)->0;
    proof {
        lemma_shape_bounds(s);
        lemma_shape_of_token(s);
        assert(s.skip(shape.end) =~= v@.skip(span.end as int));
        assert forall|k: int| span.digits_from <= k < span.digits_to implies crate::number::is_digit(
            #[trigger] v@[k],
        ) by {
            assert(v@[k] == s[k - pos]);
        }
        assert(v@.subrange(span.digits_from as int, span.digits_to as int) =~= s.subrange(
            shape.digits_from,
            shape.digits_to,
        ));
    }
    if span.end == span.digits_to {
        match digits_to_u64(v, span.digits_from, span.digits_to) {
            Some(m) => {
                if span.digits_from == pos {
                    if m <= i64::MAX as u64 {
                        return Some((Node::Int(m as i64), span.end));
                    } else {
                        return Some((Node::UInt(m), span.end));
                    }
                } else if m <= 0x8000_0000_0000_0000 {
                    let n: i64 = if m == 0x8000_0000_0000_0000 {
                        i64::MIN
                    } else {
                        -(m as i64)
                    };
                    return Some((Node::Int(n), span.end));
                }
            },
            None => {},
        }
    }
    let mut text = String::new();
    let mut i = pos;
    while i < span.end
        invariant
            pos <= i <= span.end <= v.len(),
            text@ == v@.subrange(pos as int, i as int),
        decreases span.end - i,
    {
        text.push(v[i]);
        assert(text@ =~= v@.subrange(pos as int, i + 1));
        i += 1;
    }
    proof {
        assert(text@ =~= s.subrange(0, shape.end));
        let token = s.subrange(0, shape.end);
        assert(token.subrange(shape.digits_from, shape.digits_to) =~= s.subrange(
            shape.digits_from,
            shape.digits_to,
        ));
        assert(integral_value(token, shape) == integral_value(s, shape));
        assert(is_double_text(token));
    }
    Some((Node::Double(text), span.end))
}

fn is_word_at(v: &Vec<char>, pos: usize, word: &Vec<char>) -> (r: bool)
    requires
        pos <= v.len(),
    ensures
        r == starts_with(v@.skip(pos as int), word@),
{
    let ghost s = v@.skip(pos as int);
    if v.len() - pos < word.len() {
        return false;
    }
    let mut i: usize = 0;
    while i < word.len()
        invariant
            i <= word.len(),
            pos + word.len() <= v.len(),
            s == v@.skip(pos as int),
            forall|k: int| 0 <= k < i ==> v@[pos + k] == #[trigger] word@[k],
        decreases word.len() - i,
    {
        if v[pos + i] != word[i] {
            assert(s.subrange(0, word.len() as int)[i as int] != word@[i as int]);
            return false;
        }
        i += 1;
    }
    assert(s.subrange(0, word.len() as int) =~= word@);
    true
}

/// Reads the value that begins at `pos`, after white space.
#[verifier::loop_isolation(false)]
fn parse_value_at(v: &Vec<char>, pos: usize) -> (r: Option<(Node, usize)>)
    requires
        pos <= v.len(),
    ensures
        parse_value(v@.skip(pos as int)) is None ==> r is None,
        parse_value(v@.skip(pos as int)) matches Some(found) ==> (r matches Some(got) && got.0@
            == found.0 && got.0.wf() && pos < got.1 <= v.len() && found.1 == v@.skip(got.1 as int)),
    decreases v.len() - pos, 1nat,
{
    let start = skip_ws_at(v, pos);
    let ghost t = v@.skip(start as int);
    if start >= v.len() {
        return None;
    }
    assert(t[0] == v@[start as int]);
    assert(t.drop_first() =~= v@.skip(start + 1));
    let c = v[start];
    if c == '[' {
        parse_array_at(v, start + 1)
    } else if c == '{' {
        parse_object_at(v, start + 1)
    } else if c == '"' {
        match parse_string_at(v, start + 1) {
            Some((text, next)) => Some((Node::String(text), next)),
            None => None,
        }
    } else if is_word_at(v, start, &vec!['n', 'u', 'l', 'l']) {
        assert(t.skip(4) =~= v@.skip(start + 4));
        Some((Node::Null, start + 4))
    } else if is_word_at(v, start, &vec!['t', 'r', 'u', 'e']) {
        assert(t.skip(4) =~= v@.skip(start + 4));
        Some((Node::Bool(true), start + 4))
    } else if is_word_at(v, start, &vec!['f', 'a', 'l', 's', 'e']) {
        assert(t.skip(5) =~= v@.skip(start + 5));
        Some((Node::Bool(false), start + 5))
    } else {
        parse_number_at(v, start)
    }
}

/// Reads the array behind the bracket at `pos - 1`.
#[verifier::loop_isolation(false)]
fn parse_array_at(v: &Vec<char>, pos: usize) -> (r: Option<(Node, usize)>)
    requires
        pos <= v.len(),
        pos > 0,
    ensures
        parse_array(v@.skip(pos as int)) is None ==> r is None,
        parse_array(v@.skip(pos as int)) matches Some(found) ==> (r matches Some(got) && got.0@
            == found.0 && got.0.wf() && pos <= got.1 <= v.len() && found.1 == v@.skip(got.1 as int)),
    decreases v.len() - pos, 3nat,
{
    let start = skip_ws_at(v, pos);
    if start < v.len() && v[start] == ']' {
        assert(v@.skip(start as int).drop_first() =~= v@.skip(start + 1));
        let node = Node::Array(Vec::new());
        proof {
            lemma_container_view(node);
            assert(items_model(Seq::<Node>::empty()) =~= Seq::empty());
        }
        return Some((node, start + 1));
    }
    let mut items: Vec<Node> = Vec::new();
    let mut i = pos;
    let ghost goal = parse_array(v@.skip(pos as int));
    assert(items_model(items@) =~= Seq::empty());
    loop
        invariant
            pos <= i <= v.len(),
            parse_elements(v@.skip(i as int), items_model(items@)) == goal,
            forall|k: int| 0 <= k < items@.len() ==> (#[trigger] items@[k]).wf(),
        decreases v.len() - i,
    {
        match parse_value_at(v, i) {
            None => {
                return None;
            },
            Some((item, next)) => {
                let after = skip_ws_at(v, next);
                if after >= v.len() {
                    return None;
                }
                let ghost u = v@.skip(after as int);
                assert(u[0] == v@[after as int]);
                assert(u.drop_first() =~= v@.skip(after + 1));
                let ghost before = items_model(items@);
                let ghost model = item@;
                items.push(item);
                assert(items_model(items@) =~= before.push(model));
                let c = v[after];
                if c == ',' {
                    i = after + 1;
                } else if c == ']' {
                    let node = Node::Array(items);
                    proof {
                        lemma_container_view(node);
                        let all = items_model(items@);
                        assert forall|k: int| 0 <= k < all.len() implies #[trigger] all[k]
                            != ValueModel::Undefined && crate::fleece::model_wf(all[k]) by {
                            lemma_container_view(items@[k]);
                        }
                    }
                    return Some((node, after + 1));
                } else {
                    return None;
                }
            },
        }
    }
}

/// Reads the entry that begins at `pos`, after white space: its key, its value,
/// and the position behind the value and the white space that follows it.
fn parse_member_at(v: &Vec<char>, pos: usize) -> (r: Option<(String, Node, usize)>)
    requires
        pos <= v.len(),
        pos > 0,
    ensures
        parse_member(v@.skip(pos as int)) is None ==> r is None,
        parse_member(v@.skip(pos as int)) matches Some(found) ==> (r matches Some(got) && got.0@
            == found.0 && got.1@ == found.1 && got.1.wf() && pos < got.2 <= v.len() && found.2
            == v@.skip(got.2 as int)),
    decreases v.len() - pos, 2nat,
{
    let quote = skip_ws_at(v, pos);
    if quote >= v.len() {
        return None;
    }
    assert(v@.skip(quote as int)[0] == v@[quote as int]);
    assert(v@.skip(quote as int).drop_first() =~= v@.skip(quote + 1));
    if v[quote] != '"' {
        return None;
    }
    let (key, after_key) = match parse_string_at(v, quote + 1) {
        None => {
            return None;
        },
        Some(found) => found,
    };
    let colon = skip_ws_at(v, after_key);
    if colon >= v.len() {
        return None;
    }
    assert(v@.skip(colon as int)[0] == v@[colon as int]);
    assert(v@.skip(colon as int).drop_first() =~= v@.skip(colon + 1));
    if v[colon] != ':' {
        return None;
    }
    match parse_value_at(v, colon + 1) {
        None => None,
        Some((value, next)) => {
            let after = skip_ws_at(v, next);
            Some((key, value, after))
        },
    }
}

/// Reads the dictionary behind the brace at `pos - 1`.
#[verifier::loop_isolation(false)]
fn parse_object_at(v: &Vec<char>, pos: usize) -> (r: Option<(Node, usize)>)
    requires
        pos <= v.len(),
        pos > 0,
    ensures
        parse_object(v@.skip(pos as int)) is None ==> r is None,
        parse_object(v@.skip(pos as int)) matches Some(found) ==> (r matches Some(got) && got.0@
            == found.0 && got.0.wf() && pos <= got.1 <= v.len() && found.1 == v@.skip(got.1 as int)),
    decreases v.len() - pos, 4nat,
{
    let start = skip_ws_at(v, pos);
    let mut dict = MutableDict::new();
    proof {
        dict.lemma_view_is_dict();
    }
    if start < v.len() && v[start] == '}' {
        assert(v@.skip(start as int).drop_first() =~= v@.skip(start + 1));
        return Some((dict.into_node(), start + 1));
    }
    let mut i = pos;
    let ghost goal = parse_object(v@.skip(pos as int));
    loop
        invariant
            0 < pos <= i <= v.len(),
            dict.wf(),
            parse_members(v@.skip(i as int), dict.spec_entries()) == goal,
        decreases v.len() - i,
    {
        match parse_member_at(v, i) {
            None => {
                return None;
            },
            Some((key, value, after)) => {
                if after >= v.len() {
                    return None;
                }
                let ghost u = v@.skip(after as int);
                assert(u[0] == v@[after as int]);
                assert(u.drop_first() =~= v@.skip(after + 1));
                proof {
                    dict.lemma_view_is_dict();
                }
                dict.put_node(key, value);
                proof {
                    dict.lemma_view_is_dict();
                }
                let c = v[after];
                if c == ',' {
                    i = after + 1;
                } else if c == '}' {
                    return Some((dict.into_node(), after + 1));
                } else {
                    return None;
                }
            },
        }
    }
}

/// The error of a text that is no JSON.
pub open spec fn spec_json_error() -> Error {
    Error { code: ErrorCode::Fleece(FleeceError::JSONError), internal_info: None }
}

/// Reads JSON text: the tree of the value that it stands for. Fails with the
/// encoding's `JSONError` for a text that is not the JSON text of one value.
pub fn parse(json: &str) -> (r: Result<Node, Error>)
    ensures
        parse_json(json@) matches Some(m) ==> (r matches Ok(node) && node@ == m && node.wf()),
        parse_json(json@) is None ==> r == Err::<Node, Error>(spec_json_error()),
{
    let v = chars_of(json);
    assert(v@.skip(0) =~= v@);
    match parse_value_at(&v, 0) {
        None => Err(Error { code: ErrorCode::Fleece(FleeceError::JSONError), internal_info: None }),
        Some((node, next)) => {
            let end = skip_ws_at(&v, next);
            if end == v.len() {
                Ok(node)
            } else {
                Err(Error { code: ErrorCode::Fleece(FleeceError::JSONError), internal_info: None })
            }
        },
    }
}


/// A parsed document: it owns the tree of the value that a text stood for. The
/// handles that it hands out borrow from it.
#[derive(Debug)]
pub struct Fleece {
    pub(crate) root: Node,
}

impl View for Fleece {
    type V = ValueModel;

    closed spec fn view(&self) -> ValueModel {
        self.root@
    }
}

impl Fleece {
    /// The validity of the document: that of its value.
    pub open spec fn wf(&self) -> bool {
        crate::fleece::model_wf(self@)
    }

    /// Reads JSON text. Fails with the encoding's `JSONError` for a text that
    /// is not the JSON text of one value.
    pub fn parse_json(json: &str) -> (r: Result<Fleece, Error>)
        ensures
            parse_json(json@) matches Some(m) ==> (r matches Ok(doc) && doc@ == m && doc.wf()),
            parse_json(json@) is None ==> r == Err::<Fleece, Error>(spec_json_error()),
    {
        match parse(json) {
            Ok(root) => Ok(Fleece { root }),
            Err(e) => Err(e),
        }
    }

    /// The value of the document.
    pub fn root(&self) -> (v: Value<'_>)
        ensures
            v@ == self@,
    {
        Value::wrap(&self.root, self)
    }

    /// The value of the document as an array; the null array where it is none.
    pub fn as_array(&self) -> (r: Array<'_>)
        ensures
            self@ is Array ==> r@ == self@,
            !(self@ is Array) ==> r@ == ValueModel::Undefined,
    {
        self.root().as_array()
    }

    /// The value of the document as a dictionary; the null dictionary where it
    /// is none.
    pub fn as_dict(&self) -> (r: Dict<'_>)
        ensures
            self@ is Dict ==> r@ == self@,
            !(self@ is Dict) ==> r@ == ValueModel::Undefined,
    {
        self.root().as_dict()
    }
}

impl<'a> Value<'a> {
    /// The value as JSON text.
    pub fn to_json(&self) -> (r: String)
        ensures
            r@ == json_text(self@),
    {
        to_json(self)
    }
}

impl<'a> Array<'a> {
    /// The array as JSON text.
    pub fn to_json(&self) -> (r: String)
        ensures
            r@ == json_text(self@),
    {
        to_json(&self.as_value())
    }
}

impl<'a> Dict<'a> {
    /// The dictionary as JSON text.
    pub fn to_json(&self) -> (r: String)
        ensures
            r@ == json_text(self@),
    {
        to_json(&self.as_value())
    }
}

impl MutableArray {
    /// The array as JSON text.
    pub fn to_json(&self) -> (r: String)
        ensures
            r@ == json_text(self@),
    {
        self.as_array().to_json()
    }
}

impl MutableDict {
    /// The dictionary as JSON text.
    pub fn to_json(&self) -> (r: String)
        ensures
            r@ == json_text(self@),
    {
        self.as_dict().to_json()
    }
}

} // verus!
