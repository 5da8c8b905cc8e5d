//! Base 64: reading back the bytes that were written as text.

use crate::json::{base64_char, base64_text, sextet_0, sextet_1, sextet_2, sextet_3};
use crate::text::chars_of;
use vstd::prelude::*;

verus! {

/// The six bits that a character of base 64 stands for; `None` for a character
/// that is none of the 64.
pub open spec fn base64_value(c: char) -> Option<u8> {
    if c == 'A' {
        Some(0u8)
    } else if c == 'B' {
        Some(1u8)
    } else if c == 'C' {
        Some(2u8)
    } else if c == 'D' {
        Some(3u8)
    } else if c == 'E' {
        Some(4u8)
    } else if c == 'F' {
        Some(5u8)
    } else if c == 'G' {
        Some(6u8)
    } else if c == 'H' {
        Some(7u8)
    } else if c == 'I' {
        Some(8u8)
    } else if c == 'J' {
        Some(9u8)
    } else if c == 'K' {
        Some(10u8)
    } else if c == 'L' {
        Some(11u8)
    } else if c == 'M' {
        Some(12u8)
    } else if c == 'N' {
        Some(13u8)
    } else if c == 'O' {
        Some(14u8)
    } else if c == 'P' {
        Some(15u8)
    } else if c == 'Q' {
        Some(16u8)
    } else if c == 'R' {
        Some(17u8)
    } else if c == 'S' {
        Some(18u8)
    } else if c == 'T' {
        Some(19u8)
    } else if c == 'U' {
        Some(20u8)
    } else if c == 'V' {
        Some(21u8)
    } else if c == 'W' {
        Some(22u8)
    } else if c == 'X' {
        Some(23u8)
    } else if c == 'Y' {
        Some(24u8)
    } else if c == 'Z' {
        Some(25u8)
    } else if c == 'a' {
        Some(26u8)
    } else if c == 'b' {
        Some(27u8)
    } else if c == 'c' {
        Some(28u8)
    } else if c == 'd' {
        Some(29u8)
    } else if c == 'e' {
        Some(30u8)
    } else if c == 'f' {
        Some(31u8)
    } else if c == 'g' {
        Some(32u8)
    } else if c == 'h' {
        Some(33u8)
    } else if c == 'i' {
        Some(34u8)
    } else if c == 'j' {
        Some(35u8)
    } else if c == 'k' {
        Some(36u8)
    } else if c == 'l' {
        Some(37u8)
    } else if c == 'm' {
        Some(38u8)
    } else if c == 'n' {
        Some(39u8)
    } else if c == 'o' {
        Some(40u8)
    } else if c == 'p' {
        Some(41u8)
    } else if c == 'q' {
        Some(42u8)
    } else if c == 'r' {
        Some(43u8)
    } else if c == 's' {
        Some(44u8)
    } else if c == 't' {
        Some(45u8)
    } else if c == 'u' {
        Some(46u8)
    } else if c == 'v' {
        Some(47u8)
    } else if c == 'w' {
        Some(48u8)
    } else if c == 'x' {
        Some(49u8)
    } else if c == 'y' {
        Some(50u8)
    } else if c == 'z' {
        Some(51u8)
    } else if c == '0' {
        Some(52u8)
    } else if c == '1' {
        Some(53u8)
    } else if c == '2' {
        Some(54u8)
    } else if c == '3' {
        Some(55u8)
    } else if c == '4' {
        Some(56u8)
    } else if c == '5' {
        Some(57u8)
    } else if c == '6' {
        Some(58u8)
    } else if c == '7' {
        Some(59u8)
    } else if c == '8' {
        Some(60u8)
    } else if c == '9' {
        Some(61u8)
    } else if c == '+' {
        Some(62u8)
    } else if c == '/' {
        Some(63u8)
    } else {
        None
    }
}

fn base64_value_of(c: char) -> (r: Option<u8>)
    ensures
        r == base64_value(c),
        r matches Some(v) ==> v < 64,
{
    match c {
        'A' => Some(0),
        'B' => Some(1),
        'C' => Some(2),
        'D' => Some(3),
        'E' => Some(4),
        'F' => Some(5),
        'G' => Some(6),
        'H' => Some(7),
        'I' => Some(8),
        'J' => Some(9),
        'K' => Some(10),
        'L' => Some(11),
        'M' => Some(12),
        'N' => Some(13),
        'O' => Some(14),
        'P' => Some(15),
        'Q' => Some(16),
        'R' => Some(17),
        'S' => Some(18),
        'T' => Some(19),
        'U' => Some(20),
        'V' => Some(21),
        'W' => Some(22),
        'X' => Some(23),
        'Y' => Some(24),
        'Z' => Some(25),
        'a' => Some(26),
        'b' => Some(27),
        'c' => Some(28),
        'd' => Some(29),
        'e' => Some(30),
        'f' => Some(31),
        'g' => Some(32),
        'h' => Some(33),
        'i' => Some(34),
        'j' => Some(35),
        'k' => Some(36),
        'l' => Some(37),
        'm' => Some(38),
        'n' => Some(39),
        'o' => Some(40),
        'p' => Some(41),
        'q' => Some(42),
        'r' => Some(43),
        's' => Some(44),
        't' => Some(45),
        'u' => Some(46),
        'v' => Some(47),
        'w' => Some(48),
        'x' => Some(49),
        'y' => Some(50),
        'z' => Some(51),
        '0' => Some(52),
        '1' => Some(53),
        '2' => Some(54),
        '3' => Some(55),
        '4' => Some(56),
        '5' => Some(57),
        '6' => Some(58),
        '7' => Some(59),
        '8' => Some(60),
        '9' => Some(61),
        '+' => Some(62),
        '/' => Some(63),
        _ => None,
    }
}

/// Each of the 64 characters stands for the six bits that it is written for,
/// and none of them is the padding character.
pub proof fn lemma_base64_char_value(i: u8)
    requires
        i < 64,
    ensures
        base64_value(base64_char(i)) == Some(i),
        base64_char(i) != '=',
{
}
/// The first of the three bytes that four characters stand for.
pub open spec fn octet_0(w: u8, x: u8) -> u8 {
    (w << 2) | (x >> 4)
}

/// The second of the three bytes.
pub open spec fn octet_1(x: u8, y: u8) -> u8 {
    ((x & 15) << 4) | (y >> 2)
}

/// The third of the three bytes.
pub open spec fn octet_2(y: u8, z: u8) -> u8 {
    ((y & 3) << 6) | z
}

/// The bytes that a text in base 64 stands for; `None` for a text that is none:
/// its length is no multiple of four, it holds a character that is none of the
/// 64, padding stands elsewhere than at the end, or the bits that the padding
/// leaves unused are not zero.
pub open spec fn base64_bytes(s: Seq<char>) -> Option<Seq<u8>>
    decreases s.len(),
{
    if s.len() == 0 {
        Some(Seq::empty())
    } else if s.len() < 4 {
        None
    } else if s.len() == 4 && s[3] == '=' && s[2] == '=' {
        match (base64_value(s[0]), base64_value(s[1])) {
            (Some(w), Some(x)) => if x & 15 == 0 {
                Some(seq![octet_0(w, x)])
            } else {
                None
            },
            _ => None,
        }
    } else if s.len() == 4 && s[3] == '=' {
        match (base64_value(s[0]), base64_value(s[1]), base64_value(s[2])) {
            (Some(w), Some(x), Some(y)) => if y & 3 == 0 {
                Some(seq![octet_0(w, x), octet_1(x, y)])
            } else {
                None
            },
            _ => None,
        }
    } else {
        match (
            base64_value(s[0]),
            base64_value(s[1]),
            base64_value(s[2]),
            base64_value(s[3]),
            base64_bytes(s.skip(4)),
        ) {
            (Some(w), Some(x), Some(y), Some(z), Some(rest)) => Some(
                seq![octet_0(w, x), octet_1(x, y), octet_2(y, z)] + rest,
            ),
            _ => None,
        }
    }
}

/// The bits of three bytes come back from the four characters that they were
/// written as.
proof fn lemma_group(a: u8, b: u8, c: u8)
    ensures
        sextet_0(a) < 64,
        sextet_1(a, b) < 64,
        sextet_2(b, c) < 64,
        sextet_3(c) < 64,
        octet_0(sextet_0(a), sextet_1(a, b)) == a,
        octet_1(sextet_1(a, b), sextet_2(b, c)) == b,
        octet_2(sextet_2(b, c), sextet_3(c)) == c,
        sextet_1(a, 0) & 15 == 0,
        sextet_2(b, 0) & 3 == 0,
{
    assert((a >> 2) < 64) by (bit_vector);
    assert((((a & 3) << 4) | (b >> 4)) < 64) by (bit_vector);
    assert((((b & 15) << 2) | (c >> 6)) < 64) by (bit_vector);
    assert((c & 63) < 64) by (bit_vector);
    assert((((a >> 2) << 2) | ((((a & 3) << 4) | (b >> 4)) >> 4)) == a) by (bit_vector);
    assert((((((a & 3) << 4) | (b >> 4)) & 15) << 4) | ((((b & 15) << 2) | (c >> 6)) >> 2) == b)
        by (bit_vector);
    assert((((((b & 15) << 2) | (c >> 6)) & 3) << 6) | (c & 63) == c) by (bit_vector);
    assert((((a & 3) << 4) | (0u8 >> 4)) & 15 == 0) by (bit_vector);
    assert((((b & 15) << 2) | (0u8 >> 6)) & 3 == 0) by (bit_vector);
}

/// Reading what was written gives the bytes back.
pub proof fn lemma_base64_round_trip(d: Seq<u8>)
    ensures
        base64_bytes(base64_text(d)) == Some(d),
    decreases d.len(),
{
    let t = base64_text(d);
    if d.len() == 0 {
    } else if d.len() == 1 {
        lemma_group(d[0], 0, 0);
        lemma_base64_char_value(sextet_0(d[0]));
        lemma_base64_char_value(sextet_1(d[0], 0));
        assert(t.len() == 4);
        assert(octet_0(sextet_0(d[0]), sextet_1(d[0], 0)) == d[0]);
        assert(seq![d[0]] =~= d);
    } else if d.len() == 2 {
        lemma_group(d[0], d[1], 0);
        lemma_base64_char_value(sextet_0(d[0]));
        lemma_base64_char_value(sextet_1(d[0], d[1]));
        lemma_base64_char_value(sextet_2(d[1], 0));
        assert(t.len() == 4);
        assert(seq![d[0], d[1]] =~= d);
    } else {
        lemma_group(d[0], d[1], d[2]);
        lemma_base64_char_value(sextet_0(d[0]));
        lemma_base64_char_value(sextet_1(d[0], d[1]));
        lemma_base64_char_value(sextet_2(d[1], d[2]));
        lemma_base64_char_value(sextet_3(d[2]));
        lemma_base64_round_trip(d.skip(3));
        let rest = base64_text(d.skip(3));
        assert(t.skip(4) =~= rest);
        assert(t[0] == base64_char(sextet_0(d[0])));
        assert(t[1] == base64_char(sextet_1(d[0], d[1])));
        assert(t[2] == base64_char(sextet_2(d[1], d[2])));
        assert(t[3] == base64_char(sextet_3(d[2])));
        assert(seq![d[0], d[1], d[2]] + d.skip(3) =~= d);
    }
}

/// Reads a text in base 64; see `base64_bytes`.
pub fn decode_base64(text: &str) -> (r: Option<Vec<u8>>)
    ensures
        base64_bytes(text@) is None ==> r is None,
        base64_bytes(text@) matches Some(d) ==> (r matches Some(v) && v@ == d),
{
    let s = chars_of(text);
    let n = s.len();
    if n % 4 != 0 {
        proof {
            lemma_length_is_multiple(s@);
        }
        return None;
    }
    let mut out: Vec<u8> = Vec::new();
    let mut i: usize = 0;
    assert(s@.skip(0) =~= s@);
    while i < n
        invariant
            i <= n,
            n == s.len(),
            s@ == text@,
            (n - i) % 4 == 0,
            base64_bytes(s@) == (match base64_bytes(s@.skip(i as int)) {
                Some(rest) => Some(out@ + rest),
                None => None,
            }),
        decreases n - i,
    {
        let ghost t = s@.skip(i as int);
        assert(t[0] == s@[i as int] && t[1] == s@[i + 1] && t[2] == s@[i + 2] && t[3] == s@[i + 3]);
        assert(t.skip(4) =~= s@.skip(i + 4));
        let last = n - i == 4;
        let w = match base64_value_of(s[i]) {
            Some(v) => v,
            None => {
                return None;
            },
        };
        let x = match base64_value_of(s[i + 1]) {
            Some(v) => v,
            None => {
                return None;
            },
        };
        let ghost before = out@;
        if last && s[i + 3] == '=' && s[i + 2] == '=' {
            if x & 15 != 0 {
                return None;
            }
            out.push((w << 2) | (x >> 4));
            assert(out@ =~= before + seq![octet_0(w, x)]);
            assert(s@.skip(n as int) =~= Seq::empty());
            return Some(out);
        }
        let y = match base64_value_of(s[i + 2]) {
            Some(v) => v,
            None => {
                return None;
            },
        };
        if last && s[i + 3] == '=' {
            if y & 3 != 0 {
                return None;
            }
            out.push((w << 2) | (x >> 4));
            out.push(((x & 15) << 4) | (y >> 2));
            assert(out@ =~= before + seq![octet_0(w, x), octet_1(x, y)]);
            return Some(out);
        }
        let z = match base64_value_of(s[i + 3]) {
            Some(v) => v,
            None => {
                return None;
            },
        };
        out.push((w << 2) | (x >> 4));
        out.push(((x & 15) << 4) | (y >> 2));
        out.push(((y & 3) << 6) | z);
        proof {
            let group = seq![octet_0(w, x), octet_1(x, y), octet_2(y, z)];
            assert(out@ =~= before + group);
            match base64_bytes(t.skip(4)) {
                Some(rest) => {
                    assert(out@ + rest =~= before + (group + rest));
                },
                None => {},
            }
        }
        i += 4;
    }
    assert(s@.skip(n as int) =~= Seq::empty());
    assert(out@ + Seq::<u8>::empty() =~= out@);
    Some(out)
}

/// A text in base 64 has a length that is a multiple of four.
proof fn lemma_length_is_multiple(s: Seq<char>)
    requires
        s.len() % 4 != 0,
    ensures
        base64_bytes(s) is None,
    decreases s.len(),
{
    if s.len() >= 4 {
        lemma_length_is_multiple(s.skip(4));
    }
}

} // verus!
