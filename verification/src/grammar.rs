//! The grammar of JSON texts, as far as it says which value a text denotes.
//! It is the measure for what the renderer writes: a text that it writes
//! without styles is read back as the value that was displayed.

use vstd::prelude::*;

use crate::value::{Json, Member};

verus! {

/// Whether `c` is insignificant whitespace between the tokens of a JSON
/// text.
pub open spec fn is_ws(c: char) -> bool {
    c == ' ' || c == '\n' || c == '\t' || c == '\r'
}

/// `s` without its leading whitespace.
pub open spec fn skip_ws(s: Seq<char>) -> Seq<char>
    decreases s.len(),
{
    if s.len() > 0 && is_ws(s[0]) {
        skip_ws(s.drop_first())
    } else {
        s
    }
}

/// Whether `c` is a decimal digit.
pub open spec fn is_digit(c: char) -> bool {
    '0' <= c <= '9'
}

/// Whether `c` can stand in a number.
pub open spec fn is_number_char(c: char) -> bool {
    is_digit(c) || c == '-' || c == '+' || c == '.' || c == 'e' || c == 'E'
}

/// The number of characters at the start of `s` that can stand in a number.
pub open spec fn number_run(s: Seq<char>) -> nat
    decreases s.len(),
{
    if s.len() > 0 && is_number_char(s[0]) {
        1 + number_run(s.drop_first())
    } else {
        0
    }
}

/// The number of digits at the start of `s`.
pub open spec fn digit_run(s: Seq<char>) -> nat
    decreases s.len(),
{
    if s.len() > 0 && is_digit(s[0]) {
        1 + digit_run(s.drop_first())
    } else {
        0
    }
}

/// Whether `s` is an exponent or nothing: `e` or `E`, an optional sign and
/// at least one digit.
pub open spec fn is_exponent_or_empty(s: Seq<char>) -> bool {
    s.len() == 0 || {
        let digits = if s.len() > 1 && (s[1] == '+' || s[1] == '-') {
            s.skip(2)
        } else {
            s.skip(1)
        };
        (s[0] == 'e' || s[0] == 'E') && digits.len() > 0 && digit_run(digits) == digits.len()
    }
}

/// Whether `s` is a fraction and an exponent, each of which may be absent:
/// the fraction a point and at least one digit.
pub open spec fn is_fraction_and_exponent(s: Seq<char>) -> bool {
    if s.len() > 0 && s[0] == '.' {
        let d = digit_run(s.drop_first());
        d > 0 && is_exponent_or_empty(s.skip(1 + d as int))
    } else {
        is_exponent_or_empty(s)
    }
}

/// Whether `text` is a JSON number: an optional minus, an integer part
/// without leading zeros, an optional fraction and an optional exponent.
pub open spec fn is_json_number(text: Seq<char>) -> bool {
    let unsigned = if text.len() > 0 && text[0] == '-' {
        text.drop_first()
    } else {
        text
    };
    &&& forall|i: int| 0 <= i < text.len() ==> is_number_char(#[trigger] text[i])
    &&& unsigned.len() > 0
    &&& is_digit(unsigned[0])
    &&& if unsigned[0] == '0' {
        is_fraction_and_exponent(unsigned.drop_first())
    } else {
        is_fraction_and_exponent(unsigned.skip(digit_run(unsigned) as int))
    }
}

/// Whether `c` is a control character, which no string holds unescaped.
pub open spec fn is_control(c: char) -> bool {
    ' ' > c
}

/// The value of a hexadecimal digit.
pub open spec fn hex_value(c: char) -> Option<u32> {
    if '0' <= c <= '9' {
        Some((c as u32 - '0' as u32) as u32)
    } else if 'a' <= c <= 'f' {
        Some((c as u32 - 'a' as u32 + 10) as u32)
    } else if 'A' <= c <= 'F' {
        Some((c as u32 - 'A' as u32 + 10) as u32)
    } else {
        None
    }
}

/// The number that the first four characters of `s` write in hexadecimal.
pub open spec fn hex4(s: Seq<char>) -> Option<u32> {
    if s.len() < 4 {
        None
    } else {
        match (hex_value(s[0]), hex_value(s[1]), hex_value(s[2]), hex_value(s[3])) {
            (Some(a), Some(b), Some(c), Some(d)) => Some((a * 4096 + b * 256 + c * 16 + d) as u32),
            _ => None,
        }
    }
}

/// The character that the escape at the start of `s` denotes, `s` being
/// what follows a backslash, and the number of characters of the escape.
pub open spec fn escape(s: Seq<char>) -> Option<(char, nat)> {
    if s.len() == 0 {
        None
    } else if s[0] == '"' || s[0] == '\\' || s[0] == '/' {
        Some((s[0], 1))
    } else if s[0] == 'b' {
        Some(('\u{8}', 1))
    } else if s[0] == 'f' {
        Some(('\u{c}', 1))
    } else if s[0] == 'n' {
        Some(('\n', 1))
    } else if s[0] == 'r' {
        Some(('\r', 1))
    } else if s[0] == 't' {
        Some(('\t', 1))
    } else if s[0] == 'u' {
        match hex4(s.skip(1)) {
            Some(hi) => if 0xd800 <= hi < 0xdc00 {
                if s.len() >= 7 && s[5] == '\\' && s[6] == 'u' {
                    match hex4(s.skip(7)) {
                        Some(lo) => if 0xdc00 <= lo < 0xe000 {
                            Some(
                                (
                                    (0x10000 + (hi - 0xd800) * 0x400 + (lo - 0xdc00)) as u32 as char,
                                    11,
                                ),
                            )
                        } else {
                            None
                        },
                        None => None,
                    }
                } else {
                    None
                }
            } else if 0xdc00 <= hi < 0xe000 {
                None
            } else {
                Some((hi as char, 5))
            },
            None => None,
        }
    } else {
        None
    }
}

/// The string whose text starts `s`, `s` being what follows the opening
/// quote, and what follows the closing quote.
pub open spec fn parse_string_tail(s: Seq<char>) -> Option<(Seq<char>, Seq<char>)>
    decreases s.len(),
{
    if s.len() == 0 {
        None
    } else if s[0] == '"' {
        Some((Seq::empty(), s.drop_first()))
    } else if s[0] == '\\' {
        match escape(s.drop_first()) {
            Some((c, n)) => if 1 + n <= s.len() {
                match parse_string_tail(s.skip(1 + n as int)) {
                    Some((text, rest)) => Some((seq![c] + text, rest)),
                    None => None,
                }
            } else {
                None
            },
            None => None,
        }
    } else if is_control(s[0]) {
        None
    } else {
        match parse_string_tail(s.drop_first()) {
            Some((text, rest)) => Some((seq![s[0]] + text, rest)),
            None => None,
        }
    }
}

/// Whether `s` starts with `word`.
pub open spec fn starts_with(s: Seq<char>, word: Seq<char>) -> bool {
    s.len() >= word.len() && s.take(word.len() as int) == word
}

/// The value whose text starts `s`, after whitespace, and what follows it.
pub open spec fn parse_value(s: Seq<char>) -> Option<(Json, Seq<char>)>
    decreases s.len(), 0nat,
{
    let r = skip_ws(s);
    if r.len() == 0 || r.len() > s.len() {
        None
    } else if starts_with(r, seq!['n', 'u', 'l', 'l']) {
        Some((Json::Null, r.skip(4)))
    } else if starts_with(r, seq!['t', 'r', 'u', 'e']) {
        Some((Json::Bool(true), r.skip(4)))
    } else if starts_with(r, seq!['f', 'a', 'l', 's', 'e']) {
        Some((Json::Bool(false), r.skip(5)))
    } else if r[0] == '"' {
        match parse_string_tail(r.drop_first()) {
            Some((text, rest)) => Some((Json::String(text), rest)),
            None => None,
        }
    } else if r[0] == '[' {
        let inner = skip_ws(r.drop_first());
        if inner.len() > 0 && inner[0] == ']' {
            Some((Json::Array(Seq::empty()), inner.drop_first()))
        } else if inner.len() < r.len() {
            match parse_items(inner) {
                Some((items, rest)) => Some((Json::Array(items), rest)),
                None => None,
            }
        } else {
            None
        }
    } else if r[0] == '{' {
        let inner = skip_ws(r.drop_first());
        if inner.len() > 0 && inner[0] == '}' {
            Some((Json::Object(Seq::empty()), inner.drop_first()))
        } else if inner.len() < r.len() {
            match parse_members(inner) {
                Some((members, rest)) => Some((Json::Object(members), rest)),
                None => None,
            }
        } else {
            None
        }
    } else {
        let token = r.take(number_run(r) as int);
        if is_json_number(token) {
            Some((Json::Number(token), r.skip(number_run(r) as int)))
        } else {
            None
        }
    }
}

/// The items whose texts start `s`, separated by commas, up to the closing
/// bracket, and what follows the bracket.
pub open spec fn parse_items(s: Seq<char>) -> Option<(Seq<Json>, Seq<char>)>
    decreases s.len(), 1nat,
{
    match parse_value(s) {
        Some((item, after)) => {
            let r = skip_ws(after);
            if r.len() == 0 {
                None
            } else if r[0] == ']' {
                Some((seq![item], r.drop_first()))
            } else if r[0] == ',' && r.len() <= s.len() {
                match parse_items(r.drop_first()) {
                    Some((items, rest)) => Some((seq![item] + items, rest)),
                    None => None,
                }
            } else {
                None
            }
        },
        None => None,
    }
}

/// The members whose texts start `s`, separated by commas, up to the
/// closing brace, and what follows the brace. A member is a string, a colon
/// and a value.
pub open spec fn parse_members(s: Seq<char>) -> Option<(Seq<Member>, Seq<char>)>
    decreases s.len(), 1nat,
{
    let k = skip_ws(s);
    if k.len() == 0 || k.len() > s.len() || k[0] != '"' {
        None
    } else {
        match parse_string_tail(k.drop_first()) {
            Some((key, after_key)) => {
                let c = skip_ws(after_key);
                if c.len() == 0 || c[0] != ':' || c.len() > s.len() {
                    None
                } else {
                    match parse_value(c.drop_first()) {
                        Some((value, after)) => {
                            let r = skip_ws(after);
                            if r.len() == 0 {
                                None
                            } else if r[0] == '}' {
                                Some((seq![Member { key, value }], r.drop_first()))
                            } else if r[0] == ',' && r.len() <= s.len() {
                                match parse_members(r.drop_first()) {
                                    Some((members, rest)) => Some(
                                        (seq![Member { key, value }] + members, rest),
                                    ),
                                    None => None,
                                }
                            } else {
                                None
                            }
                        },
                        None => None,
                    }
                }
            },
            None => None,
        }
    }
}

/// The value that a JSON text denotes: the text is one value between
/// whitespace.
pub open spec fn parse_document(s: Seq<char>) -> Option<Json> {
    match parse_value(s) {
        Some((v, rest)) => if skip_ws(rest).len() == 0 {
            Some(v)
        } else {
            None
        },
        None => None,
    }
}

} // verus!
