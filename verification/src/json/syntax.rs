//! The JSON grammar as functions on text: what a text denotes.
//!
//! A result of reading is the value with the number of characters left
//! after it; a failure is a fault with the number of characters left where
//! it was met.

use crate::error::{prepend, Failure, ParseFault};
use crate::number::{number_len, number_of};
use crate::text::{lemma_space_len, starts_with, tail, trim_start};
use crate::value::{put_all, ValueView};
use vstd::prelude::*;

verus! {

/// How deep arrays and objects may be nested in a text that is read.
pub const MAX_NESTING: usize = 128;

/// The value of a hexadecimal digit.
pub open spec fn hex_value(c: char) -> Option<nat> {
    if '0' <= c <= '9' {
        Some((c as int - '0' as int) as nat)
    } else if 'a' <= c <= 'f' {
        Some((c as int - 'a' as int + 10) as nat)
    } else if 'A' <= c <= 'F' {
        Some((c as int - 'A' as int + 10) as nat)
    } else {
        None
    }
}

/// The number that the first four characters denote in hexadecimal.
pub open spec fn hex4(s: Seq<char>) -> Option<nat> {
    if s.len() < 4 {
        None
    } else {
        match (hex_value(s[0]), hex_value(s[1]), hex_value(s[2]), hex_value(s[3])) {
            (Some(a), Some(b), Some(c), Some(d)) => Some(((a * 16 + b) * 16 + c) * 16 + d),
            _ => None,
        }
    }
}

/// Reads what follows `\u`: the character that the escape stands for, and
/// how many characters it takes after the `u`. A character beyond the basic
/// plane is written as two escapes, a pair of surrogates.
#[verifier::opaque]
pub open spec fn parse_unicode(s: Seq<char>) -> Result<(char, nat), ParseFault> {
    match hex4(s) {
        None => Err(ParseFault::InvalidEscape),
        Some(unit) => {
            if 0xD800 <= unit <= 0xDBFF {
                if s.len() >= 10 && s[4] == '\\' && s[5] == 'u' {
                    match hex4(s.skip(6)) {
                        None => Err(ParseFault::InvalidEscape),
                        Some(low) => if 0xDC00 <= low <= 0xDFFF {
                            Ok(((0x10000 + (unit - 0xD800) * 0x400 + (low - 0xDC00)) as char, 10))
                        } else {
                            Err(ParseFault::InvalidEscape)
                        },
                    }
                } else {
                    Err(ParseFault::InvalidEscape)
                }
            } else if 0xDC00 <= unit <= 0xDFFF {
                Err(ParseFault::InvalidEscape)
            } else {
                Ok((unit as char, 4))
            }
        },
    }
}

/// Reads what follows a backslash: the character that the escape stands
/// for, and how many characters the escape takes after the backslash.
#[verifier::opaque]
pub open spec fn parse_escape(s: Seq<char>) -> Result<(char, nat), ParseFault> {
    if s.len() == 0 {
        Err(ParseFault::UnterminatedString)
    } else if s[0] == '"' {
        Ok(('"', 1))
    } else if s[0] == '\\' {
        Ok(('\\', 1))
    } else if s[0] == '/' {
        Ok(('/', 1))
    } else if s[0] == 'b' {
        Ok(('\u{8}', 1))
    } else if s[0] == 'f' {
        Ok(('\u{c}', 1))
    } else if s[0] == 'n' {
        Ok(('\n', 1))
    } else if s[0] == 'r' {
        Ok(('\r', 1))
    } else if s[0] == 't' {
        Ok(('\t', 1))
    } else if s[0] == 'u' {
        match parse_unicode(s.skip(1)) {
            Err(fault) => Err(fault),
            Ok((c, n)) => Ok((c, n + 1)),
        }
    } else {
        Err(ParseFault::InvalidEscape)
    }
}

/// Reads one character of a string that is no closing quote: the
/// character, and how many characters of the text stand for it.
#[verifier::opaque]
pub open spec fn parse_piece(s: Seq<char>) -> Result<(char, nat), ParseFault> {
    if s[0] == '\\' {
        match parse_escape(s.skip(1)) {
            Err(fault) => Err(fault),
            Ok((c, n)) => Ok((c, n + 1)),
        }
    } else if (s[0] as u32) < 0x20 {
        Err(ParseFault::ControlCharacter)
    } else {
        Ok((s[0], 1))
    }
}

/// What stands for one character is at least one character long, and
/// no longer than the text.
pub proof fn lemma_piece_len(s: Seq<char>)
    requires
        s.len() > 0,
    ensures
        parse_piece(s) matches Ok((_, n)) ==> 1 <= n <= s.len(),
{
    reveal(parse_piece);
    reveal(parse_escape);
    reveal(parse_unicode);
}

/// Reads a string from behind its opening quote to its closing quote.
#[verifier::opaque]
pub open spec fn parse_string(s: Seq<char>) -> Result<(Seq<char>, nat), Failure>
    decreases s.len(),
{
    if s.len() == 0 {
        Err((ParseFault::UnterminatedString, 0))
    } else if s[0] == '"' {
        Ok((Seq::empty(), (s.len() - 1) as nat))
    } else {
        match parse_piece(s) {
            Err(fault) => Err((fault, s.len())),
            Ok((c, n)) => {
                proof {
                    lemma_piece_len(s);
                }
                prepend(seq![c], parse_string(s.skip(n as int)))
            },
        }
    }
}

/// Reads one of the words `null`, `true` and `false`.
pub open spec fn parse_word(t: Seq<char>, word: Seq<char>, value: ValueView) -> Result<
    (ValueView, nat),
    Failure,
> {
    if starts_with(t, word) {
        Ok((value, (t.len() - word.len()) as nat))
    } else {
        Err((ParseFault::InvalidLiteral, t.len()))
    }
}

/// Reads a number.
pub open spec fn parse_number(t: Seq<char>) -> Result<(ValueView, nat), Failure> {
    match number_len(t) {
        Some(n) => Ok((ValueView::Number(number_of(t.take(n as int))), (t.len() - n) as nat)),
        None => Err((ParseFault::InvalidNumber, t.len())),
    }
}

/// A string as a value.
pub open spec fn string_result(r: Result<(Seq<char>, nat), Failure>) -> Result<
    (ValueView, nat),
    Failure,
> {
    match r {
        Ok((text, left)) => Ok((ValueView::String(text), left)),
        Err(e) => Err(e),
    }
}

/// A list of items as an array.
pub open spec fn array_result(r: Result<(Seq<ValueView>, nat), Failure>) -> Result<
    (ValueView, nat),
    Failure,
> {
    match r {
        Ok((items, left)) => Ok((ValueView::Array(items), left)),
        Err(e) => Err(e),
    }
}

/// A list of members as an object: where a key comes twice, the last
/// value wins and stands at the place of the first.
pub open spec fn object_result(r: Result<(Seq<(Seq<char>, ValueView)>, nat), Failure>) -> Result<
    (ValueView, nat),
    Failure,
> {
    match r {
        Ok((members, left)) => Ok(
            (ValueView::Object(put_all(Seq::empty(), members, members.len())), left),
        ),
        Err(e) => Err(e),
    }
}

/// Reads a value, with whitespace before it. `budget` is the number of
/// arrays and objects that may still be opened inside one another.
#[verifier::opaque]
pub open spec fn parse_value(s: Seq<char>, budget: nat) -> Result<(ValueView, nat), Failure>
    decreases s.len(), 0nat,
{
    let t = trim_start(s);
    if t.len() == 0 {
        Err((ParseFault::UnexpectedEnd, 0))
    } else if t[0] == 'n' {
        parse_word(t, "null"@, ValueView::Null)
    } else if t[0] == 't' {
        parse_word(t, "true"@, ValueView::Bool(true))
    } else if t[0] == 'f' {
        parse_word(t, "false"@, ValueView::Bool(false))
    } else if t[0] == '"' {
        string_result(parse_string(t.skip(1)))
    } else if t[0] == '[' || t[0] == '{' {
        if budget == 0 {
            Err((ParseFault::TooDeep, t.len()))
        } else {
            proof {
                lemma_space_len(s);
            }
            if t[0] == '[' {
                parse_array(t.skip(1), (budget - 1) as nat)
            } else {
                parse_object(t.skip(1), (budget - 1) as nat)
            }
        }
    } else if t[0] == '-' || ('0' <= t[0] <= '9') {
        parse_number(t)
    } else {
        Err((ParseFault::UnexpectedChar, t.len()))
    }
}

/// Reads an array from behind its opening bracket.
#[verifier::opaque]
pub open spec fn parse_array(s: Seq<char>, budget: nat) -> Result<(ValueView, nat), Failure>
    decreases s.len(), 3nat,
{
    let t = trim_start(s);
    if t.len() > 0 && t[0] == ']' {
        Ok((ValueView::Array(Seq::empty()), (t.len() - 1) as nat))
    } else {
        array_result(parse_items(s, budget))
    }
}

/// Reads the items of an array that is not empty, to its closing bracket.
#[verifier::opaque]
pub open spec fn parse_items(s: Seq<char>, budget: nat) -> Result<(Seq<ValueView>, nat), Failure>
    decreases s.len(), 1nat,
{
    match parse_value(s, budget) {
        Err(e) => Err(e),
        Ok((item, left)) => {
            let t = trim_start(tail(s, left));
            if t.len() == 0 {
                Err((ParseFault::UnexpectedEnd, 0))
            } else if t[0] == ']' {
                Ok((seq![item], (t.len() - 1) as nat))
            } else if t[0] == ',' {
                proof {
                    lemma_space_len(tail(s, left));
                }
                prepend(seq![item], parse_items(t.skip(1), budget))
            } else {
                Err((ParseFault::UnexpectedChar, t.len()))
            }
        },
    }
}

/// Reads an object from behind its opening brace.
#[verifier::opaque]
pub open spec fn parse_object(s: Seq<char>, budget: nat) -> Result<(ValueView, nat), Failure>
    decreases s.len(), 3nat,
{
    let t = trim_start(s);
    if t.len() > 0 && t[0] == '}' {
        Ok((ValueView::Object(Seq::empty()), (t.len() - 1) as nat))
    } else {
        object_result(parse_members(s, budget))
    }
}

/// Reads one member of an object: its key, a colon and its value.
#[verifier::opaque]
pub open spec fn parse_member(s: Seq<char>, budget: nat) -> Result<
    ((Seq<char>, ValueView), nat),
    Failure,
>
    decreases s.len(), 1nat,
{
    let t = trim_start(s);
    if t.len() == 0 {
        Err((ParseFault::UnexpectedEnd, 0))
    } else if t[0] != '"' {
        Err((ParseFault::UnexpectedChar, t.len()))
    } else {
        match parse_string(t.skip(1)) {
            Err(e) => Err(e),
            Ok((key, left)) => {
                let u = trim_start(tail(t.skip(1), left));
                if u.len() == 0 {
                    Err((ParseFault::UnexpectedEnd, 0))
                } else if u[0] != ':' {
                    Err((ParseFault::UnexpectedChar, u.len()))
                } else {
                    proof {
                        lemma_space_len(s);
                        lemma_space_len(tail(t.skip(1), left));
                    }
                    match parse_value(u.skip(1), budget) {
                        Err(e) => Err(e),
                        Ok((value, left)) => Ok(((key, value), left)),
                    }
                }
            },
        }
    }
}

/// Reads the members of an object that is not empty, to its closing
/// brace, in the order in which they are written.
#[verifier::opaque]
pub open spec fn parse_members(s: Seq<char>, budget: nat) -> Result<
    (Seq<(Seq<char>, ValueView)>, nat),
    Failure,
>
    decreases s.len(), 2nat,
{
    match parse_member(s, budget) {
        Err(e) => Err(e),
        Ok((member, left)) => {
            let t = trim_start(tail(s, left));
            if t.len() == 0 {
                Err((ParseFault::UnexpectedEnd, 0))
            } else if t[0] == '}' {
                Ok((seq![member], (t.len() - 1) as nat))
            } else if t[0] == ',' {
                proof {
                    lemma_space_len(tail(s, left));
                }
                prepend(seq![member], parse_members(t.skip(1), budget))
            } else {
                Err((ParseFault::UnexpectedChar, t.len()))
            }
        },
    }
}

/// Reads a whole text: one value, with nothing but whitespace around it.
pub open spec fn parse_document(s: Seq<char>) -> Result<ValueView, Failure> {
    match parse_value(s, MAX_NESTING as nat) {
        Err(e) => Err(e),
        Ok((value, left)) => {
            let t = trim_start(tail(s, left));
            if t.len() == 0 {
                Ok(value)
            } else {
                Err((ParseFault::TrailingCharacters, t.len()))
            }
        },
    }
}

} // verus!
