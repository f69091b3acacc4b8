//! The JSON reader.

use crate::error::{lemma_prepend_nothing, parse_error, prepend, Failure, Format, ParseError, ParseFault};
use crate::json::syntax::{
    array_result, hex4, hex_value, object_result, parse_array, parse_document, parse_escape,
    parse_items, parse_member, parse_members, parse_number, parse_object, parse_piece,
    parse_string, parse_unicode, parse_value, parse_word, string_result, MAX_NESTING,
};
use crate::number::{lemma_number_prefix, read_number, scan_number};
use crate::text::{decode, decoded, has_word, lemma_tail_skip, skip_space, tail, trim_start};
use crate::value::{entry_views, gather, lemma_array_view, lemma_object_view, views, Value, ValueView};
use vstd::prelude::*;

verus! {

/// The error for a fault met at `position`.
fn fail<T>(position: usize, fault: ParseFault) -> (r: Result<T, ParseError>)
    ensures
        r == Err::<T, ParseError>(ParseError { format: Format::Json, position, fault }),
{
    Err(ParseError { format: Format::Json, position, fault })
}

/// Whether what was read from `pos` in a text of `len` characters is what
/// the grammar gives: the same value and the same place to go on, or the
/// same fault at the same place.
pub open spec fn value_read(
    len: nat,
    pos: nat,
    expected: Result<(ValueView, nat), Failure>,
    got: Result<(Value, usize), ParseError>,
) -> bool {
    match expected {
        Ok((value, left)) => got matches Ok((v, next)) && v@ == value && pos <= next <= len && next
            == len - left,
        Err(failure) => failure.1 <= len && got == Err::<(Value, usize), ParseError>(
            parse_error(Format::Json, len, failure),
        ),
    }
}

/// The value of a hexadecimal digit.
fn hex_digit(c: char) -> (r: Option<u32>)
    ensures
        match hex_value(c) {
            Some(v) => r == Some(v as u32) && v < 16,
            None => r is None,
        },
{
    if '0' <= c && c <= '9' {
        Some(c as u32 - '0' as u32)
    } else if 'a' <= c && c <= 'f' {
        Some(c as u32 - 'a' as u32 + 10)
    } else if 'A' <= c && c <= 'F' {
        Some(c as u32 - 'A' as u32 + 10)
    } else {
        None
    }
}

/// The number that the four characters from `pos` on denote in hexadecimal.
fn read_hex4(buf: &Vec<char>, pos: usize) -> (r: Option<u32>)
    requires
        pos <= buf.len(),
    ensures
        match hex4(buf@.skip(pos as int)) {
            Some(v) => r == Some(v as u32) && v < 0x10000 && pos + 4 <= buf.len(),
            None => r is None,
        },
{
    if buf.len() - pos < 4 {
        return None;
    }
    let a = hex_digit(buf[pos]);
    let b = hex_digit(buf[pos + 1]);
    let c = hex_digit(buf[pos + 2]);
    let d = hex_digit(buf[pos + 3]);
    match (a, b, c, d) {
        (Some(a), Some(b), Some(c), Some(d)) => Some(((a * 16 + b) * 16 + c) * 16 + d),
        _ => None,
    }
}

/// The character with the given scalar value.
fn scalar(code: u32) -> (r: Option<char>)
    ensures
        r is Some <==> crate::text::is_scalar_value(code as int),
        r matches Some(c) ==> c == (code as int) as char,
{
    match std::char::from_u32(code) {
        Some(c) => {
            proof {
                vstd::utf8::char_u32_cast(c, code);
            }
            Some(c)
        },
        None => None,
    }
}

/// Reads what follows `\u`, from `pos` on.
fn read_unicode(buf: &Vec<char>, pos: usize) -> (r: Result<(char, usize), ParseFault>)
    requires
        pos <= buf.len(),
    ensures
        match parse_unicode(buf@.skip(pos as int)) {
            Ok((c, n)) => r == Ok::<(char, usize), ParseFault>((c, (pos + n) as usize)) && pos + n
                <= buf.len(),
            Err(fault) => r == Err::<(char, usize), ParseFault>(fault),
        },
{
    proof {
        reveal(parse_unicode);
    }
    match read_hex4(buf, pos) {
        None => Err(ParseFault::InvalidEscape),
        Some(unit) => {
            if 0xD800 <= unit && unit <= 0xDBFF {
                if buf.len() - pos >= 10 && buf[pos + 4] == '\\' && buf[pos + 5] == 'u' {
                    proof {
                        assert(buf@.skip(pos as int).skip(6) =~= buf@.skip(pos + 6));
                    }
                    match read_hex4(buf, pos + 6) {
                        None => Err(ParseFault::InvalidEscape),
                        Some(low) => {
                            if 0xDC00 <= low && low <= 0xDFFF {
                                let code: u32 = 0x10000 + (unit - 0xD800) * 0x400 + (low - 0xDC00);
                                match scalar(code) {
                                    Some(ch) => Ok((ch, pos + 10)),
                                    None => Err(ParseFault::InvalidEscape),
                                }
                            } else {
                                Err(ParseFault::InvalidEscape)
                            }
                        },
                    }
                } else {
                    Err(ParseFault::InvalidEscape)
                }
            } else if 0xDC00 <= unit && unit <= 0xDFFF {
                Err(ParseFault::InvalidEscape)
            } else {
                match scalar(unit) {
                    Some(ch) => Ok((ch, pos + 4)),
                    None => Err(ParseFault::InvalidEscape),
                }
            }
        },
    }
}

/// Reads what follows a backslash, from `pos` on.
fn read_escape(buf: &Vec<char>, pos: usize) -> (r: Result<(char, usize), ParseFault>)
    requires
        pos <= buf.len(),
    ensures
        match parse_escape(buf@.skip(pos as int)) {
            Ok((c, n)) => r == Ok::<(char, usize), ParseFault>((c, (pos + n) as usize)) && pos + n
                <= buf.len(),
            Err(fault) => r == Err::<(char, usize), ParseFault>(fault),
        },
{
    proof {
        reveal(parse_escape);
    }
    if pos >= buf.len() {
        return Err(ParseFault::UnterminatedString);
    }
    let c = buf[pos];
    if c == '"' {
        Ok(('"', pos + 1))
    } else if c == '\\' {
        Ok(('\\', pos + 1))
    } else if c == '/' {
        Ok(('/', pos + 1))
    } else if c == 'b' {
        Ok(('\u{8}', pos + 1))
    } else if c == 'f' {
        Ok(('\u{c}', pos + 1))
    } else if c == 'n' {
        Ok(('\n', pos + 1))
    } else if c == 'r' {
        Ok(('\r', pos + 1))
    } else if c == 't' {
        Ok(('\t', pos + 1))
    } else if c == 'u' {
        proof {
            assert(buf@.skip(pos as int).skip(1) =~= buf@.skip(pos + 1));
        }
        read_unicode(buf, pos + 1)
    } else {
        Err(ParseFault::InvalidEscape)
    }
}

/// Reads one character of a string, at `pos`.
fn read_piece(buf: &Vec<char>, pos: usize) -> (r: Result<(char, usize), ParseFault>)
    requires
        pos < buf.len(),
    ensures
        match parse_piece(buf@.skip(pos as int)) {
            Ok((c, n)) => r == Ok::<(char, usize), ParseFault>((c, (pos + n) as usize)) && 1 <= n
                && pos + n <= buf.len(),
            Err(fault) => r == Err::<(char, usize), ParseFault>(fault),
        },
{
    proof {
        reveal(parse_piece);
    }
    let c = buf[pos];
    if c == '\\' {
        proof {
            assert(buf@.skip(pos as int).skip(1) =~= buf@.skip(pos + 1));
        }
        read_escape(buf, pos + 1)
    } else if (c as u32) < 0x20 {
        Err(ParseFault::ControlCharacter)
    } else {
        Ok((c, pos + 1))
    }
}

/// One step of reading a string, where it has not ended.
proof fn lemma_string_step(s: Seq<char>, done: Seq<char>)
    requires
        s.len() > 0,
        s[0] != '"',
    ensures
        match parse_piece(s) {
            Err(fault) => parse_string(s) == Err::<(Seq<char>, nat), Failure>((fault, s.len())),
            Ok((c, n)) => prepend(done, parse_string(s)) == prepend(
                done.push(c),
                parse_string(s.skip(n as int)),
            ),
        },
{
    reveal(parse_string);
    if let Ok((c, n)) = parse_piece(s) {
        if let Ok((rest, left)) = parse_string(s.skip(n as int)) {
            assert(done + (seq![c] + rest) =~= done.push(c) + rest);
        }
    }
}

/// Where reading a string ends.
proof fn lemma_string_end(s: Seq<char>, done: Seq<char>)
    ensures
        s.len() == 0 ==> parse_string(s) == Err::<(Seq<char>, nat), Failure>(
            (ParseFault::UnterminatedString, 0),
        ),
        s.len() > 0 && s[0] == '"' ==> prepend(done, parse_string(s)) == Ok::<
            (Seq<char>, nat),
            Failure,
        >((done, (s.len() - 1) as nat)),
{
    reveal(parse_string);
    assert(done + Seq::<char>::empty() =~= done);
}

/// Reads a string from behind its opening quote, at `pos`.
pub fn read_string(buf: &Vec<char>, pos: usize) -> (r: Result<(String, usize), ParseError>)
    requires
        pos <= buf.len(),
    ensures
        match parse_string(buf@.skip(pos as int)) {
            Ok((text, left)) => r matches Ok((s, next)) && s@ == text && pos <= next <= buf.len()
                && next == buf.len() - left,
            Err(failure) => failure.1 <= buf.len() && r == Err::<(String, usize), ParseError>(
                parse_error(Format::Json, buf@.len(), failure),
            ),
        },
{
    let mut out = String::new();
    let mut i = pos;
    let ghost goal = parse_string(buf@.skip(pos as int));
    proof {
        lemma_prepend_nothing(goal);
    }
    loop
        invariant
            pos <= i <= buf.len(),
            goal == parse_string(buf@.skip(pos as int)),
            prepend(out@, parse_string(buf@.skip(i as int))) == goal,
        decreases buf.len() - i,
    {
        let ghost s = buf@.skip(i as int);
        proof {
            lemma_string_end(s, out@);
        }
        if i >= buf.len() {
            return fail(buf.len(), ParseFault::UnterminatedString);
        }
        if buf[i] == '"' {
            return Ok((out, i + 1));
        }
        proof {
            lemma_string_step(s, out@);
        }
        match read_piece(buf, i) {
            Err(fault) => {
                return fail(i, fault);
            },
            Ok((ch, next)) => {
                proof {
                    assert(s.skip(next - i) =~= buf@.skip(next as int));
                }
                out.push(ch);
                i = next;
            },
        }
    }
}

/// Reads one of the words `null`, `true` and `false`, at `pos`.
fn read_word(buf: &Vec<char>, pos: usize, word: &str, value: Value) -> (r: Result<
    (Value, usize),
    ParseError,
>)
    requires
        pos <= buf.len(),
    ensures
        value_read(buf@.len(), pos as nat, parse_word(buf@.skip(pos as int), word@, value@), r),
{
    if has_word(buf, pos, word) {
        let n = word.unicode_len();
        Ok((value, pos + n))
    } else {
        fail(pos, ParseFault::InvalidLiteral)
    }
}

/// Reads a number, at `pos`.
fn read_number_value(buf: &Vec<char>, pos: usize) -> (r: Result<(Value, usize), ParseError>)
    requires
        pos <= buf.len(),
    ensures
        value_read(buf@.len(), pos as nat, parse_number(buf@.skip(pos as int)), r),
{
    match scan_number(buf, pos) {
        Some(end) => {
            proof {
                lemma_number_prefix(buf@.skip(pos as int));
                assert(buf@.skip(pos as int).take(end - pos) =~= buf@.subrange(
                    pos as int,
                    end as int,
                ));
            }
            Ok((Value::Number(read_number(buf, pos, end)), end))
        },
        None => fail(pos, ParseFault::InvalidNumber),
    }
}

/// Reads a string as a value, from behind its opening quote.
fn read_string_value(buf: &Vec<char>, pos: usize) -> (r: Result<(Value, usize), ParseError>)
    requires
        pos <= buf.len(),
    ensures
        value_read(
            buf@.len(),
            pos as nat,
            string_result(parse_string(buf@.skip(pos as int))),
            r,
        ),
{
    match read_string(buf, pos) {
        Err(e) => Err(e),
        Ok((s, next)) => Ok((Value::String(s), next)),
    }
}

/// Reads a value from `pos` on.
pub fn read_value(buf: &Vec<char>, pos: usize, budget: usize) -> (r: Result<
    (Value, usize),
    ParseError,
>)
    requires
        pos <= buf.len(),
    ensures
        value_read(buf@.len(), pos as nat, parse_value(buf@.skip(pos as int), budget as nat), r),
    decreases budget, 0nat,
{
    proof {
        reveal(parse_value);
        reveal(parse_array);
        reveal(parse_object);
    }
    let p = skip_space(buf, pos);
    let ghost t = buf@.skip(p as int);
    if p >= buf.len() {
        return fail(buf.len(), ParseFault::UnexpectedEnd);
    }
    proof {
        assert(t.skip(1) =~= buf@.skip(p + 1));
    }
    let c = buf[p];
    if c == 'n' {
        read_word(buf, p, "null", Value::Null)
    } else if c == 't' {
        read_word(buf, p, "true", Value::Bool(true))
    } else if c == 'f' {
        read_word(buf, p, "false", Value::Bool(false))
    } else if c == '"' {
        read_string_value(buf, p + 1)
    } else if c == '[' || c == '{' {
        if budget == 0 {
            fail(p, ParseFault::TooDeep)
        } else if c == '[' {
            read_array(buf, p + 1, budget - 1)
        } else {
            read_object(buf, p + 1, budget - 1)
        }
    } else if c == '-' || ('0' <= c && c <= '9') {
        read_number_value(buf, p)
    } else {
        fail(p, ParseFault::UnexpectedChar)
    }
}

/// One step of reading the items of an array.
proof fn lemma_items_step(s: Seq<char>, budget: nat, done: Seq<ValueView>)
    ensures
        match parse_value(s, budget) {
            Err(e) => parse_items(s, budget) == Err::<(Seq<ValueView>, nat), Failure>(e),
            Ok((item, left)) => {
                let t = trim_start(tail(s, left));
                if t.len() == 0 {
                    parse_items(s, budget) == Err::<(Seq<ValueView>, nat), Failure>(
                        (ParseFault::UnexpectedEnd, 0),
                    )
                } else if t[0] == ']' {
                    prepend(done, parse_items(s, budget)) == Ok::<(Seq<ValueView>, nat), Failure>(
                        (done.push(item), (t.len() - 1) as nat),
                    )
                } else if t[0] == ',' {
                    prepend(done, parse_items(s, budget)) == prepend(
                        done.push(item),
                        parse_items(t.skip(1), budget),
                    )
                } else {
                    parse_items(s, budget) == Err::<(Seq<ValueView>, nat), Failure>(
                        (ParseFault::UnexpectedChar, t.len()),
                    )
                }
            },
        },
{
    reveal(parse_items);
    reveal(parse_value);
    if let Ok((item, left)) = parse_value(s, budget) {
        let t = trim_start(tail(s, left));
        assert(done + seq![item] =~= done.push(item));
        if t.len() > 0 && t[0] == ',' {
            if let Ok((rest, left2)) = parse_items(t.skip(1), budget) {
                assert(done + (seq![item] + rest) =~= done.push(item) + rest);
            }
        }
    }
}

/// Reads an array from behind its opening bracket, at `pos`.
fn read_array(buf: &Vec<char>, pos: usize, budget: usize) -> (r: Result<(Value, usize), ParseError>)
    requires
        pos <= buf.len(),
    ensures
        value_read(buf@.len(), pos as nat, parse_array(buf@.skip(pos as int), budget as nat), r),
    decreases budget, 2nat,
{
    proof {
        reveal(parse_array);
        reveal(parse_items);
    }
    let p = skip_space(buf, pos);
    if p < buf.len() && buf[p] == ']' {
        let items: Vec<Value> = Vec::new();
        proof {
            lemma_array_view(items);
            assert(views(items@) =~= Seq::<ValueView>::empty());
        }
        return Ok((Value::Array(items), p + 1));
    }
    let mut items: Vec<Value> = Vec::new();
    let mut i = pos;
    let ghost goal = parse_items(buf@.skip(pos as int), budget as nat);
    proof {
        assert(views(items@) =~= Seq::<ValueView>::empty());
        lemma_prepend_nothing(goal);
    }
    loop
        invariant
            pos <= i <= buf.len(),
            parse_array(buf@.skip(pos as int), budget as nat) == array_result(goal),
            prepend(views(items@), parse_items(buf@.skip(i as int), budget as nat)) == goal,
        decreases buf.len() - i,
    {
        proof {
            lemma_items_step(buf@.skip(i as int), budget as nat, views(items@));
        }
        let ghost done = views(items@);
        match read_value(buf, i, budget) {
            Err(e) => {
                return Err(e);
            },
            Ok((item, next)) => {
                proof {
                    lemma_tail_skip(buf@, i as int, next as int);
                }
                let ghost item_view = item@;
                let q = skip_space(buf, next);
                if q >= buf.len() {
                    return fail(buf.len(), ParseFault::UnexpectedEnd);
                }
                let c = buf[q];
                if c == ']' {
                    items.push(item);
                    proof {
                        lemma_array_view(items);
                        assert(views(items@) =~= done.push(item_view));
                    }
                    return Ok((Value::Array(items), q + 1));
                } else if c == ',' {
                    items.push(item);
                    proof {
                        assert(buf@.skip(q as int).skip(1) =~= buf@.skip(q + 1));
                        assert(views(items@) =~= done.push(item_view));
                    }
                    i = q + 1;
                } else {
                    return fail(q, ParseFault::UnexpectedChar);
                }
            },
        }
    }
}

/// One step of reading the members of an object.
proof fn lemma_members_step(s: Seq<char>, budget: nat, done: Seq<(Seq<char>, ValueView)>)
    ensures
        match parse_member(s, budget) {
            Err(e) => parse_members(s, budget) == Err::<
                (Seq<(Seq<char>, ValueView)>, nat),
                Failure,
            >(e),
            Ok((member, left)) => {
                let t = trim_start(tail(s, left));
                if t.len() == 0 {
                    parse_members(s, budget) == Err::<(Seq<(Seq<char>, ValueView)>, nat), Failure>(
                        (ParseFault::UnexpectedEnd, 0),
                    )
                } else if t[0] == '}' {
                    prepend(done, parse_members(s, budget)) == Ok::<
                        (Seq<(Seq<char>, ValueView)>, nat),
                        Failure,
                    >((done.push(member), (t.len() - 1) as nat))
                } else if t[0] == ',' {
                    prepend(done, parse_members(s, budget)) == prepend(
                        done.push(member),
                        parse_members(t.skip(1), budget),
                    )
                } else {
                    parse_members(s, budget) == Err::<(Seq<(Seq<char>, ValueView)>, nat), Failure>(
                        (ParseFault::UnexpectedChar, t.len()),
                    )
                }
            },
        },
{
    reveal(parse_members);
    reveal(parse_member);
    if let Ok((member, left)) = parse_member(s, budget) {
        let t = trim_start(tail(s, left));
        assert(done + seq![member] =~= done.push(member));
        if t.len() > 0 && t[0] == ',' {
            if let Ok((rest, left2)) = parse_members(t.skip(1), budget) {
                assert(done + (seq![member] + rest) =~= done.push(member) + rest);
            }
        }
    }
}

/// Reads an object from behind its opening brace, at `pos`.
fn read_object(buf: &Vec<char>, pos: usize, budget: usize) -> (r: Result<(Value, usize), ParseError>)
    requires
        pos <= buf.len(),
    ensures
        value_read(buf@.len(), pos as nat, parse_object(buf@.skip(pos as int), budget as nat), r),
    decreases budget, 2nat,
{
    proof {
        reveal(parse_object);
        reveal(parse_members);
    }
    let p = skip_space(buf, pos);
    if p < buf.len() && buf[p] == '}' {
        let entries: Vec<(String, Value)> = Vec::new();
        proof {
            lemma_object_view(entries);
            assert(entry_views(entries@) =~= Seq::empty());
        }
        return Ok((Value::Object(entries), p + 1));
    }
    let mut members: Vec<(String, Value)> = Vec::new();
    let mut i = pos;
    let ghost goal = parse_members(buf@.skip(pos as int), budget as nat);
    proof {
        assert(entry_views(members@) =~= Seq::empty());
        lemma_prepend_nothing(goal);
    }
    loop
        invariant
            pos <= i <= buf.len(),
            parse_object(buf@.skip(pos as int), budget as nat) == object_result(goal),
            prepend(entry_views(members@), parse_members(buf@.skip(i as int), budget as nat))
                == goal,
        decreases buf.len() - i,
    {
        proof {
            lemma_members_step(buf@.skip(i as int), budget as nat, entry_views(members@));
        }
        let ghost done = entry_views(members@);
        match read_member(buf, i, budget) {
            Err(e) => {
                return Err(e);
            },
            Ok((key, value, next)) => {
                proof {
                    lemma_tail_skip(buf@, i as int, next as int);
                }
                let ghost member = (key@, value@);
                let q = skip_space(buf, next);
                if q >= buf.len() {
                    return fail(buf.len(), ParseFault::UnexpectedEnd);
                }
                let c = buf[q];
                if c == '}' {
                    members.push((key, value));
                    proof {
                        assert(entry_views(members@) =~= done.push(member));
                    }
                    let entries = gather(members);
                    proof {
                        lemma_object_view(entries);
                    }
                    return Ok((Value::Object(entries), q + 1));
                } else if c == ',' {
                    members.push((key, value));
                    proof {
                        assert(buf@.skip(q as int).skip(1) =~= buf@.skip(q + 1));
                        assert(entry_views(members@) =~= done.push(member));
                    }
                    i = q + 1;
                } else {
                    return fail(q, ParseFault::UnexpectedChar);
                }
            },
        }
    }
}

/// Reads one member of an object, from `pos` on.
fn read_member(buf: &Vec<char>, pos: usize, budget: usize) -> (r: Result<
    (String, Value, usize),
    ParseError,
>)
    requires
        pos <= buf.len(),
    ensures
        match parse_member(buf@.skip(pos as int), budget as nat) {
            Ok((member, left)) => r matches Ok((k, v, next)) && (k@, v@) == member && pos <= next
                <= buf.len() && next == buf.len() - left,
            Err(failure) => failure.1 <= buf.len() && r == Err::<
                (String, Value, usize),
                ParseError,
            >(parse_error(Format::Json, buf@.len(), failure)),
        },
    decreases budget, 1nat,
{
    proof {
        reveal(parse_member);
        reveal(parse_value);
    }
    let k = skip_space(buf, pos);
    if k >= buf.len() {
        return fail(buf.len(), ParseFault::UnexpectedEnd);
    }
    if buf[k] != '"' {
        return fail(k, ParseFault::UnexpectedChar);
    }
    proof {
        assert(buf@.skip(k as int).skip(1) =~= buf@.skip(k + 1));
    }
    match read_string(buf, k + 1) {
        Err(e) => Err(e),
        Ok((key, next)) => {
            proof {
                lemma_tail_skip(buf@, k + 1, next as int);
            }
            let u = skip_space(buf, next);
            if u >= buf.len() {
                return fail(buf.len(), ParseFault::UnexpectedEnd);
            }
            if buf[u] != ':' {
                return fail(u, ParseFault::UnexpectedChar);
            }
            proof {
                assert(buf@.skip(u as int).skip(1) =~= buf@.skip(u + 1));
            }
            match read_value(buf, u + 1, budget) {
                Err(e) => Err(e),
                Ok((value, after)) => Ok((key, value, after)),
            }
        },
    }
}

/// What a byte buffer denotes as JSON.
pub open spec fn parse_bytes(bytes: Seq<u8>) -> Result<ValueView, ParseError> {
    match decoded(bytes) {
        None => Err(ParseError { format: Format::Json, position: 0, fault: ParseFault::InvalidUtf8 }),
        Some(text) => match parse_document(text) {
            Ok(value) => Ok(value),
            Err(failure) => Err(parse_error(Format::Json, text.len(), failure)),
        },
    }
}

/// Reads a whole text as one JSON value.
pub fn read_document(buf: &Vec<char>) -> (r: Result<Value, ParseError>)
    ensures
        match parse_document(buf@) {
            Ok(value) => r matches Ok(v) && v@ == value,
            Err(failure) => r == Err::<Value, ParseError>(
                parse_error(Format::Json, buf@.len(), failure),
            ),
        },
{
    assert(buf@.skip(0) =~= buf@);
    match read_value(buf, 0, MAX_NESTING) {
        Err(e) => Err(e),
        Ok((value, next)) => {
            proof {
                lemma_tail_skip(buf@, 0, next as int);
            }
            let end = skip_space(buf, next);
            if end >= buf.len() {
                Ok(value)
            } else {
                fail(end, ParseFault::TrailingCharacters)
            }
        },
    }
}

/// Reads a byte buffer as one JSON value.
pub fn parse(input: &[u8]) -> (r: Result<Value, ParseError>)
    ensures
        match parse_bytes(input@) {
            Ok(value) => r matches Ok(v) && v@ == value,
            Err(e) => r == Err::<Value, ParseError>(e),
        },
{
    match decode(input) {
        None => fail(0, ParseFault::InvalidUtf8),
        Some(buf) => read_document(&buf),
    }
}

} // verus!
