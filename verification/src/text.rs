//! Text as a sequence of characters: conversions between bytes, strings and
//! character vectors, and the small scanners that every format shares.

use vstd::prelude::*;
use vstd::std_specs::iter::IteratorSpec;
use vstd::utf8::*;

verus! {

/// `String::push` appends one character to the end of the string.
pub assume_specification[ std::string::String::push ](s: &mut std::string::String, ch: char)
    ensures
        final(s)@ == old(s)@.push(ch),
;

/// `char::from_u32` gives the character with the given scalar value, and
/// nothing for a surrogate or a number above `0x10FFFF`.
pub assume_specification[ std::char::from_u32 ](i: u32) -> (r: Option<char>)
    ensures
        r matches Some(c) ==> c as u32 == i,
        r is Some <==> is_scalar_value(i as int),
;

/// `core::str::from_utf8` accepts exactly the well-formed UTF-8 byte strings
/// and hands the same bytes back as text.
#[verifier::external_body]
fn utf8_str(bytes: &[u8]) -> (r: Option<&str>)
    ensures
        r is Some <==> valid_utf8(bytes@),
        r matches Some(s) ==> encode_utf8(s@) == bytes@,
{
    match core::str::from_utf8(bytes) {
        Ok(s) => Some(s),
        Err(_) => None,
    }
}

/// Whether `i` is a Unicode scalar value: a code point that is no surrogate.
pub open spec fn is_scalar_value(i: int) -> bool {
    0 <= i <= 0xD7FF || 0xE000 <= i <= 0x10FFFF
}

/// The characters that a byte buffer holds, where it is well-formed UTF-8.
pub open spec fn decoded(bytes: Seq<u8>) -> Option<Seq<char>> {
    if valid_utf8(bytes) {
        Some(decode_utf8(bytes))
    } else {
        None
    }
}

/// The characters of `s`, in order.
pub fn chars_of(s: &str) -> (v: Vec<char>)
    ensures
        v@ == s@,
{
    let mut v: Vec<char> = Vec::new();
    let mut it = s.chars();
    proof {
        vstd::string::axiom_spec_iter(s);
    }
    loop
        invariant
            v@ + it.remaining() == s@,
            it.obeys_prophetic_iter_laws(),
            it.decrease() is Some,
        decreases it.decrease()->0,
    {
        let ghost before = it;
        let next = it.next();
        proof {
            vstd::string::next_postcondition(&before, &it, next);
        }
        match next {
            Some(c) => {
                assert(v@.push(c) + it.remaining() =~= v@ + before.remaining());
                v.push(c);
            },
            None => {
                assert(v@ =~= v@ + before.remaining());
                return v;
            },
        }
    }
}

/// A string made of the given characters.
pub fn string_of(chars: &Vec<char>) -> (s: String)
    ensures
        s@ == chars@,
{
    let mut s = String::new();
    let mut i: usize = 0;
    while i < chars.len()
        invariant
            i <= chars.len(),
            s@ == chars@.take(i as int),
        decreases chars.len() - i,
    {
        s.push(chars[i]);
        i += 1;
        assert(chars@.take(i as int) =~= chars@.take(i - 1).push(chars@[i - 1]));
    }
    assert(chars@.take(chars.len() as int) =~= chars@);
    s
}

/// Decodes a byte buffer as UTF-8.
pub fn decode(bytes: &[u8]) -> (r: Option<Vec<char>>)
    ensures
        r is Some <==> decoded(bytes@) is Some,
        r matches Some(v) ==> Some(v@) == decoded(bytes@),
{
    match utf8_str(bytes) {
        Some(s) => {
            proof {
                encode_utf8_decode_utf8(s@);
            }
            Some(chars_of(s))
        },
        None => None,
    }
}

} // verus!

verus! {

/// Whether `c` is one of the ten decimal digits.
pub open spec fn is_digit(c: char) -> bool {
    '0' <= c <= '9'
}

/// The number that a decimal digit stands for.
pub open spec fn digit_value(c: char) -> nat {
    (c as int - '0' as int) as nat
}

/// The digit that stands for a number below ten.
pub open spec fn digit_char(d: nat) -> char {
    (d + '0' as nat) as char
}

/// How many decimal digits `s` starts with.
pub open spec fn digits_len(s: Seq<char>) -> nat
    decreases s.len(),
{
    if s.len() > 0 && is_digit(s[0]) {
        1 + digits_len(s.skip(1))
    } else {
        0
    }
}

/// The number that a string of decimal digits denotes.
pub open spec fn decimal_value(s: Seq<char>) -> nat
    decreases s.len(),
{
    if s.len() == 0 {
        0
    } else {
        decimal_value(s.drop_last()) * 10 + digit_value(s.last())
    }
}

/// The decimal digits of a number, without leading zeros.
pub open spec fn decimal_digits(n: nat) -> Seq<char>
    decreases n,
{
    if n < 10 {
        seq![digit_char(n)]
    } else {
        decimal_digits(n / 10).push(digit_char(n % 10))
    }
}

/// Every character of `s` is a decimal digit.
pub open spec fn all_digits(s: Seq<char>) -> bool {
    forall|i: int| 0 <= i < s.len() ==> is_digit(#[trigger] s[i])
}

/// The digits of a number denote it, and start with no zero but for zero itself.
pub proof fn lemma_decimal_digits(n: nat)
    ensures
        decimal_value(decimal_digits(n)) == n,
        all_digits(decimal_digits(n)),
        decimal_digits(n).len() >= 1,
        n > 0 ==> decimal_digits(n)[0] != '0',
        n == 0 ==> decimal_digits(n) == seq!['0'],
    decreases n,
{
    if n < 10 {
        let s = seq![digit_char(n)];
        assert(s.drop_last() =~= Seq::<char>::empty());
        assert(decimal_value(s.drop_last()) == 0);
        assert(s.last() == digit_char(n));
    } else {
        lemma_decimal_digits(n / 10);
        let front = decimal_digits(n / 10);
        let s = front.push(digit_char(n % 10));
        assert(s.drop_last() =~= front);
        assert(s[0] == front[0]);
    }
}

/// A prefix of a digit string denotes no more than the whole.
pub proof fn lemma_decimal_value_prefix(s: Seq<char>, k: int)
    requires
        0 <= k <= s.len(),
    ensures
        decimal_value(s.take(k)) <= decimal_value(s),
    decreases s.len() - k,
{
    if k < s.len() {
        lemma_decimal_value_prefix(s, k + 1);
        assert(s.take(k + 1).drop_last() =~= s.take(k));
    } else {
        assert(s.take(k) =~= s);
    }
}

/// A run of digits counted by `digits_len` holds digits only and ends before
/// a character that is none.
pub proof fn lemma_digits_len(s: Seq<char>)
    ensures
        digits_len(s) <= s.len(),
        all_digits(s.take(digits_len(s) as int)),
        digits_len(s) < s.len() ==> !is_digit(s[digits_len(s) as int]),
    decreases s.len(),
{
    if s.len() > 0 && is_digit(s[0]) {
        lemma_digits_len(s.skip(1));
        let n = digits_len(s);
        assert forall|i: int| 0 <= i < n implies is_digit(#[trigger] s.take(n as int)[i]) by {
            if i > 0 {
                assert(s.take(n as int)[i] == s.skip(1).take(n - 1)[i - 1]);
            }
        }
    }
}

/// A string of digits followed by something that is no digit has its own
/// length as its run of digits.
pub proof fn lemma_digits_len_of(digits: Seq<char>, rest: Seq<char>)
    requires
        all_digits(digits),
        rest.len() > 0 ==> !is_digit(rest[0]),
    ensures
        digits_len(digits + rest) == digits.len(),
    decreases digits.len(),
{
    if digits.len() > 0 {
        assert((digits + rest).skip(1) =~= digits.skip(1) + rest);
        assert((digits + rest)[0] == digits[0]);
        lemma_digits_len_of(digits.skip(1), rest);
    } else {
        assert(digits + rest =~= rest);
    }
}

/// Whether the character is a decimal digit.
pub fn check_digit(c: char) -> (r: bool)
    ensures
        r == is_digit(c),
{
    '0' <= c && c <= '9'
}

/// The end of the run of digits that starts at `pos`.
pub fn scan_digits(buf: &Vec<char>, pos: usize) -> (end: usize)
    requires
        pos <= buf.len(),
    ensures
        pos <= end <= buf.len(),
        end - pos == digits_len(buf@.skip(pos as int)),
{
    let mut i = pos;
    while i < buf.len() && check_digit(buf[i])
        invariant
            pos <= i <= buf.len(),
            digits_len(buf@.skip(pos as int)) == (i - pos) + digits_len(buf@.skip(i as int)),
        decreases buf.len() - i,
    {
        proof {
            assert(buf@.skip(i as int).skip(1) =~= buf@.skip(i + 1));
        }
        i += 1;
    }
    i
}

/// The number denoted by the digits in `buf[start..end]`, where it fits.
pub fn read_decimal(buf: &Vec<char>, start: usize, end: usize) -> (r: Option<u64>)
    requires
        start <= end <= buf.len(),
        all_digits(buf@.subrange(start as int, end as int)),
    ensures
        match r {
            Some(v) => v == decimal_value(buf@.subrange(start as int, end as int)),
            None => decimal_value(buf@.subrange(start as int, end as int)) > u64::MAX,
        },
{
    let ghost whole = buf@.subrange(start as int, end as int);
    let mut acc: u64 = 0;
    let mut i = start;
    assert(whole.take(0) =~= Seq::<char>::empty());
    while i < end
        invariant
            start <= i <= end <= buf.len(),
            whole == buf@.subrange(start as int, end as int),
            all_digits(whole),
            acc == decimal_value(whole.take(i - start)),
        decreases end - i,
    {
        let c = buf[i];
        proof {
            assert(whole[i - start] == c);
            assert(whole.take(i - start + 1).drop_last() =~= whole.take(i - start));
            lemma_decimal_value_prefix(whole, i - start + 1);
        }
        let d: u64 = (c as u32 - '0' as u32) as u64;
        if acc > (u64::MAX - d) / 10 {
            return None;
        }
        acc = acc * 10 + d;
        i += 1;
    }
    assert(whole.take(end - start) =~= whole);
    Some(acc)
}

/// Appends the decimal digits of `n`.
pub fn push_decimal(out: &mut Vec<char>, n: u64)
    ensures
        final(out)@ == old(out)@ + decimal_digits(n as nat),
    decreases n,
{
    if n >= 10 {
        push_decimal(out, n / 10);
    }
    let d: u8 = (n % 10) as u8;
    let c: char = (48u8 + d) as char;
    assert(c == digit_char((n % 10) as nat));
    out.push(c);
    assert(final(out)@ =~= old(out)@ + decimal_digits(n as nat));
}

/// Appends the characters of `more`.
pub fn push_all(out: &mut Vec<char>, more: &Vec<char>)
    ensures
        final(out)@ == old(out)@ + more@,
{
    let mut i: usize = 0;
    while i < more.len()
        invariant
            i <= more.len(),
            out@ == old(out)@ + more@.take(i as int),
        decreases more.len() - i,
    {
        out.push(more[i]);
        i += 1;
        assert(out@ =~= old(out)@ + more@.take(i as int));
    }
    assert(more@.take(more.len() as int) =~= more@);
}

/// Appends the characters of `s`.
pub fn push_str(out: &mut Vec<char>, s: &str)
    ensures
        final(out)@ == old(out)@ + s@,
{
    let more = chars_of(s);
    push_all(out, &more);
}

/// The characters of `buf[start..end]` as a string.
pub fn slice_string(buf: &Vec<char>, start: usize, end: usize) -> (s: String)
    requires
        start <= end <= buf.len(),
    ensures
        s@ == buf@.subrange(start as int, end as int),
{
    let mut s = String::new();
    let mut i = start;
    while i < end
        invariant
            start <= i <= end <= buf.len(),
            s@ == buf@.subrange(start as int, i as int),
        decreases end - i,
    {
        s.push(buf[i]);
        i += 1;
        assert(buf@.subrange(start as int, i as int) =~= buf@.subrange(start as int, i - 1).push(
            buf@[i - 1],
        ));
    }
    s
}

} // verus!

verus! {

/// Whether `c` is a blank, a tab, a line feed or a carriage return.
pub open spec fn is_space(c: char) -> bool {
    c == ' ' || c == '\t' || c == '\n' || c == '\r'
}

/// How many whitespace characters `s` starts with.
pub open spec fn space_len(s: Seq<char>) -> nat
    decreases s.len(),
{
    if s.len() > 0 && is_space(s[0]) {
        1 + space_len(s.skip(1))
    } else {
        0
    }
}

/// Whitespace is never longer than the text.
pub proof fn lemma_space_len(s: Seq<char>)
    ensures
        space_len(s) <= s.len(),
        space_len(s) < s.len() ==> !is_space(s[space_len(s) as int]),
    decreases s.len(),
{
    if s.len() > 0 && is_space(s[0]) {
        lemma_space_len(s.skip(1));
    }
}

/// `s` without the whitespace it starts with.
pub open spec fn trim_start(s: Seq<char>) -> Seq<char> {
    s.skip(space_len(s) as int)
}

/// The last `left` characters of `s`; all of `s` where it is shorter.
pub open spec fn tail(s: Seq<char>, left: nat) -> Seq<char> {
    if left <= s.len() {
        s.skip(s.len() - left)
    } else {
        s
    }
}

/// The tail of a suffix is a suffix.
pub proof fn lemma_tail_skip(s: Seq<char>, pos: int, next: int)
    requires
        0 <= pos <= next <= s.len(),
    ensures
        tail(s.skip(pos), (s.len() - next) as nat) == s.skip(next),
{
    assert(s.skip(pos).skip(next - pos) =~= s.skip(next));
}

/// Whether `s` starts with `word`.
pub open spec fn starts_with(s: Seq<char>, word: Seq<char>) -> bool {
    word.len() <= s.len() && s.take(word.len() as int) == word
}

/// Whether the character is whitespace.
pub fn check_space(c: char) -> (r: bool)
    ensures
        r == is_space(c),
{
    c == ' ' || c == '\t' || c == '\n' || c == '\r'
}

/// The end of the whitespace that starts at `pos`.
pub fn skip_space(buf: &Vec<char>, pos: usize) -> (end: usize)
    requires
        pos <= buf.len(),
    ensures
        pos <= end <= buf.len(),
        end - pos == space_len(buf@.skip(pos as int)),
        trim_start(buf@.skip(pos as int)) == buf@.skip(end as int),
{
    let mut i = pos;
    while i < buf.len() && check_space(buf[i])
        invariant
            pos <= i <= buf.len(),
            space_len(buf@.skip(pos as int)) == (i - pos) + space_len(buf@.skip(i as int)),
        decreases buf.len() - i,
    {
        proof {
            assert(buf@.skip(i as int).skip(1) =~= buf@.skip(i + 1));
        }
        i += 1;
    }
    proof {
        assert(buf@.skip(pos as int).skip(i - pos) =~= buf@.skip(i as int));
    }
    i
}

/// Whether `word` stands in `buf` at `pos`.
pub fn has_word(buf: &Vec<char>, pos: usize, word: &str) -> (r: bool)
    requires
        pos <= buf.len(),
    ensures
        r == starts_with(buf@.skip(pos as int), word@),
{
    let w = chars_of(word);
    if w.len() > buf.len() - pos {
        return false;
    }
    let ghost s = buf@.skip(pos as int);
    let mut i: usize = 0;
    while i < w.len()
        invariant
            i <= w.len() <= buf.len() - pos,
            s == buf@.skip(pos as int),
            w@ == word@,
            forall|j: int| 0 <= j < i ==> s[j] == w[j],
        decreases w.len() - i,
    {
        if buf[pos + i] != w[i] {
            assert(s.take(w.len() as int)[i as int] != w@[i as int]);
            return false;
        }
        i += 1;
    }
    assert(s.take(w.len() as int) =~= w@);
    true
}

} // verus!

verus! {

/// Whether the characters are those of `word`.
pub fn has_text(text: &Vec<char>, word: &str) -> (r: bool)
    ensures
        r == (text@ == word@),
{
    let w = chars_of(word);
    if w.len() != text.len() {
        return false;
    }
    let mut i: usize = 0;
    while i < w.len()
        invariant
            i <= w.len(),
            w.len() == text.len(),
            w@ == word@,
            forall|j: int| 0 <= j < i ==> text[j] == w[j],
        decreases w.len() - i,
    {
        if text[i] != w[i] {
            return false;
        }
        i += 1;
    }
    assert(text@ =~= w@);
    true
}

} // verus!

verus! {

/// The characters of `buf[start..end]`.
pub fn slice_chars(buf: &Vec<char>, start: usize, end: usize) -> (s: Vec<char>)
    requires
        start <= end <= buf.len(),
    ensures
        s@ == buf@.subrange(start as int, end as int),
{
    let mut s: Vec<char> = Vec::new();
    let mut i = start;
    while i < end
        invariant
            start <= i <= end <= buf.len(),
            s@ == buf@.subrange(start as int, i as int),
        decreases end - i,
    {
        s.push(buf[i]);
        i += 1;
        assert(buf@.subrange(start as int, i as int) =~= buf@.subrange(start as int, i - 1).push(
            buf@[i - 1],
        ));
    }
    s
}

} // verus!
