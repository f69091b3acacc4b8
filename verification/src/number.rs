//! Numeric literals: the grammar that all formats share, and the way a
//! literal becomes a [`Number`] and a number becomes text again.
//!
//! A literal is an optional minus sign, an integer part without leading
//! zeros, an optional fraction and an optional exponent.

use crate::text::{
    decimal_digits, decimal_value, digits_len, is_digit, lemma_decimal_digits, lemma_digits_len,
    lemma_digits_len_of, push_all, push_decimal, read_decimal, scan_digits, slice_string, chars_of,
};
use crate::value::{keys_unique, Number, NumberView, ValueView};
use vstd::prelude::*;

verus! {

/// The length of the sign that `s` starts with: 1 for a minus, else 0.
pub open spec fn sign_len(s: Seq<char>) -> nat {
    if s.len() > 0 && s[0] == '-' {
        1
    } else {
        0
    }
}

/// The length of the fraction that `s` starts with, its point included, or
/// `None` where a point is followed by no digit.
pub open spec fn fraction_len(s: Seq<char>) -> Option<nat> {
    if s.len() > 0 && s[0] == '.' {
        let n = digits_len(s.skip(1));
        if n == 0 {
            None
        } else {
            Some(1 + n)
        }
    } else {
        Some(0)
    }
}

/// The length of the exponent that `s` starts with, its letter and sign
/// included, or `None` where the letter is followed by no digit.
pub open spec fn exponent_len(s: Seq<char>) -> Option<nat> {
    if s.len() > 0 && (s[0] == 'e' || s[0] == 'E') {
        let sign: nat = if s.len() > 1 && (s[1] == '+' || s[1] == '-') {
            1
        } else {
            0
        };
        let n = digits_len(s.skip(1 + sign as int));
        if n == 0 {
            None
        } else {
            Some(1 + sign + n)
        }
    } else {
        Some(0)
    }
}

/// The length of the numeric literal that `s` starts with, or `None` where
/// it starts with none.
pub open spec fn number_len(s: Seq<char>) -> Option<nat> {
    let a = sign_len(s);
    let n = digits_len(s.skip(a as int));
    if n == 0 || (n > 1 && s[a as int] == '0') {
        None
    } else {
        match fraction_len(s.skip((a + n) as int)) {
            None => None,
            Some(f) => match exponent_len(s.skip((a + n + f) as int)) {
                None => None,
                Some(e) => Some(a + n + f + e),
            },
        }
    }
}

/// Whether `s` is a numeric literal from its first character to its last.
pub open spec fn is_number(s: Seq<char>) -> bool {
    number_len(s) == Some(s.len())
}

/// Whether a magnitude with the given sign fits 64 bits.
pub open spec fn fits(negative: bool, magnitude: nat) -> bool {
    if negative {
        magnitude <= 0x8000_0000_0000_0000
    } else {
        magnitude <= 0x7fff_ffff_ffff_ffff
    }
}

/// The number that a literal denotes: an integer where the literal has
/// neither fraction nor exponent and fits 64 bits, else the literal itself.
pub open spec fn number_of(s: Seq<char>) -> NumberView {
    let a = sign_len(s);
    let n = digits_len(s.skip(a as int));
    let magnitude = decimal_value(s.skip(a as int).take(n as int));
    if a + n == s.len() && fits(a == 1, magnitude) {
        if a == 1 {
            NumberView::Int(-(magnitude as int))
        } else {
            NumberView::Int(magnitude as int)
        }
    } else {
        NumberView::Literal(s)
    }
}

/// The text of an integer: a minus sign where it is negative, then its
/// decimal digits.
pub open spec fn int_text(i: int) -> Seq<char> {
    if i < 0 {
        seq!['-'] + decimal_digits((-i) as nat)
    } else {
        decimal_digits(i as nat)
    }
}

impl NumberView {
    /// The text of the number.
    pub open spec fn text(self) -> Seq<char> {
        match self {
            NumberView::Int(i) => int_text(i),
            NumberView::Literal(s) => s,
        }
    }

    /// Whether the number can be written: a kept literal is a numeric literal.
    pub open spec fn writable(self) -> bool {
        match self {
            NumberView::Int(_) => true,
            NumberView::Literal(s) => is_number(s),
        }
    }

    /// Whether the number is held the way a reader of its text would hold
    /// it: an integer within 64 bits, or a literal that denotes itself.
    pub open spec fn canonical(self) -> bool {
        match self {
            NumberView::Int(i) => -0x8000_0000_0000_0000 <= i <= 0x7fff_ffff_ffff_ffff,
            NumberView::Literal(s) => is_number(s) && number_of(s) == self,
        }
    }
}

/// Whether `c` can continue a numeric literal.
pub open spec fn is_number_char(c: char) -> bool {
    is_digit(c) || c == '.' || c == 'e' || c == 'E' || c == '+' || c == '-'
}

/// Whether the text that follows a literal leaves it as it is: it is empty
/// or starts with a character that continues no literal.
pub open spec fn ends_number(rest: Seq<char>) -> bool {
    rest.len() > 0 ==> !is_number_char(rest[0])
}

/// A run of digits is not changed by what follows it, unless that begins
/// with a digit.
pub proof fn lemma_digits_len_append(s: Seq<char>, rest: Seq<char>)
    requires
        rest.len() > 0 ==> !is_digit(rest[0]),
    ensures
        digits_len(s + rest) == digits_len(s),
    decreases s.len(),
{
    if s.len() > 0 {
        assert((s + rest)[0] == s[0]);
        if is_digit(s[0]) {
            assert((s + rest).skip(1) =~= s.skip(1) + rest);
            lemma_digits_len_append(s.skip(1), rest);
        }
    } else {
        assert(s + rest =~= rest);
    }
}

/// A literal followed by text that cannot continue it is read as the same
/// literal.
pub proof fn lemma_number_len_append(s: Seq<char>, rest: Seq<char>)
    requires
        is_number(s),
        ends_number(rest),
    ensures
        number_len(s + rest) == Some(s.len()),
{
    let t = s + rest;
    let a = sign_len(s);
    assert(s.len() > 0) by {
        if s.len() == 0 {
            assert(digits_len(s.skip(a as int)) == 0);
        }
    }
    assert(t[0] == s[0]);
    assert(sign_len(t) == a);
    assert(t.skip(a as int) =~= s.skip(a as int) + rest);
    lemma_digits_len_append(s.skip(a as int), rest);
    let n = digits_len(s.skip(a as int));
    lemma_digits_len(s.skip(a as int));
    assert(t[a as int] == s[a as int]);
    let b = (a + n) as int;
    assert(t.skip(b) =~= s.skip(b) + rest);
    let sb = s.skip(b);
    let f = fraction_len(sb)->0;
    if sb.len() > 0 && sb[0] == '.' {
        assert((sb + rest)[0] == sb[0]);
        assert((sb + rest).skip(1) =~= sb.skip(1) + rest);
        lemma_digits_len_append(sb.skip(1), rest);
        lemma_digits_len(sb.skip(1));
    } else if sb.len() > 0 {
        assert((sb + rest)[0] == sb[0]);
    } else {
        assert(sb + rest =~= rest);
    }
    assert(fraction_len(sb + rest) == Some(f));
    let c = (a + n + f) as int;
    assert(t.skip(c) =~= s.skip(c) + rest);
    let sc = s.skip(c);
    let e = exponent_len(sc)->0;
    if sc.len() > 0 && (sc[0] == 'e' || sc[0] == 'E') {
        assert((sc + rest)[0] == sc[0]);
        let sign: nat = if sc.len() > 1 && (sc[1] == '+' || sc[1] == '-') {
            1
        } else {
            0
        };
        assert(sc.len() > 1) by {
            if sc.len() == 1 {
                assert(digits_len(sc.skip(1)) == 0);
            }
        }
        assert((sc + rest)[1] == sc[1]);
        assert((sc + rest).skip(1 + sign as int) =~= sc.skip(1 + sign as int) + rest);
        lemma_digits_len_append(sc.skip(1 + sign as int), rest);
    } else if sc.len() > 0 {
        assert((sc + rest)[0] == sc[0]);
    } else {
        assert(sc + rest =~= rest);
    }
    assert(exponent_len(sc + rest) == Some(e));
}

/// The text of an integer within 64 bits is a literal that denotes it.
pub proof fn lemma_int_text(i: int)
    requires
        -0x8000_0000_0000_0000 <= i <= 0x7fff_ffff_ffff_ffff,
    ensures
        is_number(int_text(i)),
        number_of(int_text(i)) == NumberView::Int(i),
{
    let s = int_text(i);
    let magnitude: nat = if i < 0 {
        (-i) as nat
    } else {
        i as nat
    };
    let digits = decimal_digits(magnitude);
    lemma_decimal_digits(magnitude);
    let a = sign_len(s);
    assert(is_digit(digits[0]));
    if i < 0 {
        assert(s[0] == '-');
        assert(s.skip(1) =~= digits);
    } else {
        assert(s[0] == digits[0]);
        assert(s.skip(0) =~= digits);
    }
    assert(s.skip(a as int) =~= digits);
    lemma_digits_len_of(digits, Seq::empty());
    assert(digits + Seq::<char>::empty() =~= digits);
    assert(digits_len(digits) == digits.len());
    assert(digits.take(digits.len() as int) =~= digits);
    assert(s[a as int] == digits[0]);
    assert(s.skip((a + digits.len()) as int) =~= Seq::<char>::empty());
}

/// The end of the fraction that starts at `pos`, which may be empty.
fn scan_fraction(buf: &Vec<char>, pos: usize) -> (r: Option<usize>)
    requires
        pos <= buf.len(),
    ensures
        match fraction_len(buf@.skip(pos as int)) {
            Some(n) => r == Some((pos + n) as usize) && pos + n <= buf.len(),
            None => r is None,
        },
{
    if pos < buf.len() && buf[pos] == '.' {
        proof {
            assert(buf@.skip(pos as int).skip(1) =~= buf@.skip(pos + 1));
        }
        let end = scan_digits(buf, pos + 1);
        if end == pos + 1 {
            None
        } else {
            Some(end)
        }
    } else {
        Some(pos)
    }
}

/// The end of the exponent that starts at `pos`, which may be empty.
fn scan_exponent(buf: &Vec<char>, pos: usize) -> (r: Option<usize>)
    requires
        pos <= buf.len(),
    ensures
        match exponent_len(buf@.skip(pos as int)) {
            Some(n) => r == Some((pos + n) as usize) && pos + n <= buf.len(),
            None => r is None,
        },
{
    if pos < buf.len() && (buf[pos] == 'e' || buf[pos] == 'E') {
        let digits_start = if pos + 1 < buf.len() && (buf[pos + 1] == '+' || buf[pos + 1] == '-') {
            pos + 2
        } else {
            pos + 1
        };
        proof {
            assert(buf@.skip(pos as int).skip(digits_start - pos) =~= buf@.skip(
                digits_start as int,
            ));
        }
        let end = scan_digits(buf, digits_start);
        if end == digits_start {
            None
        } else {
            Some(end)
        }
    } else {
        Some(pos)
    }
}

/// The end of the numeric literal that starts at `pos`, if one does.
pub fn scan_number(buf: &Vec<char>, pos: usize) -> (r: Option<usize>)
    requires
        pos <= buf.len(),
    ensures
        match number_len(buf@.skip(pos as int)) {
            Some(n) => r == Some((pos + n) as usize) && pos + n <= buf.len(),
            None => r is None,
        },
{
    let ghost s = buf@.skip(pos as int);
    let start = if pos < buf.len() && buf[pos] == '-' {
        pos + 1
    } else {
        pos
    };
    proof {
        assert(s.skip(start - pos) =~= buf@.skip(start as int));
    }
    let int_end = scan_digits(buf, start);
    if int_end == start || (int_end - start > 1 && buf[start] == '0') {
        return None;
    }
    proof {
        assert(s.skip(int_end - pos) =~= buf@.skip(int_end as int));
    }
    match scan_fraction(buf, int_end) {
        None => None,
        Some(fraction_end) => {
            proof {
                assert(s.skip(fraction_end - pos) =~= buf@.skip(fraction_end as int));
            }
            scan_exponent(buf, fraction_end)
        },
    }
}

/// The number that the literal in `buf[start..end]` denotes.
pub fn read_number(buf: &Vec<char>, start: usize, end: usize) -> (r: Number)
    requires
        start <= end <= buf.len(),
        is_number(buf@.subrange(start as int, end as int)),
    ensures
        r@ == number_of(buf@.subrange(start as int, end as int)),
{
    let ghost s = buf@.subrange(start as int, end as int);
    let negative = buf[start] == '-';
    let digits_start = if negative {
        start + 1
    } else {
        start
    };
    proof {
        assert(s[0] == buf@[start as int]);
        assert(s.len() > 0);
    }
    let ghost a = sign_len(s);
    let ghost n = digits_len(s.skip(a as int));
    proof {
        lemma_digits_len(s.skip(a as int));
        lemma_digits_len(buf@.skip(digits_start as int));
        // the run of digits inside the literal is the run in the buffer, cut at `end`
        lemma_digit_run_cut(buf@, digits_start as int, end as int);
        assert(s.skip(a as int) =~= buf@.subrange(digits_start as int, end as int));
    }
    let run_end = scan_digits(buf, digits_start);
    let digits_end = if run_end < end {
        run_end
    } else {
        end
    };
    proof {
        assert(digits_end - digits_start == n);
        assert(s.skip(a as int).take(n as int) =~= buf@.subrange(
            digits_start as int,
            digits_end as int,
        ));
    }
    if digits_end == end {
        match read_decimal(buf, digits_start, digits_end) {
            Some(magnitude) => {
                if negative {
                    if magnitude <= 0x8000_0000_0000_0000 {
                        let value: i64 = if magnitude == 0x8000_0000_0000_0000 {
                            i64::MIN
                        } else {
                            -(magnitude as i64)
                        };
                        return Number::Int(value);
                    }
                } else if magnitude <= 0x7fff_ffff_ffff_ffff {
                    return Number::Int(magnitude as i64);
                }
            },
            None => {},
        }
    }
    Number::Literal(slice_string(buf, start, end))
}

/// The run of digits from `from` on, cut at `to`, is the run within
/// `s[from..to]`.
proof fn lemma_digit_run_cut(s: Seq<char>, from: int, to: int)
    requires
        0 <= from <= to <= s.len(),
    ensures
        digits_len(s.subrange(from, to)) == if digits_len(s.skip(from)) < to - from {
            digits_len(s.skip(from))
        } else {
            (to - from) as nat
        },
    decreases to - from,
{
    let inner = s.subrange(from, to);
    let outer = s.skip(from);
    if from < to {
        assert(inner[0] == outer[0]);
        if is_digit(inner[0]) {
            assert(inner.skip(1) =~= s.subrange(from + 1, to));
            assert(outer.skip(1) =~= s.skip(from + 1));
            lemma_digit_run_cut(s, from + 1, to);
        }
    }
}

/// Appends the text of an integer.
pub fn push_int(out: &mut Vec<char>, i: i64)
    ensures
        final(out)@ == old(out)@ + int_text(i as int),
{
    if i < 0 {
        out.push('-');
        let magnitude: u64 = if i == i64::MIN {
            0x8000_0000_0000_0000
        } else {
            (-i) as u64
        };
        push_decimal(out, magnitude);
        assert(out@ =~= old(out)@ + int_text(i as int));
    } else {
        push_decimal(out, i as u64);
    }
}

impl Number {
    /// The number that `literal` denotes, where it is a numeric literal.
    pub fn parse(literal: &str) -> (r: Option<Number>)
        ensures
            is_number(literal@) ==> (r matches Some(n) && n@ == number_of(literal@)),
            !is_number(literal@) ==> r is None,
    {
        let buf = chars_of(literal);
        assert(buf@.skip(0) =~= buf@);
        assert(buf@.subrange(0, buf.len() as int) =~= buf@);
        match scan_number(&buf, 0) {
            Some(end) => {
                if end == buf.len() {
                    Some(read_number(&buf, 0, end))
                } else {
                    None
                }
            },
            None => None,
        }
    }

    /// Appends the text of the number, where it can be written; else leaves
    /// `out` as it is and says no.
    pub fn write(&self, out: &mut Vec<char>) -> (ok: bool)
        ensures
            ok == self@.writable(),
            ok ==> final(out)@ == old(out)@ + self@.text(),
            !ok ==> final(out)@ == old(out)@,
    {
        match self {
            Number::Int(i) => {
                push_int(out, *i);
                true
            },
            Number::Literal(s) => {
                let buf = chars_of(s.as_str());
                assert(buf@.skip(0) =~= buf@);
                match scan_number(&buf, 0) {
                    Some(end) => {
                        if end == buf.len() {
                            push_all(out, &buf);
                            true
                        } else {
                            false
                        }
                    },
                    None => false,
                }
            },
        }
    }
}

} // verus!

verus! {

/// A run of digits is the same in every prefix that holds it.
proof fn lemma_digits_prefix(s: Seq<char>, k: int)
    requires
        digits_len(s) <= k <= s.len(),
    ensures
        digits_len(s.take(k)) == digits_len(s),
{
    assert(s.skip(0) =~= s);
    assert(s.subrange(0, k) =~= s.take(k));
    lemma_digit_run_cut(s, 0, k);
}

/// A fraction is the same in every prefix that holds it.
proof fn lemma_fraction_prefix(s: Seq<char>, k: int)
    requires
        fraction_len(s) is Some,
        fraction_len(s)->0 <= k <= s.len(),
    ensures
        fraction_len(s.take(k)) == fraction_len(s),
{
    let p = s.take(k);
    if s.len() > 0 && s[0] == '.' {
        lemma_digits_len(s.skip(1));
        assert(p[0] == '.');
        assert(p.skip(1) =~= s.skip(1).take(k - 1));
        lemma_digits_prefix(s.skip(1), k - 1);
    } else if p.len() > 0 {
        assert(p[0] == s[0]);
    }
}

/// An exponent is the same in every prefix that holds it.
proof fn lemma_exponent_prefix(s: Seq<char>, k: int)
    requires
        exponent_len(s) is Some,
        exponent_len(s)->0 <= k <= s.len(),
    ensures
        exponent_len(s.take(k)) == exponent_len(s),
{
    let p = s.take(k);
    if s.len() > 0 && (s[0] == 'e' || s[0] == 'E') {
        let sign: nat = if s.len() > 1 && (s[1] == '+' || s[1] == '-') {
            1
        } else {
            0
        };
        lemma_digits_len(s.skip(1 + sign as int));
        assert(p[0] == s[0]);
        assert(p.len() > 1);
        assert(p[1] == s[1]);
        assert(p.skip(1 + sign as int) =~= s.skip(1 + sign as int).take(k - 1 - sign));
        lemma_digits_prefix(s.skip(1 + sign as int), k - 1 - sign);
    } else if p.len() > 0 {
        assert(p[0] == s[0]);
    }
}

/// The literal that a text starts with is a literal by itself.
pub proof fn lemma_number_prefix(s: Seq<char>)
    requires
        number_len(s) is Some,
    ensures
        number_len(s)->0 <= s.len(),
        is_number(s.take(number_len(s)->0 as int)),
{
    let total = number_len(s)->0 as int;
    let a = sign_len(s) as int;
    let sa = s.skip(a);
    lemma_digits_len(sa);
    let n = digits_len(sa) as int;
    let b = a + n;
    let sb = s.skip(b);
    let f = fraction_len(sb)->0 as int;
    lemma_fraction_bound(sb);
    let c = b + f;
    let sc = s.skip(c);
    lemma_exponent_bound(sc);
    let p = s.take(total);
    assert(sign_len(p) == a);
    assert(p.skip(a) =~= sa.take(total - a));
    lemma_digits_prefix(sa, total - a);
    assert(p[a] == s[a]);
    assert(p.skip(b) =~= sb.take(total - b));
    lemma_fraction_prefix(sb, total - b);
    assert(p.skip(c) =~= sc.take(total - c));
    lemma_exponent_prefix(sc, total - c);
}

/// A fraction is never longer than the text.
proof fn lemma_fraction_bound(s: Seq<char>)
    ensures
        fraction_len(s) matches Some(f) ==> f <= s.len(),
{
    if s.len() > 0 {
        lemma_digits_len(s.skip(1));
    }
}

/// An exponent is never longer than the text.
proof fn lemma_exponent_bound(s: Seq<char>)
    ensures
        exponent_len(s) matches Some(e) ==> e <= s.len(),
{
    if s.len() > 0 {
        lemma_digits_len(s.skip(1));
        if s.len() > 1 {
            lemma_digits_len(s.skip(2));
        }
    }
}

} // verus!

verus! {

/// Whether a tree is held the way a reader would hold it: every number is
/// canonical, and no object has a key twice.
pub open spec fn canonical(v: ValueView) -> bool
    decreases v,
{
    match v {
        ValueView::Number(n) => n.canonical(),
        ValueView::Array(items) => forall|i: int|
            0 <= i < items.len() ==> canonical(#[trigger] items[i]),
        ValueView::Object(entries) => keys_unique(entries) && forall|i: int|
            0 <= i < entries.len() ==> canonical((#[trigger] entries[i]).1),
        _ => true,
    }
}

/// The text of a canonical number is a literal that denotes the number,
/// and starts with a minus sign or a digit.
pub proof fn lemma_number_text(n: NumberView)
    requires
        n.canonical(),
    ensures
        is_number(n.text()),
        number_of(n.text()) == n,
        n.text().len() > 0,
        n.text()[0] == '-' || is_digit(n.text()[0]),
{
    match n {
        NumberView::Int(i) => {
            lemma_int_text(i);
        },
        NumberView::Literal(s) => {},
    }
    let s = n.text();
    let a = sign_len(s);
    lemma_digits_len(s.skip(a as int));
    if a == 0 {
        assert(s.skip(0) =~= s);
    }
}

} // verus!

verus! {

/// A numeric literal holds nothing but digits, signs, a point and the
/// letter of the exponent.
pub proof fn lemma_number_chars(s: Seq<char>)
    requires
        is_number(s),
    ensures
        forall|i: int| 0 <= i < s.len() ==> is_number_char(#[trigger] s[i]),
{
    let a = sign_len(s);
    let sa = s.skip(a as int);
    lemma_digits_len(sa);
    let n = digits_len(sa);
    let b = (a + n) as int;
    let sb = s.skip(b);
    let f = fraction_len(sb)->0;
    if f > 0 {
        lemma_digits_len(sb.skip(1));
    }
    let c = b + f;
    let sc = s.skip(c);
    let e = exponent_len(sc)->0;
    let sign: nat = if sc.len() > 1 && (sc[1] == '+' || sc[1] == '-') {
        1
    } else {
        0
    };
    if e > 0 {
        lemma_digits_len(sc.skip(1 + sign as int));
    }
    assert forall|i: int| 0 <= i < s.len() implies is_number_char(#[trigger] s[i]) by {
        if i < a {
        } else if i < b {
            assert(s[i] == sa.take(n as int)[i - a]);
        } else if i < c {
            if i > b {
                assert(s[i] == sb.skip(1).take(f - 1)[i - b - 1]);
            } else {
                assert(s[i] == sb[0]);
            }
        } else {
            if i == c {
                assert(s[i] == sc[0]);
            } else if i < c + 1 + sign {
                assert(s[i] == sc[1]);
            } else {
                assert(s[i] == sc.skip(1 + sign as int).take(e - 1 - sign)[i - c - 1 - sign]);
            }
        }
    }
}

} // verus!
