//! The XML subset that the library reads, as functions on text.
//!
//! A document is one element, with whitespace, comments and processing
//! instructions around it. An element becomes an entry under its name. An
//! element without attributes and child elements is its text, or null
//! where it has none. Any other element is an object: each attribute under
//! `@` and its name, each child under its name, and the text, where there
//! is any, under `#text`. Where a name comes more than once, it holds the
//! array of its values. Text is taken without the whitespace around it;
//! `&lt;`, `&gt;`, `&amp;`, `&quot;` and `&apos;` stand for their
//! characters.

use crate::error::{prepend, Failure, ParseFault};
use crate::json::syntax::MAX_NESTING;
use crate::text::{is_space, lemma_space_len, starts_with, tail, trim_start};
use crate::value::{key_index, ValueView};
use vstd::prelude::*;

verus! {

/// An entry: a name and what it holds.
pub type Entry = (Seq<char>, ValueView);

/// Whether `c` may stand in a name.
pub open spec fn is_name_char(c: char) -> bool {
    !is_space(c) && c != '<' && c != '>' && c != '/' && c != '=' && c != '"' && c != '\'' && c
        != '&' && c != '!' && c != '?'
}

/// How many name characters `s` starts with.
pub open spec fn name_len(s: Seq<char>) -> nat
    decreases s.len(),
{
    if s.len() > 0 && is_name_char(s[0]) {
        1 + name_len(s.skip(1))
    } else {
        0
    }
}

/// A name is never longer than the text.
pub proof fn lemma_name_len(s: Seq<char>)
    ensures
        name_len(s) <= s.len(),
    decreases s.len(),
{
    if s.len() > 0 && is_name_char(s[0]) {
        lemma_name_len(s.skip(1));
    }
}

/// The place of the first occurrence of `word` in `s`.
pub open spec fn find(s: Seq<char>, word: Seq<char>) -> Option<nat>
    decreases s.len(),
{
    if starts_with(s, word) {
        Some(0)
    } else if s.len() == 0 {
        None
    } else {
        match find(s.skip(1), word) {
            Some(i) => Some(i + 1),
            None => None,
        }
    }
}

/// What is found is within the text.
pub proof fn lemma_find(s: Seq<char>, word: Seq<char>)
    ensures
        find(s, word) matches Some(i) ==> i + word.len() <= s.len(),
    decreases s.len(),
{
    if !starts_with(s, word) && s.len() > 0 {
        lemma_find(s.skip(1), word);
    }
}

/// Skips whitespace, comments and processing instructions: the number of
/// characters that are left behind them.
#[verifier::opaque]
pub open spec fn skip_misc(s: Seq<char>) -> Result<nat, Failure>
    decreases s.len(),
{
    let t = trim_start(s);
    if starts_with(t, seq!['<', '!', '-', '-']) {
        match find(t.skip(4), seq!['-', '-', '>']) {
            None => Err((ParseFault::UnexpectedEnd, 0)),
            Some(i) => {
                proof {
                    lemma_space_len(s);
                    lemma_find(t.skip(4), seq!['-', '-', '>']);
                }
                skip_misc(t.skip(4 + i + 3 as int))
            },
        }
    } else if starts_with(t, seq!['<', '?']) {
        match find(t.skip(2), seq!['?', '>']) {
            None => Err((ParseFault::UnexpectedEnd, 0)),
            Some(i) => {
                proof {
                    lemma_space_len(s);
                    lemma_find(t.skip(2), seq!['?', '>']);
                }
                skip_misc(t.skip(2 + i + 2 as int))
            },
        }
    } else {
        Ok(t.len())
    }
}

/// Reads what follows an ampersand: the character that the reference
/// stands for, and how many characters it takes after the ampersand.
pub open spec fn parse_reference(s: Seq<char>) -> Result<(char, nat), ParseFault> {
    if starts_with(s, seq!['l', 't', ';']) {
        Ok(('<', 3))
    } else if starts_with(s, seq!['g', 't', ';']) {
        Ok(('>', 3))
    } else if starts_with(s, seq!['a', 'm', 'p', ';']) {
        Ok(('&', 4))
    } else if starts_with(s, seq!['q', 'u', 'o', 't', ';']) {
        Ok(('"', 5))
    } else if starts_with(s, seq!['a', 'p', 'o', 's', ';']) {
        Ok(('\'', 5))
    } else {
        Err(ParseFault::InvalidEscape)
    }
}

/// Reads text up to the character `stop`, which is left, or to the end.
#[verifier::opaque]
pub open spec fn parse_text(s: Seq<char>, stop: char) -> Result<(Seq<char>, nat), Failure>
    decreases s.len(),
{
    if s.len() == 0 || s[0] == stop {
        Ok((Seq::empty(), s.len()))
    } else if s[0] == '&' {
        match parse_reference(s.skip(1)) {
            Err(fault) => Err((fault, s.len())),
            Ok((c, n)) => prepend(seq![c], parse_text(s.skip(1 + n as int), stop)),
        }
    } else {
        prepend(seq![s[0]], parse_text(s.skip(1), stop))
    }
}

/// The text without the whitespace at its start and at its end.
pub open spec fn trimmed(text: Seq<char>) -> Seq<char> {
    let t = trim_start(text);
    t.take(kept_len(t) as int)
}

/// The length of `s` without the whitespace at its end.
pub open spec fn kept_len(s: Seq<char>) -> nat
    decreases s.len(),
{
    if s.len() > 0 && is_space(s.last()) {
        kept_len(s.drop_last())
    } else {
        s.len()
    }
}

/// The entries with one more value under `name`: alone where the name is
/// new, else in an array with the values that the name holds already.
pub open spec fn merge(entries: Seq<Entry>, name: Seq<char>, value: ValueView) -> Seq<Entry> {
    match key_index(entries, name) {
        None => entries.push((name, value)),
        Some(i) => match entries[i].1 {
            ValueView::Array(items) => entries.update(i, (name, ValueView::Array(items.push(value)))),
            other => entries.update(i, (name, ValueView::Array(seq![other, value]))),
        },
    }
}

/// What an element is worth: its text where it has nothing else, else
/// the object of its entries, with its text under `#text`.
pub open spec fn element_value(entries: Seq<Entry>, text: Seq<char>) -> ValueView {
    let kept = trimmed(text);
    if entries.len() == 0 {
        if kept.len() == 0 {
            ValueView::Null
        } else {
            ValueView::String(kept)
        }
    } else if kept.len() == 0 {
        ValueView::Object(entries)
    } else {
        ValueView::Object(merge(entries, seq!['#', 't', 'e', 'x', 't'], ValueView::String(kept)))
    }
}

/// How a start tag ended.
pub enum TagEnd {
    /// With `>`: content and an end tag follow.
    Open,
    /// With `/>`: the element is empty.
    Closed,
}

/// Reads the attributes of a start tag and its end, onto the entries
/// `done`.
#[verifier::opaque]
pub open spec fn parse_attributes(s: Seq<char>, done: Seq<Entry>) -> Result<
    ((Seq<Entry>, TagEnd), nat),
    Failure,
>
    decreases s.len(),
{
    let t = trim_start(s);
    if t.len() == 0 {
        Err((ParseFault::UnexpectedEnd, 0))
    } else if t[0] == '>' {
        Ok(((done, TagEnd::Open), (t.len() - 1) as nat))
    } else if t[0] == '/' {
        if t.len() >= 2 && t[1] == '>' {
            Ok(((done, TagEnd::Closed), (t.len() - 2) as nat))
        } else {
            Err((ParseFault::UnexpectedChar, t.len()))
        }
    } else {
        let n = name_len(t);
        let u = trim_start(t.skip(n as int));
        if n == 0 {
            Err((ParseFault::UnexpectedChar, t.len()))
        } else if u.len() == 0 {
            Err((ParseFault::UnexpectedEnd, 0))
        } else if u[0] != '=' {
            Err((ParseFault::UnexpectedChar, u.len()))
        } else {
            let w = trim_start(u.skip(1));
            if w.len() == 0 {
                Err((ParseFault::UnexpectedEnd, 0))
            } else if w[0] != '"' && w[0] != '\'' {
                Err((ParseFault::UnexpectedChar, w.len()))
            } else {
                match parse_text(w.skip(1), w[0]) {
                    Err(e) => Err(e),
                    Ok((value, left)) => {
                        proof {
                            lemma_space_len(s);
                            lemma_name_len(t);
                            lemma_space_len(t.skip(n as int));
                            lemma_space_len(u.skip(1));
                        }
                        if left == 0 {
                            Err((ParseFault::UnexpectedEnd, 0))
                        } else {
                            parse_attributes(
                                tail(w.skip(1), (left - 1) as nat),
                                merge(done, seq!['@'] + t.take(n as int), ValueView::String(value)),
                            )
                        }
                    },
                }
            }
        }
    }
}

/// Reads an element from behind the `<` of its start tag: its name and
/// what it is worth. `budget` is the number of elements that may still be
/// opened inside one another.
#[verifier::opaque]
pub open spec fn parse_element(s: Seq<char>, budget: nat) -> Result<(Entry, nat), Failure>
    decreases s.len(), 1nat,
{
    let n = name_len(s);
    if n == 0 {
        if s.len() == 0 {
            Err((ParseFault::UnexpectedEnd, 0))
        } else {
            Err((ParseFault::UnexpectedChar, s.len()))
        }
    } else {
        let name = s.take(n as int);
        match parse_attributes(s.skip(n as int), Seq::empty()) {
            Err(e) => Err(e),
            Ok(((entries, end), left)) => match end {
                TagEnd::Closed => Ok(((name, element_value(entries, Seq::empty())), left)),
                TagEnd::Open => {
                    if budget == 0 {
                        Err((ParseFault::TooDeep, s.len()))
                    } else {
                        match parse_content(
                            tail(s, left),
                            name,
                            entries,
                            Seq::empty(),
                            (budget - 1) as nat,
                        ) {
                            Err(e) => Err(e),
                            Ok((value, left)) => Ok(((name, value), left)),
                        }
                    }
                },
            },
        }
    }
}

/// Reads the content of the element `name` to behind its end tag, onto
/// the entries and the text that were read already.
#[verifier::opaque]
pub open spec fn parse_content(
    s: Seq<char>,
    name: Seq<char>,
    entries: Seq<Entry>,
    text: Seq<char>,
    budget: nat,
) -> Result<(ValueView, nat), Failure>
    decreases s.len(), 0nat,
{
    match parse_text(s, '<') {
        Err(e) => Err(e),
        Ok((more, left)) => {
            let t = tail(s, left);
            if t.len() == 0 {
                Err((ParseFault::UnexpectedEnd, 0))
            } else if starts_with(t, seq!['<', '/']) {
                let u = t.skip(2);
                if starts_with(u, name) && trim_start(u.skip(name.len() as int)).len() > 0
                    && trim_start(u.skip(name.len() as int))[0] == '>' {
                    Ok(
                        (
                            element_value(entries, text + more),
                            (trim_start(u.skip(name.len() as int)).len() - 1) as nat,
                        ),
                    )
                } else {
                    Err((ParseFault::MismatchedTag, t.len()))
                }
            } else if starts_with(t, seq!['<', '!', '-', '-']) {
                match find(t.skip(4), seq!['-', '-', '>']) {
                    None => Err((ParseFault::UnexpectedEnd, 0)),
                    Some(i) => {
                        proof {
                            lemma_find(t.skip(4), seq!['-', '-', '>']);
                        }
                        parse_content(t.skip(4 + i + 3 as int), name, entries, text + more, budget)
                    },
                }
            } else {
                match parse_element(t.skip(1), budget) {
                    Err(e) => Err(e),
                    Ok((child, left)) => parse_content(
                        tail(t.skip(1), left),
                        name,
                        merge(entries, child.0, child.1),
                        text + more,
                        budget,
                    ),
                }
            }
        },
    }
}

/// Reads a whole text: one element, with nothing but whitespace, comments
/// and processing instructions around it.
pub open spec fn parse_document(s: Seq<char>) -> Result<ValueView, Failure> {
    match skip_misc(s) {
        Err(e) => Err(e),
        Ok(left) => {
            let t = tail(s, left);
            if t.len() == 0 {
                Err((ParseFault::UnexpectedEnd, 0))
            } else if t[0] != '<' {
                Err((ParseFault::UnexpectedChar, t.len()))
            } else {
                match parse_element(t.skip(1), MAX_NESTING as nat) {
                    Err(e) => Err(e),
                    Ok((root, left)) => match skip_misc(tail(t.skip(1), left)) {
                        Err(e) => Err(e),
                        Ok(rest) => if rest == 0 {
                            Ok(ValueView::Object(seq![root]))
                        } else {
                            Err((ParseFault::TrailingCharacters, rest))
                        },
                    },
                }
            }
        },
    }
}

} // verus!
