//! The XML reader.

use crate::error::{
    lemma_prepend_nothing, lemma_prepend_push, parse_error, prepend, Failure, Format, ParseError,
    ParseFault,
};
use crate::json::syntax::MAX_NESTING;
use crate::text::{
    check_space, decode, decoded, has_word, lemma_tail_skip, skip_space, slice_string, starts_with,
    string_of, tail, trim_start,
};
use crate::value::{
    entry_views, find_key, lemma_array_view, lemma_object_view, views, Value, ValueView,
};
use crate::xml::syntax::{
    element_value, find, kept_len, lemma_find, merge, name_len, parse_attributes, parse_content,
    parse_document, parse_element, parse_reference, parse_text, skip_misc, Entry, TagEnd,
};
use vstd::prelude::*;

verus! {

/// The error for a fault met at `position`.
fn fail<T>(position: usize, fault: ParseFault) -> (r: Result<T, ParseError>)
    ensures
        r == Err::<T, ParseError>(ParseError { format: Format::Xml, position, fault }),
{
    Err(ParseError { format: Format::Xml, position, fault })
}

/// The end of the name that starts at `pos`.
fn scan_name(buf: &Vec<char>, pos: usize) -> (end: usize)
    requires
        pos <= buf.len(),
    ensures
        pos <= end <= buf.len(),
        end - pos == name_len(buf@.skip(pos as int)),
{
    let mut i = pos;
    while i < buf.len() && !check_space(buf[i]) && buf[i] != '<' && buf[i] != '>' && buf[i] != '/'
        && buf[i] != '=' && buf[i] != '"' && buf[i] != '\'' && buf[i] != '&' && buf[i] != '!'
        && buf[i] != '?'
        invariant
            pos <= i <= buf.len(),
            name_len(buf@.skip(pos as int)) == (i - pos) + name_len(buf@.skip(i as int)),
        decreases buf.len() - i,
    {
        proof {
            assert(buf@.skip(i as int).skip(1) =~= buf@.skip(i + 1));
        }
        i += 1;
    }
    i
}

/// The place of the first occurrence of `word` from `pos` on.
fn find_word(buf: &Vec<char>, pos: usize, word: &str) -> (r: Option<usize>)
    requires
        pos <= buf.len(),
    ensures
        match find(buf@.skip(pos as int), word@) {
            Some(i) => r == Some((pos + i) as usize) && pos + i + word@.len() <= buf.len(),
            None => r is None,
        },
{
    let mut i = pos;
    loop
        invariant
            pos <= i <= buf.len(),
            find(buf@.skip(pos as int), word@) == match find(buf@.skip(i as int), word@) {
                Some(k) => Some((k + (i - pos)) as nat),
                None => None::<nat>,
            },
        decreases buf.len() - i,
    {
        proof {
            lemma_find(buf@.skip(i as int), word@);
        }
        if has_word(buf, i, word) {
            return Some(i);
        }
        if i >= buf.len() {
            return None;
        }
        proof {
            assert(buf@.skip(i as int).skip(1) =~= buf@.skip(i + 1));
        }
        i += 1;
    }
}

/// Skips whitespace, comments and processing instructions from `pos` on.
fn skip_miscellany(buf: &Vec<char>, pos: usize) -> (r: Result<usize, ParseError>)
    requires
        pos <= buf.len(),
    ensures
        match skip_misc(buf@.skip(pos as int)) {
            Ok(left) => r matches Ok(next) && pos <= next <= buf.len() && next == buf.len() - left,
            Err(failure) => failure.1 <= buf.len() && r == Err::<usize, ParseError>(
                parse_error(Format::Xml, buf@.len(), failure),
            ),
        },
{
    let mut i = pos;
    loop
        invariant
            pos <= i <= buf.len(),
            skip_misc(buf@.skip(i as int)) == skip_misc(buf@.skip(pos as int)),
        decreases buf.len() - i,
    {
        proof {
            reveal(skip_misc);
            reveal_strlit("<!--");
            reveal_strlit("-->");
            reveal_strlit("<?");
            reveal_strlit("?>");
            assert("<!--"@ =~= seq!['<', '!', '-', '-']);
            assert("-->"@ =~= seq!['-', '-', '>']);
            assert("<?"@ =~= seq!['<', '?']);
            assert("?>"@ =~= seq!['?', '>']);
        }
        let p = skip_space(buf, i);
        let ghost t = buf@.skip(p as int);
        if has_word(buf, p, "<!--") {
            proof {
                assert(t.skip(4) =~= buf@.skip(p + 4));
            }
            match find_word(buf, p + 4, "-->") {
                None => {
                    return fail(buf.len(), ParseFault::UnexpectedEnd);
                },
                Some(at) => {
                    proof {
                        assert(t.skip(4 + (at - p - 4) + 3) =~= buf@.skip(at + 3));
                    }
                    i = at + 3;
                },
            }
        } else if has_word(buf, p, "<?") {
            proof {
                assert(t.skip(2) =~= buf@.skip(p + 2));
            }
            match find_word(buf, p + 2, "?>") {
                None => {
                    return fail(buf.len(), ParseFault::UnexpectedEnd);
                },
                Some(at) => {
                    proof {
                        assert(t.skip(2 + (at - p - 2) + 2) =~= buf@.skip(at + 2));
                    }
                    i = at + 2;
                },
            }
        } else {
            return Ok(p);
        }
    }
}

/// Reads what follows an ampersand, from `pos` on.
fn read_reference(buf: &Vec<char>, pos: usize) -> (r: Result<(char, usize), ParseFault>)
    requires
        pos <= buf.len(),
    ensures
        match parse_reference(buf@.skip(pos as int)) {
            Ok((c, n)) => r == Ok::<(char, usize), ParseFault>((c, (pos + n) as usize)) && pos + n
                <= buf.len(),
            Err(fault) => r == Err::<(char, usize), ParseFault>(fault),
        },
{
    proof {
        reveal_strlit("lt;");
        reveal_strlit("gt;");
        reveal_strlit("amp;");
        reveal_strlit("quot;");
        reveal_strlit("apos;");
        assert("lt;"@ =~= seq!['l', 't', ';']);
        assert("gt;"@ =~= seq!['g', 't', ';']);
        assert("amp;"@ =~= seq!['a', 'm', 'p', ';']);
        assert("quot;"@ =~= seq!['q', 'u', 'o', 't', ';']);
        assert("apos;"@ =~= seq!['a', 'p', 'o', 's', ';']);
    }
    if has_word(buf, pos, "lt;") {
        Ok(('<', pos + 3))
    } else if has_word(buf, pos, "gt;") {
        Ok(('>', pos + 3))
    } else if has_word(buf, pos, "amp;") {
        Ok(('&', pos + 4))
    } else if has_word(buf, pos, "quot;") {
        Ok(('"', pos + 5))
    } else if has_word(buf, pos, "apos;") {
        Ok(('\'', pos + 5))
    } else {
        Err(ParseFault::InvalidEscape)
    }
}

/// One step of reading text.
proof fn lemma_text_step(s: Seq<char>, stop: char, done: Seq<char>)
    ensures
        s.len() == 0 || s[0] == stop ==> prepend(done, parse_text(s, stop)) == Ok::<
            (Seq<char>, nat),
            Failure,
        >((done, s.len())),
        s.len() > 0 && s[0] != stop && s[0] != '&' ==> prepend(done, parse_text(s, stop))
            == prepend(done.push(s[0]), parse_text(s.skip(1), stop)),
        s.len() > 0 && s[0] != stop && s[0] == '&' ==> match parse_reference(s.skip(1)) {
            Err(fault) => parse_text(s, stop) == Err::<(Seq<char>, nat), Failure>((fault, s.len())),
            Ok((c, n)) => prepend(done, parse_text(s, stop)) == prepend(
                done.push(c),
                parse_text(s.skip(1 + n as int), stop),
            ),
        },
{
    reveal(parse_text);
    assert(done + Seq::<char>::empty() =~= done);
    if s.len() > 0 && s[0] != stop {
        if s[0] == '&' {
            if let Ok((c, n)) = parse_reference(s.skip(1)) {
                lemma_prepend_push(done, c, parse_text(s.skip(1 + n as int), stop));
            }
        } else {
            lemma_prepend_push(done, s[0], parse_text(s.skip(1), stop));
        }
    }
}

/// Reads text from `pos` up to the character `stop` and appends it.
fn read_text(buf: &Vec<char>, pos: usize, stop: char, out: &mut Vec<char>) -> (r: Result<
    usize,
    ParseError,
>)
    requires
        pos <= buf.len(),
    ensures
        match parse_text(buf@.skip(pos as int), stop) {
            Ok((text, left)) => r matches Ok(next) && final(out)@ == old(out)@ + text && pos
                <= next <= buf.len() && next == buf.len() - left,
            Err(failure) => failure.1 <= buf.len() && r == Err::<usize, ParseError>(
                parse_error(Format::Xml, buf@.len(), failure),
            ),
        },
{
    let ghost goal = parse_text(buf@.skip(pos as int), stop);
    let ghost mut done: Seq<char> = Seq::empty();
    let mut i = pos;
    proof {
        lemma_prepend_nothing(goal);
        assert(out@ =~= old(out)@ + done);
    }
    loop
        invariant
            pos <= i <= buf.len(),
            goal == parse_text(buf@.skip(pos as int), stop),
            prepend(done, parse_text(buf@.skip(i as int), stop)) == goal,
            out@ == old(out)@ + done,
        decreases buf.len() - i,
    {
        let ghost s = buf@.skip(i as int);
        proof {
            lemma_text_step(s, stop, done);
        }
        if i >= buf.len() || buf[i] == stop {
            return Ok(i);
        }
        let c = buf[i];
        if c == '&' {
            proof {
                assert(s.skip(1) =~= buf@.skip(i + 1));
            }
            match read_reference(buf, i + 1) {
                Err(fault) => {
                    return fail(i, fault);
                },
                Ok((ch, next)) => {
                    proof {
                        assert(s.skip(1 + (next - i - 1)) =~= buf@.skip(next as int));
                        assert(out@.push(ch) =~= old(out)@ + done.push(ch));
                        done = done.push(ch);
                    }
                    out.push(ch);
                    i = next;
                },
            }
        } else {
            proof {
                assert(s.skip(1) =~= buf@.skip(i + 1));
                assert(out@.push(c) =~= old(out)@ + done.push(c));
                done = done.push(c);
            }
            out.push(c);
            i += 1;
        }
    }
}

/// Puts one more value under `name`.
fn merge_entry(entries: &mut Vec<(String, Value)>, name: String, value: Value)
    ensures
        entry_views(final(entries)@) == merge(entry_views(old(entries)@), name@, value@),
{
    match find_key(entries, &name) {
        None => {
            entries.push((name, value));
            assert(entry_views(entries@) =~= merge(entry_views(old(entries)@), name@, value@));
        },
        Some(i) => {
            let ghost before = entry_views(entries@);
            let (_, held) = entries.remove(i);
            let ghost held_view = held@;
            assert(held_view == before[i as int].1);
            let joined = match held {
                Value::Array(mut items) => {
                    proof {
                        lemma_array_view(items);
                    }
                    let ghost old_items = views(items@);
                    items.push(value);
                    proof {
                        lemma_array_view(items);
                        assert(views(items@) =~= old_items.push(value@));
                    }
                    Value::Array(items)
                },
                other => {
                    let ghost other_view = other@;
                    let mut items: Vec<Value> = Vec::new();
                    items.push(other);
                    items.push(value);
                    proof {
                        lemma_array_view(items);
                        assert(views(items@) =~= seq![other_view, value@]);
                    }
                    Value::Array(items)
                },
            };
            entries.insert(i, (name, joined));
            assert(entry_views(entries@) =~= merge(before, name@, value@));
        },
    }
}

/// The end of `text` without the whitespace at its end.
fn kept_end(text: &Vec<char>, start: usize) -> (end: usize)
    requires
        start <= text.len(),
    ensures
        start <= end <= text.len(),
        end - start == kept_len(text@.skip(start as int)),
{
    let mut i = text.len();
    let ghost whole = text@.skip(start as int);
    assert(whole =~= text@.subrange(start as int, text.len() as int));
    while i > start && check_space(text[i - 1])
        invariant
            start <= i <= text.len(),
            kept_len(text@.skip(start as int)) == kept_len(text@.subrange(start as int, i as int)),
        decreases i,
    {
        proof {
            assert(text@.subrange(start as int, i as int).drop_last() =~= text@.subrange(
                start as int,
                i - 1,
            ));
        }
        i -= 1;
    }
    proof {
        let s = text@.subrange(start as int, i as int);
        if i > start {
            assert(s.last() == text@[i - 1]);
        }
    }
    i
}

/// What an element with the given entries and text is worth.
fn make_value(entries: Vec<(String, Value)>, text: &Vec<char>) -> (r: Value)
    ensures
        r@ == element_value(entry_views(entries@), text@),
{
    let start = skip_space(text, 0);
    proof {
        assert(text@.skip(0) =~= text@);
    }
    let end = kept_end(text, start);
    proof {
        assert(text@.skip(start as int).take(end - start) =~= text@.subrange(
            start as int,
            end as int,
        ));
    }
    let mut entries = entries;
    if entries.len() == 0 {
        if end == start {
            Value::Null
        } else {
            Value::String(slice_string(text, start, end))
        }
    } else {
        if end > start {
            proof {
                reveal_strlit("#text");
                assert("#text"@ =~= seq!['#', 't', 'e', 'x', 't']);
            }
            merge_entry(
                &mut entries,
                "#text".to_owned(),
                Value::String(slice_string(text, start, end)),
            );
        }
        proof {
            lemma_object_view(entries);
        }
        Value::Object(entries)
    }
}

/// The name of an attribute as a key.
fn attribute_key(buf: &Vec<char>, start: usize, end: usize) -> (key: String)
    requires
        start <= end <= buf.len(),
    ensures
        key@ == seq!['@'] + buf@.subrange(start as int, end as int),
{
    let mut key = String::new();
    key.push('@');
    let mut i = start;
    assert(key@ =~= seq!['@'] + buf@.subrange(start as int, start as int));
    while i < end
        invariant
            start <= i <= end <= buf.len(),
            key@ == seq!['@'] + buf@.subrange(start as int, i as int),
        decreases end - i,
    {
        key.push(buf[i]);
        i += 1;
        assert(key@ =~= seq!['@'] + buf@.subrange(start as int, i as int));
    }
    key
}

/// Reads the attributes of a start tag and its end, from `pos` on, onto
/// `entries`.
fn read_attributes(buf: &Vec<char>, pos: usize, entries: &mut Vec<(String, Value)>) -> (r: Result<
    (TagEnd, usize),
    ParseError,
>)
    requires
        pos <= buf.len(),
    ensures
        match parse_attributes(buf@.skip(pos as int), entry_views(old(entries)@)) {
            Ok(((all, end), left)) => r matches Ok((e, next)) && e == end && entry_views(
                final(entries)@,
            ) == all && pos < next <= buf.len() && next == buf.len() - left,
            Err(failure) => failure.1 <= buf.len() && r == Err::<(TagEnd, usize), ParseError>(
                parse_error(Format::Xml, buf@.len(), failure),
            ),
        },
{
    let ghost goal = parse_attributes(buf@.skip(pos as int), entry_views(entries@));
    let mut i = pos;
    loop
        invariant
            pos <= i <= buf.len(),
            goal == parse_attributes(buf@.skip(pos as int), entry_views(old(entries)@)),
            parse_attributes(buf@.skip(i as int), entry_views(entries@)) == goal,
        decreases buf.len() - i,
    {
        proof {
            reveal(parse_attributes);
        }
        let t = skip_space(buf, i);
        if t >= buf.len() {
            return fail(buf.len(), ParseFault::UnexpectedEnd);
        }
        let c = buf[t];
        if c == '>' {
            return Ok((TagEnd::Open, t + 1));
        }
        if c == '/' {
            if t + 1 < buf.len() && buf[t + 1] == '>' {
                return Ok((TagEnd::Closed, t + 2));
            }
            return fail(t, ParseFault::UnexpectedChar);
        }
        let name_end = scan_name(buf, t);
        if name_end == t {
            return fail(t, ParseFault::UnexpectedChar);
        }
        proof {
            assert(buf@.skip(t as int).skip(name_end - t) =~= buf@.skip(name_end as int));
            assert(buf@.skip(t as int).take(name_end - t) =~= buf@.subrange(
                t as int,
                name_end as int,
            ));
        }
        let u = skip_space(buf, name_end);
        if u >= buf.len() {
            return fail(buf.len(), ParseFault::UnexpectedEnd);
        }
        if buf[u] != '=' {
            return fail(u, ParseFault::UnexpectedChar);
        }
        proof {
            assert(buf@.skip(u as int).skip(1) =~= buf@.skip(u + 1));
        }
        let w = skip_space(buf, u + 1);
        if w >= buf.len() {
            return fail(buf.len(), ParseFault::UnexpectedEnd);
        }
        let quote = buf[w];
        if quote != '"' && quote != '\'' {
            return fail(w, ParseFault::UnexpectedChar);
        }
        proof {
            assert(buf@.skip(w as int).skip(1) =~= buf@.skip(w + 1));
        }
        let mut text: Vec<char> = Vec::new();
        match read_text(buf, w + 1, quote, &mut text) {
            Err(e) => {
                return Err(e);
            },
            Ok(close) => {
                if close >= buf.len() {
                    return fail(buf.len(), ParseFault::UnexpectedEnd);
                }
                proof {
                    assert(text@ =~= Seq::<char>::empty() + text@);
                    lemma_tail_skip(buf@, w + 1, close + 1);
                }
                let key = attribute_key(buf, t, name_end);
                merge_entry(entries, key, Value::String(string_of(&text)));
                i = close + 1;
            },
        }
    }
}

/// Reads an element from behind the `<` of its start tag, at `pos`.
fn read_element(buf: &Vec<char>, pos: usize, budget: usize) -> (r: Result<
    (String, Value, usize),
    ParseError,
>)
    requires
        pos <= buf.len(),
    ensures
        match parse_element(buf@.skip(pos as int), budget as nat) {
            Ok((entry, left)) => r matches Ok((name, value, next)) && (name@, value@) == entry
                && pos < next <= buf.len() && next == buf.len() - left,
            Err(failure) => failure.1 <= buf.len() && r == Err::<
                (String, Value, usize),
                ParseError,
            >(parse_error(Format::Xml, buf@.len(), failure)),
        },
    decreases budget, 0nat,
{
    proof {
        reveal(parse_element);
        reveal(parse_content);
    }
    let ghost s = buf@.skip(pos as int);
    let name_end = scan_name(buf, pos);
    if name_end == pos {
        if pos == buf.len() {
            return fail(buf.len(), ParseFault::UnexpectedEnd);
        }
        return fail(pos, ParseFault::UnexpectedChar);
    }
    let name = slice_string(buf, pos, name_end);
    proof {
        assert(s.take(name_end - pos) =~= buf@.subrange(pos as int, name_end as int));
        assert(s.skip(name_end - pos) =~= buf@.skip(name_end as int));
    }
    let mut entries: Vec<(String, Value)> = Vec::new();
    assert(entry_views(entries@) =~= Seq::<Entry>::empty());
    match read_attributes(buf, name_end, &mut entries) {
        Err(e) => Err(e),
        Ok((TagEnd::Closed, next)) => {
            let text: Vec<char> = Vec::new();
            assert(text@ =~= Seq::<char>::empty());
            Ok((name, make_value(entries, &text), next))
        },
        Ok((TagEnd::Open, next)) => {
            if budget == 0 {
                return fail(pos, ParseFault::TooDeep);
            }
            proof {
                lemma_tail_skip(buf@, pos as int, next as int);
            }
            match read_content(buf, next, &name, entries, budget - 1) {
                Err(e) => Err(e),
                Ok((value, after)) => Ok((name, value, after)),
            }
        },
    }
}

/// What reading content comes to behind the text that it starts with.
pub open spec fn content_step(
    s: Seq<char>,
    name: Seq<char>,
    entries: Seq<Entry>,
    text: Seq<char>,
    budget: nat,
) -> Result<(ValueView, nat), Failure> {
    match parse_text(s, '<') {
        Err(e) => Err(e),
        Ok((more, left)) => {
            let t = tail(s, left);
            if t.len() == 0 {
                Err((ParseFault::UnexpectedEnd, 0))
            } else if starts_with(t, seq!['<', '/']) {
                let u = t.skip(2);
                if starts_with(u, name) && trim_start(u.skip(name.len() as int)).len() > 0
                    && trim_start(u.skip(name.len() as int))[0] == '>' {
                    Ok(
                        (
                            element_value(entries, text + more),
                            (trim_start(u.skip(name.len() as int)).len() - 1) as nat,
                        ),
                    )
                } else {
                    Err((ParseFault::MismatchedTag, t.len()))
                }
            } else if starts_with(t, seq!['<', '!', '-', '-']) {
                match find(t.skip(4), seq!['-', '-', '>']) {
                    None => Err((ParseFault::UnexpectedEnd, 0)),
                    Some(i) => parse_content(
                        t.skip(4 + i + 3 as int),
                        name,
                        entries,
                        text + more,
                        budget,
                    ),
                }
            } else {
                match parse_element(t.skip(1), budget) {
                    Err(e) => Err(e),
                    Ok((child, left)) => parse_content(
                        tail(t.skip(1), left),
                        name,
                        merge(entries, child.0, child.1),
                        text + more,
                        budget,
                    ),
                }
            }
        },
    }
}

/// Reading content is reading its text and then what is behind it.
proof fn lemma_content_step(
    s: Seq<char>,
    name: Seq<char>,
    entries: Seq<Entry>,
    text: Seq<char>,
    budget: nat,
)
    ensures
        parse_content(s, name, entries, text, budget) == content_step(
            s,
            name,
            entries,
            text,
            budget,
        ),
{
    reveal(parse_content);
    reveal(parse_element);
}

/// Reads the content of the element `name` from `pos` to behind its end
/// tag, onto the entries that its attributes gave.
fn read_content(
    buf: &Vec<char>,
    pos: usize,
    name: &String,
    attributes: Vec<(String, Value)>,
    budget: usize,
) -> (r: Result<(Value, usize), ParseError>)
    requires
        pos <= buf.len(),
    ensures
        match parse_content(
            buf@.skip(pos as int),
            name@,
            entry_views(attributes@),
            Seq::empty(),
            budget as nat,
        ) {
            Ok((value, left)) => r matches Ok((v, next)) && v@ == value && pos <= next <= buf.len()
                && next == buf.len() - left,
            Err(failure) => failure.1 <= buf.len() && r == Err::<(Value, usize), ParseError>(
                parse_error(Format::Xml, buf@.len(), failure),
            ),
        },
    decreases budget, 1nat,
{
    let ghost goal = parse_content(
        buf@.skip(pos as int),
        name@,
        entry_views(attributes@),
        Seq::empty(),
        budget as nat,
    );
    let ghost given = entry_views(attributes@);
    let mut entries = attributes;
    let mut text: Vec<char> = Vec::new();
    let mut i = pos;
    assert(text@ =~= Seq::<char>::empty());
    loop
        invariant
            pos <= i <= buf.len(),
            given == entry_views(attributes@),
            goal == parse_content(buf@.skip(pos as int), name@, given, Seq::empty(), budget as nat),
            parse_content(buf@.skip(i as int), name@, entry_views(entries@), text@, budget as nat)
                == goal,
        decreases buf.len() - i,
    {
        proof {
            lemma_content_step(
                buf@.skip(i as int),
                name@,
                entry_views(entries@),
                text@,
                budget as nat,
            );
            reveal_strlit("</");
            reveal_strlit("<!--");
            reveal_strlit("-->");
            assert("</"@ =~= seq!['<', '/']);
            assert("<!--"@ =~= seq!['<', '!', '-', '-']);
            assert("-->"@ =~= seq!['-', '-', '>']);
        }
        let t = match read_text(buf, i, '<', &mut text) {
            Err(e) => {
                return Err(e);
            },
            Ok(t) => t,
        };
        proof {
            lemma_tail_skip(buf@, i as int, t as int);
        }
        let ghost s = buf@.skip(t as int);
        if t >= buf.len() {
            return fail(buf.len(), ParseFault::UnexpectedEnd);
        }
        if has_word(buf, t, "</") {
            proof {
                assert(s.skip(2) =~= buf@.skip(t + 2));
            }
            if has_word(buf, t + 2, name.as_str()) {
                let n = name.as_str().unicode_len();
                proof {
                    assert(buf@.skip(t + 2).skip(n as int) =~= buf@.skip(t + 2 + n));
                }
                let close = skip_space(buf, t + 2 + n);
                if close < buf.len() && buf[close] == '>' {
                    return Ok((make_value(entries, &text), close + 1));
                }
            }
            return fail(t, ParseFault::MismatchedTag);
        } else if has_word(buf, t, "<!--") {
            proof {
                assert(s.skip(4) =~= buf@.skip(t + 4));
            }
            match find_word(buf, t + 4, "-->") {
                None => {
                    return fail(buf.len(), ParseFault::UnexpectedEnd);
                },
                Some(at) => {
                    proof {
                        assert(s.skip(4 + (at - t - 4) + 3) =~= buf@.skip(at + 3));
                    }
                    i = at + 3;
                },
            }
        } else {
            proof {
                assert(s.skip(1) =~= buf@.skip(t + 1));
            }
            match read_element(buf, t + 1, budget) {
                Err(e) => {
                    return Err(e);
                },
                Ok((child, value, next)) => {
                    proof {
                        lemma_tail_skip(buf@, t + 1, next as int);
                    }
                    merge_entry(&mut entries, child, value);
                    i = next;
                },
            }
        }
    }
}

/// Reads a whole text as one XML document.
pub fn read_document(buf: &Vec<char>) -> (r: Result<Value, ParseError>)
    ensures
        match parse_document(buf@) {
            Ok(value) => r matches Ok(v) && v@ == value,
            Err(failure) => r == Err::<Value, ParseError>(
                parse_error(Format::Xml, buf@.len(), failure),
            ),
        },
{
    assert(buf@.skip(0) =~= buf@);
    let start = match skip_miscellany(buf, 0) {
        Err(e) => {
            return Err(e);
        },
        Ok(start) => start,
    };
    proof {
        lemma_tail_skip(buf@, 0, start as int);
    }
    if start >= buf.len() {
        return fail(buf.len(), ParseFault::UnexpectedEnd);
    }
    if buf[start] != '<' {
        return fail(start, ParseFault::UnexpectedChar);
    }
    proof {
        assert(buf@.skip(start as int).skip(1) =~= buf@.skip(start + 1));
    }
    match read_element(buf, start + 1, MAX_NESTING) {
        Err(e) => Err(e),
        Ok((name, value, next)) => {
            proof {
                lemma_tail_skip(buf@, start + 1, next as int);
            }
            match skip_miscellany(buf, next) {
                Err(e) => Err(e),
                Ok(end) => {
                    if end == buf.len() {
                        let mut entries: Vec<(String, Value)> = Vec::new();
                        entries.push((name, value));
                        proof {
                            lemma_object_view(entries);
                            assert(entry_views(entries@) =~= seq![(name@, value@)]);
                        }
                        Ok(Value::Object(entries))
                    } else {
                        fail(end, ParseFault::TrailingCharacters)
                    }
                },
            }
        },
    }
}

/// What a byte buffer denotes as XML.
pub open spec fn parse_bytes(bytes: Seq<u8>) -> Result<ValueView, ParseError> {
    match decoded(bytes) {
        None => Err(ParseError { format: Format::Xml, position: 0, fault: ParseFault::InvalidUtf8 }),
        Some(text) => match parse_document(text) {
            Ok(value) => Ok(value),
            Err(failure) => Err(parse_error(Format::Xml, text.len(), failure)),
        },
    }
}

/// Reads a byte buffer as one XML document.
pub fn parse(input: &[u8]) -> (r: Result<Value, ParseError>)
    ensures
        match parse_bytes(input@) {
            Ok(value) => r matches Ok(v) && v@ == value,
            Err(e) => r == Err::<Value, ParseError>(e),
        },
{
    match decode(input) {
        None => fail(0, ParseFault::InvalidUtf8),
        Some(buf) => read_document(&buf),
    }
}

} // verus!
