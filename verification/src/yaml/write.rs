//! The YAML writer: block style, two blanks for each level.
//!
//! An array or object that is not empty is written as a block, one line
//! for each item or entry, with nested blocks on the lines below. All else
//! is written on one line: `null`, `true`, `false`, a number, a string
//! (bare where a reader takes the bare text for the same string, else in
//! double quotes), `[]` and `{}`.

use crate::error::{EncodeError, EncodeFault, Format};
use crate::json::write::{
    lemma_writable_entry, lemma_writable_item, push_quoted, quote, writable,
};
use crate::text::{chars_of, has_text, push_all, push_str, string_of};
use crate::value::{entry_views, lemma_array_view, lemma_object_view, views, Number, Value, ValueView};
use crate::yaml::syntax::{plain_value, Line};
use vstd::prelude::*;

verus! {

/// Whether the value is written as a block: it is an array or an object
/// and is not empty.
pub open spec fn is_block(v: ValueView) -> bool {
    match v {
        ValueView::Array(items) => items.len() > 0,
        ValueView::Object(entries) => entries.len() > 0,
        _ => false,
    }
}

/// Whether `c` is a letter of the basic alphabet or an underscore.
pub open spec fn is_word_start(c: char) -> bool {
    ('a' <= c <= 'z') || ('A' <= c <= 'Z') || c == '_'
}

/// Whether `c` may stand in a bare string.
pub open spec fn is_plain_char(c: char) -> bool {
    ' ' <= c && c != '"' && c != '#' && c != ':'
}

/// Whether a string can be written bare: it starts with a letter, holds
/// no control character, quote, colon or number sign, ends with no blank,
/// and a reader takes it for a string.
pub open spec fn plain_safe(s: Seq<char>) -> bool {
    &&& s.len() > 0
    &&& is_word_start(s[0])
    &&& forall|i: int| 0 <= i < s.len() ==> is_plain_char(#[trigger] s[i])
    &&& s.last() != ' '
    &&& plain_value(s) is String
}

/// The text of a string: bare where that is safe, else in quotes.
pub open spec fn string_text(s: Seq<char>) -> Seq<char> {
    if plain_safe(s) {
        s
    } else {
        quote(s)
    }
}

/// The text of a value that is written on one line.
pub open spec fn scalar_text(v: ValueView) -> Seq<char> {
    match v {
        ValueView::Null => seq!['n', 'u', 'l', 'l'],
        ValueView::Bool(b) => if b {
            seq!['t', 'r', 'u', 'e']
        } else {
            seq!['f', 'a', 'l', 's', 'e']
        },
        ValueView::Number(n) => n.text(),
        ValueView::String(s) => string_text(s),
        ValueView::Array(_) => seq!['[', ']'],
        ValueView::Object(_) => seq!['{', '}'],
    }
}

/// The lines of a block at the given indentation.
pub open spec fn encode_block(v: ValueView, indent: nat) -> Seq<Line>
    decreases v, 0nat,
{
    match v {
        ValueView::Array(items) => encode_items(items, indent, 0),
        ValueView::Object(entries) => encode_entries(entries, indent, 0),
        _ => Seq::empty(),
    }
}

/// The lines of one item of a sequence.
pub open spec fn encode_item(item: ValueView, indent: nat) -> Seq<Line>
    decreases item, 1nat,
{
    if is_block(item) {
        seq![Line { indent, content: seq!['-'] }] + encode_block(item, indent + 2)
    } else {
        seq![Line { indent, content: seq!['-', ' '] + scalar_text(item) }]
    }
}

/// The lines of the items from `from` on.
pub open spec fn encode_items(items: Seq<ValueView>, indent: nat, from: nat) -> Seq<Line>
    decreases items, items.len() - from,
{
    if from >= items.len() {
        Seq::empty()
    } else {
        encode_item(items[from as int], indent) + encode_items(items, indent, from + 1)
    }
}

/// The lines of one entry of a mapping.
pub open spec fn encode_entry(entry: (Seq<char>, ValueView), indent: nat) -> Seq<Line>
    decreases entry, 1nat,
{
    if is_block(entry.1) {
        seq![Line { indent, content: string_text(entry.0) + seq![':'] }] + encode_block(
            entry.1,
            indent + 2,
        )
    } else {
        seq![Line { indent, content: string_text(entry.0) + seq![':', ' '] + scalar_text(entry.1) }]
    }
}

/// The lines of the entries from `from` on.
pub open spec fn encode_entries(entries: Seq<(Seq<char>, ValueView)>, indent: nat, from: nat) -> Seq<
    Line,
>
    decreases entries, entries.len() - from,
{
    if from >= entries.len() {
        Seq::empty()
    } else {
        encode_entry(entries[from as int], indent) + encode_entries(entries, indent, from + 1)
    }
}

/// The lines of a document.
pub open spec fn encode_lines(v: ValueView) -> Seq<Line> {
    if is_block(v) {
        encode_block(v, 0)
    } else {
        seq![Line { indent: 0, content: scalar_text(v) }]
    }
}

/// `n` blanks.
pub open spec fn blanks(n: nat) -> Seq<char> {
    Seq::new(n, |i: int| ' ')
}

/// The text of one line, with its line feed.
pub open spec fn render_line(line: Line) -> Seq<char> {
    blanks(line.indent) + line.content + seq!['\n']
}

/// The text of lines.
pub open spec fn render(lines: Seq<Line>) -> Seq<char>
    decreases lines.len(),
{
    if lines.len() == 0 {
        Seq::empty()
    } else {
        render_line(lines[0]) + render(lines.skip(1))
    }
}

/// The text of a document.
pub open spec fn encode(v: ValueView) -> Seq<char> {
    render(encode_lines(v))
}

/// The text of lines put together is the texts put together.
pub proof fn lemma_render_add(a: Seq<Line>, b: Seq<Line>)
    ensures
        render(a + b) == render(a) + render(b),
    decreases a.len(),
{
    if a.len() == 0 {
        assert(a + b =~= b);
        assert(render(a) + render(b) =~= render(b));
    } else {
        assert((a + b)[0] == a[0]);
        assert((a + b).skip(1) =~= a.skip(1) + b);
        lemma_render_add(a.skip(1), b);
        assert(render_line(a[0]) + (render(a.skip(1)) + render(b)) =~= render_line(a[0]) + render(
            a.skip(1),
        ) + render(b));
    }
}

/// The text of a single line.
pub proof fn lemma_render_one(line: Line)
    ensures
        render(seq![line]) == render_line(line),
{
    assert(seq![line].skip(1) =~= Seq::<Line>::empty());
    assert(render(Seq::<Line>::empty()) =~= Seq::<char>::empty());
    assert(render_line(line) + Seq::<char>::empty() =~= render_line(line));
}

/// Whether a string can be written bare.
pub(crate) fn check_plain(text: &Vec<char>, s: &str) -> (r: bool)
    requires
        text@ == s@,
    ensures
        r == plain_safe(s@),
{
    if text.len() == 0 {
        return false;
    }
    let first = text[0];
    if !(('a' <= first && first <= 'z') || ('A' <= first && first <= 'Z') || first == '_') {
        return false;
    }
    let mut i: usize = 0;
    while i < text.len()
        invariant
            i <= text.len(),
            text@ == s@,
            forall|j: int| 0 <= j < i ==> is_plain_char(#[trigger] text@[j]),
        decreases text.len() - i,
    {
        let c = text[i];
        if c < ' ' || c == '"' || c == '#' || c == ':' {
            assert(!is_plain_char(text@[i as int]));
            return false;
        }
        i += 1;
    }
    if text[text.len() - 1] == ' ' {
        return false;
    }
    proof {
        reveal_strlit("null");
        reveal_strlit("~");
        reveal_strlit("true");
        reveal_strlit("false");
        assert("null"@ =~= seq!['n', 'u', 'l', 'l']);
        assert("~"@ =~= seq!['~']);
        assert("true"@ =~= seq!['t', 'r', 'u', 'e']);
        assert("false"@ =~= seq!['f', 'a', 'l', 's', 'e']);
    }
    if has_text(text, "null") || has_text(text, "~") || has_text(text, "true") || has_text(
        text,
        "false",
    ) {
        return false;
    }
    match Number::parse(s) {
        Some(_) => false,
        None => true,
    }
}

/// Appends the text of a string.
fn push_string(out: &mut Vec<char>, s: &str)
    ensures
        final(out)@ == old(out)@ + string_text(s@),
{
    let text = chars_of(s);
    if check_plain(&text, s) {
        push_all(out, &text);
    } else {
        push_quoted(out, s);
    }
}

/// Appends the text of a value that is written on one line, where its
/// number can be written.
fn push_scalar(out: &mut Vec<char>, v: &Value) -> (ok: bool)
    requires
        !is_block(v@),
    ensures
        ok == writable(v@),
        ok ==> final(out)@ == old(out)@ + scalar_text(v@),
{
    proof {
        reveal_strlit("null");
        reveal_strlit("true");
        reveal_strlit("false");
        reveal_strlit("[]");
        reveal_strlit("{}");
        assert("null"@ =~= seq!['n', 'u', 'l', 'l']);
        assert("true"@ =~= seq!['t', 'r', 'u', 'e']);
        assert("false"@ =~= seq!['f', 'a', 'l', 's', 'e']);
        assert("[]"@ =~= seq!['[', ']']);
        assert("{}"@ =~= seq!['{', '}']);
    }
    match v {
        Value::Null => {
            push_str(out, "null");
            true
        },
        Value::Bool(b) => {
            if *b {
                push_str(out, "true");
            } else {
                push_str(out, "false");
            }
            true
        },
        Value::Number(n) => n.write(out),
        Value::String(s) => {
            push_string(out, s.as_str());
            true
        },
        Value::Array(items) => {
            proof {
                lemma_array_view(*items);
            }
            push_str(out, "[]");
            true
        },
        Value::Object(entries) => {
            proof {
                lemma_object_view(*entries);
            }
            push_str(out, "{}");
            true
        },
    }
}

/// Whether the value is written as a block.
fn check_block(v: &Value) -> (r: bool)
    ensures
        r == is_block(v@),
{
    match v {
        Value::Array(items) => {
            proof {
                lemma_array_view(*items);
            }
            items.len() > 0
        },
        Value::Object(entries) => {
            proof {
                lemma_object_view(*entries);
            }
            entries.len() > 0
        },
        _ => false,
    }
}

/// Appends the lines of one item of a sequence.
fn write_item(item: &Value, pad: &Vec<char>, out: &mut Vec<char>) -> (ok: bool)
    requires
        pad@ == blanks(pad@.len()),
    ensures
        ok == writable(item@),
        ok ==> final(out)@ == old(out)@ + render(encode_item(item@, pad@.len())),
    decreases item, 1nat,
{
    let ghost indent = pad@.len();
    push_all(out, pad);
    out.push('-');
    if check_block(item) {
        out.push('\n');
        let ghost head = Line { indent, content: seq!['-'] };
        let ghost middle = out@;
        let mut deeper = pad.clone();
        deeper.push(' ');
        deeper.push(' ');
        proof {
            assert(middle =~= old(out)@ + render_line(head));
            assert(deeper@ =~= blanks(indent + 2));
            lemma_render_one(head);
            lemma_render_add(seq![head], encode_block(item@, indent + 2));
        }
        if !write_block(item, &deeper, out) {
            return false;
        }
        proof {
            assert(out@ =~= old(out)@ + (render_line(head) + render(
                encode_block(item@, indent + 2),
            )));
        }
        true
    } else {
        out.push(' ');
        let ghost middle = out@;
        if !push_scalar(out, item) {
            return false;
        }
        out.push('\n');
        proof {
            let line = Line { indent, content: seq!['-', ' '] + scalar_text(item@) };
            lemma_render_one(line);
            assert(out@ =~= old(out)@ + render_line(line));
        }
        true
    }
}

/// Appends the lines of one entry of a mapping.
fn write_entry(key: &String, value: &Value, pad: &Vec<char>, out: &mut Vec<char>) -> (ok: bool)
    requires
        pad@ == blanks(pad@.len()),
    ensures
        ok == writable(value@),
        ok ==> final(out)@ == old(out)@ + render(encode_entry((key@, value@), pad@.len())),
    decreases value, 1nat,
{
    let ghost indent = pad@.len();
    push_all(out, pad);
    push_string(out, key.as_str());
    out.push(':');
    if check_block(value) {
        out.push('\n');
        let ghost head = Line { indent, content: string_text(key@) + seq![':'] };
        let mut deeper = pad.clone();
        deeper.push(' ');
        deeper.push(' ');
        proof {
            assert(out@ =~= old(out)@ + render_line(head));
            assert(deeper@ =~= blanks(indent + 2));
            lemma_render_one(head);
            lemma_render_add(seq![head], encode_block(value@, indent + 2));
        }
        if !write_block(value, &deeper, out) {
            return false;
        }
        proof {
            assert(out@ =~= old(out)@ + (render_line(head) + render(
                encode_block(value@, indent + 2),
            )));
        }
        true
    } else {
        out.push(' ');
        if !push_scalar(out, value) {
            return false;
        }
        out.push('\n');
        proof {
            let line = Line {
                indent,
                content: string_text(key@) + seq![':', ' '] + scalar_text(value@),
            };
            lemma_render_one(line);
            assert(out@ =~= old(out)@ + render_line(line));
        }
        true
    }
}

/// Appends the lines of a block.
#[verifier::loop_isolation(false)]
fn write_block(v: &Value, pad: &Vec<char>, out: &mut Vec<char>) -> (ok: bool)
    requires
        pad@ == blanks(pad@.len()),
        is_block(v@),
    ensures
        ok == writable(v@),
        ok ==> final(out)@ == old(out)@ + render(encode_block(v@, pad@.len())),
    decreases v, 0nat,
{
    let ghost indent = pad@.len();
    match v {
        Value::Array(items) => {
            proof {
                lemma_array_view(*items);
            }
            let ghost all = views(items@);
            let mut i: usize = 0;
            while i < items.len()
                invariant
                    i <= items.len(),
                    all == views(items@),
                    v@ == ValueView::Array(all),
                    indent == pad@.len(),
                    pad@ == blanks(pad@.len()),
                    forall|j: int| 0 <= j < i ==> writable(#[trigger] all[j]),
                    out@ + render(encode_items(all, indent, i as nat)) == old(out)@ + render(
                        encode_items(all, indent, 0),
                    ),
                decreases items.len() - i,
            {
                let ghost before = out@;
                if !write_item(&items[i], pad, out) {
                    proof {
                        if writable(v@) {
                            lemma_writable_item(all, i as int);
                        }
                    }
                    return false;
                }
                proof {
                    let one = encode_item(all[i as int], indent);
                    let more = encode_items(all, indent, (i + 1) as nat);
                    lemma_render_add(one, more);
                    assert(before + render(one) + render(more) =~= before + (render(one) + render(
                        more,
                    )));
                }
                i += 1;
            }
            proof {
                assert(out@ + render(encode_items(all, indent, i as nat)) =~= out@);
            }
            true
        },
        Value::Object(entries) => {
            proof {
                lemma_object_view(*entries);
            }
            let ghost all = entry_views(entries@);
            let mut i: usize = 0;
            while i < entries.len()
                invariant
                    i <= entries.len(),
                    all == entry_views(entries@),
                    v@ == ValueView::Object(all),
                    indent == pad@.len(),
                    pad@ == blanks(pad@.len()),
                    forall|j: int| 0 <= j < i ==> writable((#[trigger] all[j]).1),
                    out@ + render(encode_entries(all, indent, i as nat)) == old(out)@ + render(
                        encode_entries(all, indent, 0),
                    ),
                decreases entries.len() - i,
            {
                let ghost before = out@;
                if !write_entry(&entries[i].0, &entries[i].1, pad, out) {
                    proof {
                        if writable(v@) {
                            lemma_writable_entry(all, i as int);
                        }
                    }
                    return false;
                }
                proof {
                    let one = encode_entry(all[i as int], indent);
                    let more = encode_entries(all, indent, (i + 1) as nat);
                    lemma_render_add(one, more);
                    assert(before + render(one) + render(more) =~= before + (render(one) + render(
                        more,
                    )));
                }
                i += 1;
            }
            proof {
                assert(out@ + render(encode_entries(all, indent, i as nat)) =~= out@);
            }
            true
        },
        _ => true,
    }
}

/// The YAML text of `value`. Fails only where a number in it holds a
/// literal that is no numeric literal.
pub fn to_text(value: &Value) -> (r: Result<String, EncodeError>)
    ensures
        writable(value@) ==> (r matches Ok(s) && s@ == encode(value@)),
        !writable(value@) ==> r == Err::<String, EncodeError>(
            EncodeError { format: Format::Yaml, fault: EncodeFault::InvalidNumber },
        ),
{
    let mut out: Vec<char> = Vec::new();
    let pad: Vec<char> = Vec::new();
    proof {
        assert(pad@ =~= blanks(0));
    }
    let ok = if check_block(value) {
        write_block(value, &pad, &mut out)
    } else {
        let ok = push_scalar(&mut out, value);
        out.push('\n');
        proof {
            if ok {
                let line = Line { indent: 0, content: scalar_text(value@) };
                lemma_render_one(line);
                assert(out@ =~= render_line(line));
            }
        }
        ok
    };
    if ok {
        assert(out@ =~= encode(value@));
        Ok(string_of(&out))
    } else {
        Err(EncodeError { format: Format::Yaml, fault: EncodeFault::InvalidNumber })
    }
}

} // verus!
