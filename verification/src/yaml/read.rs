//! The YAML reader.

use crate::error::{
    lemma_prepend_nothing, lemma_prepend_push, parse_error, prepend, Failure, Format, ParseError,
    ParseFault,
};
use crate::json::read::{read_string, read_value};
use crate::json::syntax::{array_result, object_result, MAX_NESTING};
use crate::text::{decode, decoded, has_text, lemma_tail_skip, skip_space, slice_chars, string_of};
use crate::value::{
    entry_views, gather, lemma_array_view, lemma_object_view, views, Number, Value, ValueView,
};
use crate::yaml::lines::{line_views, scan_indent, split_lines, within, LineBuf};
use crate::yaml::syntax::{
    classify, colon_index, continues_mapping, continues_sequence, indent_len, lemma_indent_len,
    lines_of, parse_document, parse_held, parse_mapping, parse_node, parse_sequence, place,
    plain_value, scalar_value, scan_lines, skip_blanks, tail_lines, Line, Shape,
};
use vstd::prelude::*;

verus! {

/// The shape of a line as it was read: where the text behind a dash or a
/// colon starts, and the key before the colon.
pub enum ShapeBuf {
    Dash(usize),
    Pair(String, usize),
    Scalar,
}

/// Whether a shape that was read from `content[from..]` is the shape that
/// the grammar gives.
pub open spec fn shape_read(content: Seq<char>, from: nat, expected: Shape, got: ShapeBuf) -> bool {
    match expected {
        Shape::Dash(text) => got matches ShapeBuf::Dash(at) && from < at <= content.len() && text
            == content.skip(at as int),
        Shape::Pair(key, text) => got matches ShapeBuf::Pair(k, at) && k@ == key && from < at
            <= content.len() && text == content.skip(at as int),
        Shape::Scalar => got is Scalar,
    }
}

/// The place of the first colon that ends a key, from `from` on.
fn find_colon(content: &Vec<char>, from: usize) -> (r: Option<usize>)
    requires
        from <= content.len(),
    ensures
        match colon_index(content@.skip(from as int)) {
            Some(i) => r == Some((from + i) as usize) && from + i < content.len(),
            None => r is None,
        },
{
    let mut i = from;
    while i < content.len()
        invariant
            from <= i <= content.len(),
            colon_index(content@.skip(from as int)) == match colon_index(content@.skip(i as int)) {
                Some(k) => Some((k + (i - from)) as nat),
                None => None::<nat>,
            },
        decreases content.len() - i,
    {
        let ghost s = content@.skip(i as int);
        if content[i] == ':' && (i + 1 == content.len() || content[i + 1] == ' ') {
            return Some(i);
        }
        proof {
            assert(s.skip(1) =~= content@.skip(i + 1));
        }
        i += 1;
    }
    None
}

/// The start of the text behind the blanks that start at `from`.
fn skip_blank(content: &Vec<char>, from: usize) -> (at: usize)
    requires
        from <= content.len(),
    ensures
        from <= at <= content.len(),
        skip_blanks(content@.skip(from as int)) == content@.skip(at as int),
{
    let at = scan_indent(content, from, content.len());
    proof {
        assert(content@.subrange(from as int, content.len() as int) =~= content@.skip(from as int));
        assert(content@.skip(from as int).skip(at - from) =~= content@.skip(at as int));
    }
    at
}

/// The shape of the line with the text `content[from..]`.
fn shape_of(content: &Vec<char>, from: usize) -> (r: Result<ShapeBuf, ParseFault>)
    requires
        from <= content.len(),
    ensures
        match classify(content@.skip(from as int)) {
            Ok(shape) => r matches Ok(got) && shape_read(content@, from as nat, shape, got),
            Err(fault) => r matches Err(f) && f == fault,
        },
{
    proof {
        reveal(classify);
    }
    let ghost s = content@.skip(from as int);
    if from >= content.len() {
        return Ok(ShapeBuf::Scalar);
    }
    let c = content[from];
    proof {
        assert(s.skip(1) =~= content@.skip(from + 1));
    }
    if c == '\'' || c == '|' || c == '>' || c == '&' || c == '*' || c == '!' || c == '%' || c == '@'
        || c == '`' {
        return Err(ParseFault::UnexpectedChar);
    }
    if c == '-' && (from + 1 == content.len() || content[from + 1] == ' ') {
        Ok(ShapeBuf::Dash(skip_blank(content, from + 1)))
    } else if c == '[' || c == '{' {
        Ok(ShapeBuf::Scalar)
    } else if c == '"' {
        match read_string(content, from + 1) {
            Err(e) => Err(e.fault),
            Ok((key, next)) => {
                proof {
                    lemma_tail_skip(content@, from + 1, next as int);
                    if next < content.len() {
                        assert(content@.skip(next as int).skip(1) =~= content@.skip(next + 1));
                    }
                }
                if next >= content.len() {
                    Ok(ShapeBuf::Scalar)
                } else if content[next] == ':' && (next + 1 == content.len() || content[next + 1]
                    == ' ') {
                    Ok(ShapeBuf::Pair(key, skip_blank(content, next + 1)))
                } else {
                    Err(ParseFault::UnexpectedChar)
                }
            },
        }
    } else {
        match find_colon(content, from) {
            Some(i) => {
                let key = crate::text::slice_string(content, from, i);
                proof {
                    assert(s.take(i - from) =~= content@.subrange(from as int, i as int));
                    assert(s.skip(i - from + 1) =~= content@.skip(i + 1));
                }
                Ok(ShapeBuf::Pair(key, skip_blank(content, i + 1)))
            },
            None => Ok(ShapeBuf::Scalar),
        }
    }
}

/// The value of the plain text `content[from..]`.
fn read_plain(content: &Vec<char>, from: usize) -> (r: Value)
    requires
        from <= content.len(),
    ensures
        r@ == plain_value(content@.skip(from as int)),
{
    let text = slice_chars(content, from, content.len());
    proof {
        assert(text@ =~= content@.skip(from as int));
        reveal_strlit("null");
        reveal_strlit("~");
        reveal_strlit("true");
        reveal_strlit("false");
        assert("null"@ =~= seq!['n', 'u', 'l', 'l']);
        assert("~"@ =~= seq!['~']);
        assert("true"@ =~= seq!['t', 'r', 'u', 'e']);
        assert("false"@ =~= seq!['f', 'a', 'l', 's', 'e']);
    }
    if has_text(&text, "null") || has_text(&text, "~") {
        Value::Null
    } else if has_text(&text, "true") {
        Value::Bool(true)
    } else if has_text(&text, "false") {
        Value::Bool(false)
    } else {
        let s = string_of(&text);
        match Number::parse(s.as_str()) {
            Some(n) => Value::Number(n),
            None => Value::String(s),
        }
    }
}

/// The value of the scalar with the text `content[from..]`.
fn read_scalar(content: &Vec<char>, from: usize, budget: usize) -> (r: Result<Value, ParseFault>)
    requires
        from <= content.len(),
    ensures
        match scalar_value(content@.skip(from as int), budget as nat) {
            Ok(value) => r matches Ok(v) && v@ == value,
            Err(fault) => r matches Err(f) && f == fault,
        },
{
    proof {
        reveal(scalar_value);
    }
    let ghost s = content@.skip(from as int);
    if from >= content.len() {
        return Ok(Value::Null);
    }
    let c = content[from];
    if c == '"' {
        proof {
            assert(s.skip(1) =~= content@.skip(from + 1));
        }
        match read_string(content, from + 1) {
            Err(e) => Err(e.fault),
            Ok((text, next)) => {
                if next == content.len() {
                    Ok(Value::String(text))
                } else {
                    Err(ParseFault::TrailingCharacters)
                }
            },
        }
    } else if c == '[' || c == '{' {
        match read_value(content, from, budget) {
            Err(e) => Err(e.fault),
            Ok((value, next)) => {
                proof {
                    lemma_tail_skip(content@, from as int, next as int);
                }
                let end = skip_space(content, next);
                if end == content.len() {
                    Ok(value)
                } else {
                    Err(ParseFault::TrailingCharacters)
                }
            },
        }
    } else {
        Ok(read_plain(content, from))
    }
}

/// The lines that a list of line buffers stands for.
pub open spec fn document(lines: Seq<LineBuf>) -> Seq<Line> {
    lines_of(line_views(lines))
}

/// Whether what was read where `next` lines of `total` were taken is what
/// the grammar gives: the same value and the same line to go on with, or
/// the same fault at the same line.
pub open spec fn node_read(
    total: nat,
    next: nat,
    expected: Result<(ValueView, nat), Failure>,
    got: Result<(Value, usize), (ParseFault, usize)>,
) -> bool {
    match expected {
        Ok((value, left)) => got matches Ok((v, after)) && v@ == value && next <= after <= total
            && after == total - left,
        Err((fault, left)) => got matches Err((f, l)) && f == fault && l == left && left <= total,
    }
}

/// The last lines of the lines that follow line `next` are the lines that
/// follow a later line.
proof fn lemma_tail_lines(all: Seq<Line>, next: int, after: int)
    requires
        0 <= next <= after <= all.len(),
    ensures
        tail_lines(all.skip(next), (all.len() - after) as nat) == all.skip(after),
{
    assert(all.skip(next).skip(after - next) =~= all.skip(after));
}

/// The first line of `all.skip(i)` and the lines behind it.
proof fn lemma_line_at(lines: Seq<LineBuf>, i: int)
    requires
        0 <= i < lines.len(),
    ensures
        document(lines).skip(i)[0] == (Line {
            indent: lines[i].indent as nat,
            content: lines[i].content@,
        }),
        document(lines).skip(i).skip(1) == document(lines).skip(i + 1),
        document(lines).skip(i).len() == lines.len() - i,
        line_of(lines[i].indent, lines[i].content@, 0) == document(lines).skip(i)[0],
{
    assert(document(lines).skip(i).skip(1) =~= document(lines).skip(i + 1));
    assert(lines[i].content@.skip(0) =~= lines[i].content@);
}

/// Whether the lines go on at `at` with an item of the sequence at
/// `indent`.
fn more_items(lines: &Vec<LineBuf>, at: usize, indent: usize) -> (r: bool)
    requires
        at <= lines.len(),
    ensures
        r == continues_sequence(document(lines@).skip(at as int), indent as nat),
{
    if at >= lines.len() || lines[at].indent != indent {
        proof {
            if at < lines.len() {
                lemma_line_at(lines@, at as int);
            }
        }
        return false;
    }
    proof {
        lemma_line_at(lines@, at as int);
        assert(lines[at as int].content@.skip(0) =~= lines[at as int].content@);
    }
    match shape_of(&lines[at].content, 0) {
        Ok(ShapeBuf::Dash(_)) => true,
        _ => false,
    }
}

/// Whether the lines go on at `at` with an entry of the mapping at
/// `indent`.
fn more_entries(lines: &Vec<LineBuf>, at: usize, indent: usize) -> (r: bool)
    requires
        at <= lines.len(),
    ensures
        r == continues_mapping(document(lines@).skip(at as int), indent as nat),
{
    if at >= lines.len() || lines[at].indent != indent {
        proof {
            if at < lines.len() {
                lemma_line_at(lines@, at as int);
            }
        }
        return false;
    }
    proof {
        lemma_line_at(lines@, at as int);
        assert(lines[at as int].content@.skip(0) =~= lines[at as int].content@);
    }
    match shape_of(&lines[at].content, 0) {
        Ok(ShapeBuf::Pair(_, _)) => true,
        _ => false,
    }
}

/// The line with the text `content[from..]` at `indent`.
pub open spec fn line_of(indent: usize, content: Seq<char>, from: usize) -> Line {
    Line { indent: indent as nat, content: content.skip(from as int) }
}

/// Reads the node that starts with the text `content[from..]` at `indent`
/// and goes on with line `next`.
fn read_node(
    lines: &Vec<LineBuf>,
    next: usize,
    indent: usize,
    content: &Vec<char>,
    from: usize,
    budget: usize,
) -> (r: Result<(Value, usize), (ParseFault, usize)>)
    requires
        1 <= next <= lines.len(),
        from <= content.len(),
        within(lines@, usize::MAX as nat),
        indent + (content.len() - from) <= usize::MAX,
    ensures
        node_read(
            lines@.len(),
            next as nat,
            parse_node(
                line_of(indent, content@, from),
                document(lines@).skip(next as int),
                budget as nat,
            ),
            r,
        ),
    decreases budget, 0nat,
{
    proof {
        reveal(parse_node);
        reveal(parse_sequence);
        reveal(parse_mapping);
    }
    let left = lines.len() - next + 1;
    match shape_of(content, from) {
        Err(fault) => Err((fault, left)),
        Ok(ShapeBuf::Scalar) => match read_scalar(content, from, budget) {
            Err(fault) => Err((fault, left)),
            Ok(value) => Ok((value, next)),
        },
        Ok(ShapeBuf::Dash(_)) => {
            if budget == 0 {
                Err((ParseFault::TooDeep, left))
            } else {
                read_sequence(lines, next, indent, content, from, budget - 1)
            }
        },
        Ok(ShapeBuf::Pair(_, _)) => {
            if budget == 0 {
                Err((ParseFault::TooDeep, left))
            } else {
                read_mapping(lines, next, indent, content, from, budget - 1)
            }
        },
    }
}

/// Reads what a dash or a key holds.
fn read_held(
    lines: &Vec<LineBuf>,
    next: usize,
    indent: usize,
    column: usize,
    content: &Vec<char>,
    from: usize,
    inline: bool,
    budget: usize,
) -> (r: Result<(Value, usize), (ParseFault, usize)>)
    requires
        1 <= next <= lines.len(),
        from <= content.len(),
        within(lines@, usize::MAX as nat),
        column + (content.len() - from) <= usize::MAX,
    ensures
        node_read(
            lines@.len(),
            next as nat,
            parse_held(
                indent as nat,
                column as nat,
                content@.skip(from as int),
                inline,
                document(lines@).skip(next as int),
                budget as nat,
            ),
            r,
        ),
    decreases budget, 1nat,
{
    proof {
        reveal(parse_held);
        reveal(parse_node);
    }
    if from == content.len() {
        let nested = if next < lines.len() {
            proof {
                lemma_line_at(lines@, next as int);
            }
            lines[next].indent > indent || (!inline && more_items(lines, next, indent))
        } else {
            false
        };
        if nested {
            read_node(lines, next + 1, lines[next].indent, &lines[next].content, 0, budget)
        } else {
            Ok((Value::Null, next))
        }
    } else if inline {
        read_node(lines, next, column, content, from, budget)
    } else {
        let left = lines.len() - next + 1;
        match shape_of(content, from) {
            Ok(ShapeBuf::Scalar) => match read_scalar(content, from, budget) {
                Err(fault) => Err((fault, left)),
                Ok(value) => Ok((value, next)),
            },
            Ok(_) => Err((ParseFault::UnexpectedChar, left)),
            Err(fault) => Err((fault, left)),
        }
    }
}

/// One step of reading a sequence.
proof fn lemma_sequence_step(first: Line, rest: Seq<Line>, budget: nat, done: Seq<ValueView>)
    ensures
        match classify(first.content) {
            Ok(Shape::Dash(text)) => {
                match parse_held(
                    first.indent,
                    (first.indent + first.content.len() - text.len()) as nat,
                    text,
                    true,
                    rest,
                    budget,
                ) {
                    Err(e) => parse_sequence(first, rest, budget) == Err::<
                        (Seq<ValueView>, nat),
                        Failure,
                    >(e),
                    Ok((item, left)) => {
                        let after = tail_lines(rest, left);
                        if continues_sequence(after, first.indent) {
                            prepend(done, parse_sequence(first, rest, budget)) == prepend(
                                done.push(item),
                                parse_sequence(after[0], after.skip(1), budget),
                            )
                        } else if after.len() > 0 && after[0].indent > first.indent {
                            parse_sequence(first, rest, budget) == Err::<
                                (Seq<ValueView>, nat),
                                Failure,
                            >((ParseFault::Indentation, after.len()))
                        } else {
                            prepend(done, parse_sequence(first, rest, budget)) == Ok::<
                                (Seq<ValueView>, nat),
                                Failure,
                            >((done.push(item), after.len()))
                        }
                    },
                }
            },
            _ => parse_sequence(first, rest, budget) == Err::<(Seq<ValueView>, nat), Failure>(
                (ParseFault::UnexpectedChar, rest.len() + 1),
            ),
        },
{
    reveal(parse_sequence);
    reveal(parse_held);
    if let Ok(Shape::Dash(text)) = classify(first.content) {
        if let Ok((item, left)) = parse_held(
            first.indent,
            (first.indent + first.content.len() - text.len()) as nat,
            text,
            true,
            rest,
            budget,
        ) {
            let after = tail_lines(rest, left);
            assert(done + seq![item] =~= done.push(item));
            if continues_sequence(after, first.indent) {
                lemma_prepend_push(done, item, parse_sequence(after[0], after.skip(1), budget));
            }
        }
    }
}

/// Reads the items of the sequence that starts with the text
/// `content[from..]` at `indent` and goes on with line `next`.
fn read_sequence(
    lines: &Vec<LineBuf>,
    next: usize,
    indent: usize,
    content: &Vec<char>,
    from: usize,
    budget: usize,
) -> (r: Result<(Value, usize), (ParseFault, usize)>)
    requires
        1 <= next <= lines.len(),
        from <= content.len(),
        within(lines@, usize::MAX as nat),
        indent + (content.len() - from) <= usize::MAX,
    ensures
        node_read(
            lines@.len(),
            next as nat,
            array_result(
                parse_sequence(
                    line_of(indent, content@, from),
                    document(lines@).skip(next as int),
                    budget as nat,
                ),
            ),
            r,
        ),
    decreases budget, 2nat,
{
    let ghost all = document(lines@);
    let ghost goal = parse_sequence(
        line_of(indent, content@, from),
        all.skip(next as int),
        budget as nat,
    );
    let mut items: Vec<Value> = Vec::new();
    let mut current: &Vec<char> = content;
    let mut start = from;
    let mut i = next;
    proof {
        assert(views(items@) =~= Seq::<ValueView>::empty());
        lemma_prepend_nothing(goal);
    }
    loop
        invariant
            1 <= next <= i <= lines.len(),
            start <= current.len(),
            all == document(lines@),
            within(lines@, usize::MAX as nat),
            indent + (current.len() - start) <= usize::MAX,
            goal == parse_sequence(
                line_of(indent, content@, from),
                all.skip(next as int),
                budget as nat,
            ),
            prepend(
                views(items@),
                parse_sequence(line_of(indent, current@, start), all.skip(i as int), budget as nat),
            ) == goal,
        decreases lines.len() - i,
    {
        let ghost done = views(items@);
        let ghost first = line_of(indent, current@, start);
        proof {
            lemma_sequence_step(first, all.skip(i as int), budget as nat, done);
        }
        let left = lines.len() - i + 1;
        let at = match shape_of(current, start) {
            Ok(ShapeBuf::Dash(at)) => at,
            _ => {
                return Err((ParseFault::UnexpectedChar, left));
            },
        };
        match read_held(lines, i, indent, indent + (at - start), current, at, true, budget) {
            Err(e) => {
                return Err(e);
            },
            Ok((item, after)) => {
                proof {
                    lemma_tail_lines(all, i as int, after as int);
                }
                let ghost item_view = item@;
                items.push(item);
                proof {
                    assert(views(items@) =~= done.push(item_view));
                }
                if more_items(lines, after, indent) {
                    proof {
                        lemma_line_at(lines@, after as int);
                    }
                    current = &lines[after].content;
                    start = 0;
                    i = after + 1;
                } else if after < lines.len() && lines[after].indent > indent {
                    proof {
                        lemma_line_at(lines@, after as int);
                    }
                    return Err((ParseFault::Indentation, lines.len() - after));
                } else {
                    proof {
                        if after < lines.len() {
                            lemma_line_at(lines@, after as int);
                        }
                        lemma_array_view(items);
                    }
                    return Ok((Value::Array(items), after));
                }
            },
        }
    }
}

/// One step of reading a mapping.
proof fn lemma_mapping_step(
    first: Line,
    rest: Seq<Line>,
    budget: nat,
    done: Seq<(Seq<char>, ValueView)>,
)
    ensures
        match classify(first.content) {
            Ok(Shape::Pair(key, text)) => {
                match parse_held(first.indent, 0, text, false, rest, budget) {
                    Err(e) => parse_mapping(first, rest, budget) == Err::<
                        (Seq<(Seq<char>, ValueView)>, nat),
                        Failure,
                    >(e),
                    Ok((value, left)) => {
                        let after = tail_lines(rest, left);
                        if continues_mapping(after, first.indent) {
                            prepend(done, parse_mapping(first, rest, budget)) == prepend(
                                done.push((key, value)),
                                parse_mapping(after[0], after.skip(1), budget),
                            )
                        } else if after.len() > 0 && after[0].indent > first.indent {
                            parse_mapping(first, rest, budget) == Err::<
                                (Seq<(Seq<char>, ValueView)>, nat),
                                Failure,
                            >((ParseFault::Indentation, after.len()))
                        } else {
                            prepend(done, parse_mapping(first, rest, budget)) == Ok::<
                                (Seq<(Seq<char>, ValueView)>, nat),
                                Failure,
                            >((done.push((key, value)), after.len()))
                        }
                    },
                }
            },
            _ => parse_mapping(first, rest, budget) == Err::<
                (Seq<(Seq<char>, ValueView)>, nat),
                Failure,
            >((ParseFault::UnexpectedChar, rest.len() + 1)),
        },
{
    reveal(parse_mapping);
    reveal(parse_held);
    if let Ok(Shape::Pair(key, text)) = classify(first.content) {
        if let Ok((value, left)) = parse_held(first.indent, 0, text, false, rest, budget) {
            let after = tail_lines(rest, left);
            assert(done + seq![(key, value)] =~= done.push((key, value)));
            if continues_mapping(after, first.indent) {
                lemma_prepend_push(done, (key, value), parse_mapping(after[0], after.skip(1), budget));
            }
        }
    }
}

/// Reads the entries of the mapping that starts with the text
/// `content[from..]` at `indent` and goes on with line `next`.
fn read_mapping(
    lines: &Vec<LineBuf>,
    next: usize,
    indent: usize,
    content: &Vec<char>,
    from: usize,
    budget: usize,
) -> (r: Result<(Value, usize), (ParseFault, usize)>)
    requires
        1 <= next <= lines.len(),
        from <= content.len(),
        within(lines@, usize::MAX as nat),
        indent + (content.len() - from) <= usize::MAX,
    ensures
        node_read(
            lines@.len(),
            next as nat,
            object_result(
                parse_mapping(
                    line_of(indent, content@, from),
                    document(lines@).skip(next as int),
                    budget as nat,
                ),
            ),
            r,
        ),
    decreases budget, 2nat,
{
    let ghost all = document(lines@);
    let ghost goal = parse_mapping(
        line_of(indent, content@, from),
        all.skip(next as int),
        budget as nat,
    );
    let mut entries: Vec<(String, Value)> = Vec::new();
    let mut current: &Vec<char> = content;
    let mut start = from;
    let mut i = next;
    proof {
        assert(entry_views(entries@) =~= Seq::empty());
        lemma_prepend_nothing(goal);
    }
    loop
        invariant
            1 <= next <= i <= lines.len(),
            start <= current.len(),
            all == document(lines@),
            within(lines@, usize::MAX as nat),
            indent + (current.len() - start) <= usize::MAX,
            goal == parse_mapping(
                line_of(indent, content@, from),
                all.skip(next as int),
                budget as nat,
            ),
            prepend(
                entry_views(entries@),
                parse_mapping(line_of(indent, current@, start), all.skip(i as int), budget as nat),
            ) == goal,
        decreases lines.len() - i,
    {
        let ghost done = entry_views(entries@);
        let ghost first = line_of(indent, current@, start);
        proof {
            lemma_mapping_step(first, all.skip(i as int), budget as nat, done);
        }
        let left = lines.len() - i + 1;
        let (key, at) = match shape_of(current, start) {
            Ok(ShapeBuf::Pair(key, at)) => (key, at),
            _ => {
                return Err((ParseFault::UnexpectedChar, left));
            },
        };
        match read_held(lines, i, indent, 0, current, at, false, budget) {
            Err(e) => {
                return Err(e);
            },
            Ok((value, after)) => {
                proof {
                    lemma_tail_lines(all, i as int, after as int);
                }
                let ghost entry = (key@, value@);
                entries.push((key, value));
                proof {
                    assert(entry_views(entries@) =~= done.push(entry));
                }
                if more_entries(lines, after, indent) {
                    proof {
                        lemma_line_at(lines@, after as int);
                    }
                    current = &lines[after].content;
                    start = 0;
                    i = after + 1;
                } else if after < lines.len() && lines[after].indent > indent {
                    proof {
                        lemma_line_at(lines@, after as int);
                    }
                    return Err((ParseFault::Indentation, lines.len() - after));
                } else {
                    proof {
                        if after < lines.len() {
                            lemma_line_at(lines@, after as int);
                        }
                    }
                    let unique = gather(entries);
                    proof {
                        lemma_object_view(unique);
                    }
                    return Ok((Value::Object(unique), after));
                }
            },
        }
    }
}

/// Reads a whole text as one YAML document.
pub fn read_document(buf: &Vec<char>) -> (r: Result<Value, ParseError>)
    ensures
        match parse_document(buf@) {
            Ok(value) => r matches Ok(v) && v@ == value,
            Err(failure) => failure.1 <= buf@.len() && r == Err::<Value, ParseError>(
                parse_error(Format::Yaml, buf@.len(), failure),
            ),
        },
{
    let lines = split_lines(buf);
    let ghost scanned = scan_lines(buf@);
    if lines.len() == 0 {
        return Ok(Value::Null);
    }
    let len = buf.len();
    proof {
        lemma_line_at(lines@, 0);
        assert(document(lines@).skip(0) =~= document(lines@));
        lemma_places(buf@);
        assert(within(lines@, buf@.len()));
        assert(buf@.len() == len);
        assert forall|i: int| 0 <= i < lines@.len() implies (#[trigger] lines@[i]).indent
            + lines@[i].content.len() <= usize::MAX by {
            assert(lines@[i].indent + lines@[i].content.len() <= buf@.len());
        }
    }
    let total = lines.len();
    let outcome = match read_node(&lines, 1, lines[0].indent, &lines[0].content, 0, MAX_NESTING) {
        Err(e) => Err(e),
        Ok((value, after)) => {
            if after == total {
                Ok(value)
            } else {
                Err((ParseFault::Indentation, total - after))
            }
        },
    };
    match outcome {
        Ok(value) => Ok(value),
        Err((fault, left)) => {
            let at = if 0 < left && left <= total {
                assert(scanned[total - left] == lines@[total - left]@);
                buf.len() - lines[total - left].left
            } else {
                buf.len()
            };
            Err(ParseError { format: Format::Yaml, position: at, fault })
        },
    }
}

/// Every line stands within its text.
pub proof fn lemma_places(s: Seq<char>)
    ensures
        forall|i: int| 0 <= i < scan_lines(s).len() ==> (#[trigger] scan_lines(s)[i]).1 <= s.len(),
    decreases s.len(),
{
    if s.len() > 0 {
        crate::yaml::syntax::lemma_line_len(s);
        let next = crate::yaml::syntax::next_lines(s);
        lemma_places(next);
        let rest = scan_lines(next);
        let all = scan_lines(s);
        let body = crate::yaml::syntax::first_line(s);
        let indent = indent_len(body);
        let content = body.skip(indent as int);
        assert(next.len() <= s.len());
        lemma_indent_len(body);
        crate::yaml::syntax::lemma_trimmed_len(s.take(crate::yaml::syntax::line_len(s) as int));
        assert(indent <= s.len());
        assert forall|i: int| 0 <= i < all.len() implies (#[trigger] all[i]).1 <= s.len() by {
            if content.len() == 0 || content[0] == '#' {
                assert(all == rest);
                assert(all[i] == rest[i]);
            } else {
                let head = (Line { indent, content }, (s.len() - indent) as nat);
                assert(all == seq![head] + rest);
                if i > 0 {
                    assert(all[i] == rest[i - 1]);
                } else {
                    assert(all[0] == head);
                }
            }
        }
    }
}

/// What a byte buffer denotes as YAML.
pub open spec fn parse_bytes(bytes: Seq<u8>) -> Result<ValueView, ParseError> {
    match decoded(bytes) {
        None => Err(ParseError { format: Format::Yaml, position: 0, fault: ParseFault::InvalidUtf8 }),
        Some(text) => match parse_document(text) {
            Ok(value) => Ok(value),
            Err(failure) => Err(parse_error(Format::Yaml, text.len(), failure)),
        },
    }
}

/// Reads a byte buffer as one YAML document.
pub fn parse(input: &[u8]) -> (r: Result<Value, ParseError>)
    ensures
        match parse_bytes(input@) {
            Ok(value) => r matches Ok(v) && v@ == value,
            Err(e) => r == Err::<Value, ParseError>(e),
        },
{
    match decode(input) {
        None => Err(ParseError { format: Format::Yaml, position: 0, fault: ParseFault::InvalidUtf8 }),
        Some(buf) => read_document(&buf),
    }
}

} // verus!
