//! What holds of every value that is read from YAML.

use crate::json::canon::{
    all_canonical, all_within, lemma_value_canonical, lemma_value_within, values_canonical,
    values_within,
};
use crate::json::syntax::MAX_NESTING;
use crate::number::canonical;
use crate::value::{
    entry_levels, item_levels, law_unique_keys, lemma_max_of_least, lemma_put_all_values, put_all,
    ValueView,
};
use crate::yaml::syntax::{
    classify, continues_mapping, continues_sequence, lemma_shape, lines_of, parse_document,
    parse_held, parse_mapping, parse_node, parse_sequence, scalar_value, scan_lines, tail_lines,
    Line, Shape,
};
use vstd::prelude::*;

verus! {

/// A scalar that is read is canonical.
proof fn lemma_scalar_canonical(text: Seq<char>, budget: nat)
    ensures
        scalar_value(text, budget) matches Ok(v) ==> canonical(v),
{
    reveal(scalar_value);
    if text.len() > 0 && (text[0] == '[' || text[0] == '{') {
        lemma_value_canonical(text, budget);
    }
}

/// A node that is read is canonical.
proof fn lemma_node_canonical(first: Line, rest: Seq<Line>, budget: nat)
    ensures
        parse_node(first, rest, budget) matches Ok((v, _)) ==> canonical(v),
    decreases rest.len(), first.content.len(), 3nat,
{
    reveal(parse_node);
    reveal(parse_sequence);
    reveal(parse_mapping);
    lemma_scalar_canonical(first.content, budget);
    if budget > 0 {
        match classify(first.content) {
            Ok(Shape::Dash(_)) => {
                lemma_sequence_canonical(first, rest, (budget - 1) as nat);
            },
            Ok(Shape::Pair(_, _)) => {
                lemma_mapping_canonical(first, rest, (budget - 1) as nat);
                if let Ok((members, _)) = parse_mapping(first, rest, (budget - 1) as nat) {
                    let entries = put_all(Seq::empty(), members, members.len());
                    law_unique_keys(Seq::empty(), members, members.len());
                    lemma_put_all_values(members, members.len());
                    assert forall|j: int| 0 <= j < entries.len() implies canonical(
                        (#[trigger] entries[j]).1,
                    ) by {
                        let k = choose|k: int|
                            0 <= k < members.len() && members[k].1 == entries[j].1;
                        assert(canonical(members[k].1));
                    }
                }
            },
            _ => {},
        }
    }
}

/// What a dash or a key is read to hold is canonical.
proof fn lemma_held_canonical(
    indent: nat,
    column: nat,
    text: Seq<char>,
    inline: bool,
    rest: Seq<Line>,
    budget: nat,
)
    ensures
        parse_held(indent, column, text, inline, rest, budget) matches Ok((v, _)) ==> canonical(v),
    decreases rest.len(), text.len(), 4nat,
{
    reveal(parse_held);
    reveal(parse_node);
    lemma_scalar_canonical(text, budget);
    if text.len() == 0 {
        if rest.len() > 0 {
            lemma_node_canonical(rest[0], rest.skip(1), budget);
        }
    } else if inline {
        lemma_node_canonical(Line { indent: column, content: text }, rest, budget);
    }
}

/// The items of a sequence that is read are canonical.
proof fn lemma_sequence_canonical(first: Line, rest: Seq<Line>, budget: nat)
    ensures
        parse_sequence(first, rest, budget) matches Ok((items, _)) ==> all_canonical(items),
    decreases rest.len(), first.content.len(), 2nat,
{
    reveal(parse_sequence);
    reveal(parse_held);
    if let Ok(Shape::Dash(text)) = classify(first.content) {
        lemma_shape(first.content);
        let column = (first.indent + first.content.len() - text.len()) as nat;
        lemma_held_canonical(first.indent, column, text, true, rest, budget);
        if let Ok((item, left)) = parse_held(first.indent, column, text, true, rest, budget) {
            let after = tail_lines(rest, left);
            if continues_sequence(after, first.indent) {
                lemma_sequence_canonical(after[0], after.skip(1), budget);
                if let Ok((more, _)) = parse_sequence(after[0], after.skip(1), budget) {
                    let all = seq![item] + more;
                    assert forall|i: int| 0 <= i < all.len() implies canonical(
                        #[trigger] all[i],
                    ) by {
                        if i > 0 {
                            assert(all[i] == more[i - 1]);
                        }
                    }
                }
            }
        }
    }
}

/// The entries of a mapping that is read hold canonical values.
proof fn lemma_mapping_canonical(first: Line, rest: Seq<Line>, budget: nat)
    ensures
        parse_mapping(first, rest, budget) matches Ok((members, _)) ==> values_canonical(members),
    decreases rest.len(), first.content.len(), 2nat,
{
    reveal(parse_mapping);
    reveal(parse_held);
    if let Ok(Shape::Pair(key, text)) = classify(first.content) {
        lemma_shape(first.content);
        lemma_held_canonical(first.indent, 0, text, false, rest, budget);
        if let Ok((value, left)) = parse_held(first.indent, 0, text, false, rest, budget) {
            let after = tail_lines(rest, left);
            if continues_mapping(after, first.indent) {
                lemma_mapping_canonical(after[0], after.skip(1), budget);
                if let Ok((more, _)) = parse_mapping(after[0], after.skip(1), budget) {
                    let all = seq![(key, value)] + more;
                    assert forall|i: int| 0 <= i < all.len() implies canonical(
                        (#[trigger] all[i]).1,
                    ) by {
                        if i > 0 {
                            assert(all[i] == more[i - 1]);
                        }
                    }
                }
            }
        }
    }
}

/// Canonical reading: every value that is read from a document is held as
/// a reader holds it. No object in it has a key twice, and every number in
/// it is an integer within 64 bits or a numeric literal that denotes
/// itself.
pub proof fn law_read_canonical(s: Seq<char>)
    ensures
        parse_document(s) matches Ok(v) ==> canonical(v),
{
    let lines = lines_of(scan_lines(s));
    if lines.len() > 0 {
        lemma_node_canonical(lines[0], lines.skip(1), MAX_NESTING as nat);
    }
}

} // verus!

verus! {

/// A scalar that is read is nested no deeper than the budget allows.
proof fn lemma_scalar_within(text: Seq<char>, budget: nat)
    ensures
        scalar_value(text, budget) matches Ok(v) ==> v.level() <= budget,
{
    reveal(scalar_value);
    if text.len() > 0 && (text[0] == '[' || text[0] == '{') {
        lemma_value_within(text, budget);
    }
}

/// A node that is read is nested no deeper than the budget allows.
proof fn lemma_node_within(first: Line, rest: Seq<Line>, budget: nat)
    ensures
        parse_node(first, rest, budget) matches Ok((v, _)) ==> v.level() <= budget,
    decreases rest.len(), first.content.len(), 3nat,
{
    reveal(parse_node);
    reveal(parse_sequence);
    reveal(parse_mapping);
    lemma_scalar_within(first.content, budget);
    if budget > 0 {
        match classify(first.content) {
            Ok(Shape::Dash(_)) => {
                lemma_sequence_within(first, rest, (budget - 1) as nat);
                if let Ok((items, _)) = parse_sequence(first, rest, (budget - 1) as nat) {
                    let levels = item_levels(items);
                    assert forall|i: int| 0 <= i < levels.len() implies levels[i] <= budget - 1 by {
                        assert(items[i].level() <= budget - 1);
                    }
                    lemma_max_of_least(levels, (budget - 1) as nat);
                }
            },
            Ok(Shape::Pair(_, _)) => {
                lemma_mapping_within(first, rest, (budget - 1) as nat);
                if let Ok((members, _)) = parse_mapping(first, rest, (budget - 1) as nat) {
                    let entries = put_all(Seq::empty(), members, members.len());
                    lemma_put_all_values(members, members.len());
                    let levels = entry_levels(entries);
                    assert forall|j: int| 0 <= j < levels.len() implies levels[j] <= budget - 1 by {
                        let k = choose|k: int|
                            0 <= k < members.len() && members[k].1 == entries[j].1;
                        assert(members[k].1.level() <= budget - 1);
                    }
                    lemma_max_of_least(levels, (budget - 1) as nat);
                }
            },
            _ => {},
        }
    }
}

/// What a dash or a key is read to hold is nested no deeper than the
/// budget allows.
proof fn lemma_held_within(
    indent: nat,
    column: nat,
    text: Seq<char>,
    inline: bool,
    rest: Seq<Line>,
    budget: nat,
)
    ensures
        parse_held(indent, column, text, inline, rest, budget) matches Ok((v, _)) ==> v.level()
            <= budget,
    decreases rest.len(), text.len(), 4nat,
{
    reveal(parse_held);
    reveal(parse_node);
    lemma_scalar_within(text, budget);
    if text.len() == 0 {
        if rest.len() > 0 {
            lemma_node_within(rest[0], rest.skip(1), budget);
        }
    } else if inline {
        lemma_node_within(Line { indent: column, content: text }, rest, budget);
    }
}

/// The items of a sequence that is read are nested no deeper than the
/// budget allows.
proof fn lemma_sequence_within(first: Line, rest: Seq<Line>, budget: nat)
    ensures
        parse_sequence(first, rest, budget) matches Ok((items, _)) ==> all_within(items, budget),
    decreases rest.len(), first.content.len(), 2nat,
{
    reveal(parse_sequence);
    reveal(parse_held);
    if let Ok(Shape::Dash(text)) = classify(first.content) {
        lemma_shape(first.content);
        let column = (first.indent + first.content.len() - text.len()) as nat;
        lemma_held_within(first.indent, column, text, true, rest, budget);
        if let Ok((item, left)) = parse_held(first.indent, column, text, true, rest, budget) {
            let after = tail_lines(rest, left);
            if continues_sequence(after, first.indent) {
                lemma_sequence_within(after[0], after.skip(1), budget);
                if let Ok((more, _)) = parse_sequence(after[0], after.skip(1), budget) {
                    let all = seq![item] + more;
                    assert forall|i: int| 0 <= i < all.len() implies (#[trigger] all[i]).level()
                        <= budget by {
                        if i > 0 {
                            assert(all[i] == more[i - 1]);
                        }
                    }
                }
            }
        }
    }
}

/// The entries of a mapping that is read hold values that are nested no
/// deeper than the budget allows.
proof fn lemma_mapping_within(first: Line, rest: Seq<Line>, budget: nat)
    ensures
        parse_mapping(first, rest, budget) matches Ok((members, _)) ==> values_within(
            members,
            budget,
        ),
    decreases rest.len(), first.content.len(), 2nat,
{
    reveal(parse_mapping);
    reveal(parse_held);
    if let Ok(Shape::Pair(key, text)) = classify(first.content) {
        lemma_shape(first.content);
        lemma_held_within(first.indent, 0, text, false, rest, budget);
        if let Ok((value, left)) = parse_held(first.indent, 0, text, false, rest, budget) {
            let after = tail_lines(rest, left);
            if continues_mapping(after, first.indent) {
                lemma_mapping_within(after[0], after.skip(1), budget);
                if let Ok((more, _)) = parse_mapping(after[0], after.skip(1), budget) {
                    let all = seq![(key, value)] + more;
                    assert forall|i: int| 0 <= i < all.len() implies (#[trigger] all[i]).1.level()
                        <= budget by {
                        if i > 0 {
                            assert(all[i] == more[i - 1]);
                        }
                    }
                }
            }
        }
    }
}

/// Bounded reading: every value that is read from a document is nested no
/// deeper than the reader follows, whether its arrays and objects were
/// written as blocks or on one line.
pub proof fn law_read_within(s: Seq<char>)
    ensures
        parse_document(s) matches Ok(v) ==> v.level() <= MAX_NESTING,
{
    let lines = lines_of(scan_lines(s));
    if lines.len() > 0 {
        lemma_node_within(lines[0], lines.skip(1), MAX_NESTING as nat);
    }
}

/// Stable reading: whatever is read from a document, the document that is
/// written for it is read back as the same value.
pub proof fn law_read_again(s: Seq<char>)
    ensures
        parse_document(s) matches Ok(v) ==> parse_document(crate::yaml::write::encode(v)) == Ok::<
            ValueView,
            crate::error::Failure,
        >(v),
{
    if let Ok(v) = parse_document(s) {
        law_read_canonical(s);
        law_read_within(s);
        crate::yaml::laws::law_round_trip(v);
    }
}

} // verus!
