//! What holds of every value that is read from JSON.

use crate::json::syntax::{
    parse_array, parse_document, parse_items, parse_member, parse_members, parse_object,
    parse_string, parse_value, MAX_NESTING,
};
use crate::number::{canonical, lemma_number_prefix, number_len, number_of};
use crate::text::{tail, trim_start};
use crate::value::{law_unique_keys, lemma_put_all_values, put_all, ValueView};
use vstd::prelude::*;

verus! {

/// Every item of a list is canonical.
pub open spec fn all_canonical(items: Seq<ValueView>) -> bool {
    forall|i: int| 0 <= i < items.len() ==> canonical(#[trigger] items[i])
}

/// Every value of a list of members is canonical.
pub open spec fn values_canonical(members: Seq<(Seq<char>, ValueView)>) -> bool {
    forall|i: int| 0 <= i < members.len() ==> canonical((#[trigger] members[i]).1)
}

/// A number that is read is canonical.
proof fn lemma_number_canonical(t: Seq<char>)
    requires
        number_len(t) is Some,
    ensures
        canonical(ValueView::Number(number_of(t.take(number_len(t)->0 as int)))),
{
    lemma_number_prefix(t);
}

/// A value that is read is canonical.
pub proof fn lemma_value_canonical(s: Seq<char>, budget: nat)
    ensures
        parse_value(s, budget) matches Ok((v, _)) ==> canonical(v),
    decreases s.len(), 0nat,
{
    reveal(parse_value);
    reveal(parse_array);
    reveal(parse_object);
    reveal(parse_items);
    reveal(parse_members);
    let t = trim_start(s);
    crate::text::lemma_space_len(s);
    if t.len() > 0 && budget > 0 {
        if t[0] == '[' {
            let inner = t.skip(1);
            lemma_items_canonical(inner, (budget - 1) as nat);
            if let Ok((items, _)) = parse_items(inner, (budget - 1) as nat) {
                assert(all_canonical(items));
            }
        } else if t[0] == '{' {
            let inner = t.skip(1);
            lemma_members_canonical(inner, (budget - 1) as nat);
            if let Ok((members, _)) = parse_members(inner, (budget - 1) as nat) {
                let entries = put_all(Seq::empty(), members, members.len());
                law_unique_keys(Seq::empty(), members, members.len());
                lemma_put_all_values(members, members.len());
                assert forall|j: int| 0 <= j < entries.len() implies canonical(
                    (#[trigger] entries[j]).1,
                ) by {
                    let k = choose|k: int| 0 <= k < members.len() && members[k].1 == entries[j].1;
                    assert(canonical(members[k].1));
                }
            }
        }
    }
    if t.len() > 0 && (t[0] == '-' || ('0' <= t[0] <= '9')) {
        if number_len(t) is Some {
            lemma_number_canonical(t);
        }
    }
}

/// The items that are read are canonical.
proof fn lemma_items_canonical(s: Seq<char>, budget: nat)
    ensures
        parse_items(s, budget) matches Ok((items, _)) ==> all_canonical(items),
    decreases s.len(), 1nat,
{
    reveal(parse_items);
    reveal(parse_value);
    lemma_value_canonical(s, budget);
    if let Ok((item, left)) = parse_value(s, budget) {
        let t = trim_start(tail(s, left));
        crate::text::lemma_space_len(tail(s, left));
        if t.len() > 0 && t[0] == ',' {
            lemma_items_canonical(t.skip(1), budget);
            if let Ok((rest, _)) = parse_items(t.skip(1), budget) {
                let all = seq![item] + rest;
                assert forall|i: int| 0 <= i < all.len() implies canonical(#[trigger] all[i]) by {
                    if i > 0 {
                        assert(all[i] == rest[i - 1]);
                    }
                }
            }
        }
    }
}

/// The members that are read hold canonical values.
proof fn lemma_members_canonical(s: Seq<char>, budget: nat)
    ensures
        parse_members(s, budget) matches Ok((members, _)) ==> values_canonical(members),
    decreases s.len(), 2nat,
{
    reveal(parse_members);
    reveal(parse_member);
    reveal(parse_value);
    crate::text::lemma_space_len(s);
    let k = trim_start(s);
    if k.len() > 0 && k[0] == '"' {
        if let Ok((key, left0)) = parse_string(k.skip(1)) {
            let u = trim_start(tail(k.skip(1), left0));
            crate::text::lemma_space_len(tail(k.skip(1), left0));
            if u.len() > 0 && u[0] == ':' {
                lemma_value_canonical(u.skip(1), budget);
            }
        }
    }
    if let Ok((member, left)) = parse_member(s, budget) {
        let t = trim_start(tail(s, left));
        crate::text::lemma_space_len(tail(s, left));
        if t.len() > 0 && t[0] == ',' {
            lemma_members_canonical(t.skip(1), budget);
            if let Ok((rest, _)) = parse_members(t.skip(1), budget) {
                let all = seq![member] + rest;
                assert forall|i: int| 0 <= i < all.len() implies canonical(
                    (#[trigger] all[i]).1,
                ) by {
                    if i > 0 {
                        assert(all[i] == rest[i - 1]);
                    }
                }
            }
        }
    }
}

/// Canonical reading: every value that is read from a text is held as a
/// reader holds it. No object in it has a key twice, and every number in
/// it is an integer within 64 bits or a numeric literal that denotes
/// itself.
pub proof fn law_read_canonical(s: Seq<char>)
    ensures
        parse_document(s) matches Ok(v) ==> canonical(v),
{
    lemma_value_canonical(s, MAX_NESTING as nat);
}

} // verus!

verus! {

/// Every item of a list adds at most `bound` levels.
pub open spec fn all_within(items: Seq<ValueView>, bound: nat) -> bool {
    forall|i: int| 0 <= i < items.len() ==> (#[trigger] items[i]).level() <= bound
}

/// Every value of a list of members adds at most `bound` levels.
pub open spec fn values_within(members: Seq<(Seq<char>, ValueView)>, bound: nat) -> bool {
    forall|i: int| 0 <= i < members.len() ==> (#[trigger] members[i]).1.level() <= bound
}

/// A value that is read is nested no deeper than the budget allows.
pub proof fn lemma_value_within(s: Seq<char>, budget: nat)
    ensures
        parse_value(s, budget) matches Ok((v, _)) ==> v.level() <= budget,
    decreases s.len(), 0nat,
{
    reveal(parse_value);
    reveal(parse_array);
    reveal(parse_object);
    reveal(parse_items);
    reveal(parse_members);
    reveal(parse_string);
    let t = trim_start(s);
    crate::text::lemma_space_len(s);
    if t.len() > 0 && budget > 0 {
        if t[0] == '[' {
            let inner = t.skip(1);
            lemma_items_within(inner, (budget - 1) as nat);
            if let Ok((items, _)) = parse_items(inner, (budget - 1) as nat) {
                let levels = crate::value::item_levels(items);
                assert forall|i: int| 0 <= i < levels.len() implies levels[i] <= budget - 1 by {
                    assert(items[i].level() <= budget - 1);
                }
                crate::value::lemma_max_of_least(levels, (budget - 1) as nat);
            }
            assert(crate::value::item_levels(Seq::<ValueView>::empty()) =~= Seq::<nat>::empty());
        } else if t[0] == '{' {
            let inner = t.skip(1);
            lemma_members_within(inner, (budget - 1) as nat);
            if let Ok((members, _)) = parse_members(inner, (budget - 1) as nat) {
                let entries = put_all(Seq::empty(), members, members.len());
                lemma_put_all_values(members, members.len());
                let levels = crate::value::entry_levels(entries);
                assert forall|j: int| 0 <= j < levels.len() implies levels[j] <= budget - 1 by {
                    let k = choose|k: int| 0 <= k < members.len() && members[k].1 == entries[j].1;
                    assert(members[k].1.level() <= budget - 1);
                }
                crate::value::lemma_max_of_least(levels, (budget - 1) as nat);
            }
            assert(crate::value::entry_levels(Seq::<(Seq<char>, ValueView)>::empty())
                =~= Seq::<nat>::empty());
        }
    }
}

/// The items that are read are nested no deeper than the budget allows.
proof fn lemma_items_within(s: Seq<char>, budget: nat)
    ensures
        parse_items(s, budget) matches Ok((items, _)) ==> all_within(items, budget),
    decreases s.len(), 1nat,
{
    reveal(parse_items);
    reveal(parse_value);
    lemma_value_within(s, budget);
    if let Ok((item, left)) = parse_value(s, budget) {
        let t = trim_start(tail(s, left));
        crate::text::lemma_space_len(tail(s, left));
        if t.len() > 0 && t[0] == ',' {
            lemma_items_within(t.skip(1), budget);
            if let Ok((rest, _)) = parse_items(t.skip(1), budget) {
                let all = seq![item] + rest;
                assert forall|i: int| 0 <= i < all.len() implies (#[trigger] all[i]).level()
                    <= budget by {
                    if i > 0 {
                        assert(all[i] == rest[i - 1]);
                    }
                }
            }
        }
    }
}

/// The members that are read hold values that are nested no deeper than
/// the budget allows.
proof fn lemma_members_within(s: Seq<char>, budget: nat)
    ensures
        parse_members(s, budget) matches Ok((members, _)) ==> values_within(members, budget),
    decreases s.len(), 2nat,
{
    reveal(parse_members);
    reveal(parse_member);
    reveal(parse_value);
    crate::text::lemma_space_len(s);
    let k = trim_start(s);
    if k.len() > 0 && k[0] == '"' {
        if let Ok((key, left0)) = parse_string(k.skip(1)) {
            let u = trim_start(tail(k.skip(1), left0));
            crate::text::lemma_space_len(tail(k.skip(1), left0));
            if u.len() > 0 && u[0] == ':' {
                lemma_value_within(u.skip(1), budget);
            }
        }
    }
    if let Ok((member, left)) = parse_member(s, budget) {
        let t = trim_start(tail(s, left));
        crate::text::lemma_space_len(tail(s, left));
        if t.len() > 0 && t[0] == ',' {
            lemma_members_within(t.skip(1), budget);
            if let Ok((rest, _)) = parse_members(t.skip(1), budget) {
                let all = seq![member] + rest;
                assert forall|i: int| 0 <= i < all.len() implies (#[trigger] all[i]).1.level()
                    <= budget by {
                    if i > 0 {
                        assert(all[i] == rest[i - 1]);
                    }
                }
            }
        }
    }
}

/// Stable reading: whatever is read from a text, the text that is written
/// for it is read back as the same value.
pub proof fn law_read_again(s: Seq<char>)
    ensures
        parse_document(s) matches Ok(v) ==> parse_document(crate::json::write::encode(v)) == Ok::<
            ValueView,
            crate::error::Failure,
        >(v),
{
    if let Ok(v) = parse_document(s) {
        lemma_value_canonical(s, MAX_NESTING as nat);
        lemma_value_within(s, MAX_NESTING as nat);
        crate::json::laws::law_round_trip(v);
    }
}

} // verus!
