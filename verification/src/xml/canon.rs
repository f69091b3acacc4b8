//! What holds of every value that is read from XML.

use crate::json::canon::values_canonical;
use crate::json::syntax::MAX_NESTING;
use crate::number::canonical;
use crate::text::{lemma_space_len, starts_with, tail, trim_start};
use crate::value::{key_index, keys_unique, lemma_key_index, ValueView};
use crate::xml::syntax::{
    element_value, find, lemma_find, lemma_name_len, merge, name_len, parse_attributes,
    parse_content, parse_document, parse_element, parse_text, skip_misc, Entry, TagEnd,
};
use vstd::prelude::*;

verus! {

/// Whether entries have unique keys and canonical values.
pub open spec fn sound(entries: Seq<Entry>) -> bool {
    keys_unique(entries) && values_canonical(entries)
}

/// One more canonical value under a name leaves the entries sound.
proof fn lemma_merge_sound(entries: Seq<Entry>, name: Seq<char>, value: ValueView)
    requires
        sound(entries),
        canonical(value),
    ensures
        sound(merge(entries, name, value)),
{
    lemma_key_index(entries, name);
    let merged = merge(entries, name, value);
    match key_index(entries, name) {
        None => {
            assert forall|i: int| 0 <= i < merged.len() implies canonical(
                (#[trigger] merged[i]).1,
            ) by {
                if i < entries.len() {
                    assert(merged[i] == entries[i]);
                }
            }
        },
        Some(at) => {
            assert(canonical(entries[at].1));
            match entries[at].1 {
                ValueView::Array(items) => {
                    let all = items.push(value);
                    assert forall|i: int| 0 <= i < all.len() implies canonical(
                        #[trigger] all[i],
                    ) by {
                        if i < items.len() {
                            assert(all[i] == items[i]);
                        }
                    }
                    assert(canonical(ValueView::Array(all)));
                },
                other => {
                    let all = seq![other, value];
                    assert forall|i: int| 0 <= i < all.len() implies canonical(
                        #[trigger] all[i],
                    ) by {}
                    assert(canonical(ValueView::Array(all)));
                },
            }
            assert forall|i: int| 0 <= i < merged.len() implies canonical(
                (#[trigger] merged[i]).1,
            ) by {
                if i != at {
                    assert(merged[i] == entries[i]);
                }
            }
            assert forall|i: int, j: int| 0 <= i < j < merged.len() implies (#[trigger] merged[i]).0
                != (#[trigger] merged[j]).0 by {
                assert(merged[i].0 == entries[i].0);
                assert(merged[j].0 == entries[j].0);
            }
        },
    }
}

/// What an element with sound entries is worth is canonical.
proof fn lemma_element_value(entries: Seq<Entry>, text: Seq<char>)
    requires
        sound(entries),
    ensures
        canonical(element_value(entries, text)),
{
    let kept = crate::xml::syntax::trimmed(text);
    if entries.len() > 0 && kept.len() > 0 {
        lemma_merge_sound(entries, seq!['#', 't', 'e', 'x', 't'], ValueView::String(kept));
    }
}

/// The attributes that are read onto sound entries are sound entries.
proof fn lemma_attributes_sound(s: Seq<char>, done: Seq<Entry>)
    requires
        sound(done),
    ensures
        parse_attributes(s, done) matches Ok(((all, _), _)) ==> sound(all),
    decreases s.len(),
{
    reveal(parse_attributes);
    let t = trim_start(s);
    if t.len() > 0 && t[0] != '>' && t[0] != '/' {
        let n = name_len(t);
        let u = trim_start(t.skip(n as int));
        if n > 0 && u.len() > 0 && u[0] == '=' {
            let w = trim_start(u.skip(1));
            if w.len() > 0 && (w[0] == '"' || w[0] == '\'') {
                if let Ok((value, left)) = parse_text(w.skip(1), w[0]) {
                    lemma_space_len(s);
                    lemma_name_len(t);
                    lemma_space_len(t.skip(n as int));
                    lemma_space_len(u.skip(1));
                    if left > 0 {
                        let next = merge(done, seq!['@'] + t.take(n as int), ValueView::String(value));
                        lemma_merge_sound(done, seq!['@'] + t.take(n as int), ValueView::String(value));
                        lemma_attributes_sound(tail(w.skip(1), (left - 1) as nat), next);
                    }
                }
            }
        }
    }
}

/// An element that is read is worth a canonical value.
proof fn lemma_element_canonical(s: Seq<char>, budget: nat)
    ensures
        parse_element(s, budget) matches Ok((entry, _)) ==> canonical(entry.1),
    decreases s.len(), 1nat,
{
    reveal(parse_element);
    reveal(parse_content);
    let n = name_len(s);
    if n > 0 {
        lemma_attributes_sound(s.skip(n as int), Seq::empty());
        if let Ok(((entries, end), left)) = parse_attributes(s.skip(n as int), Seq::empty()) {
            match end {
                TagEnd::Closed => {
                    lemma_element_value(entries, Seq::empty());
                },
                TagEnd::Open => {
                    if budget > 0 {
                        lemma_content_canonical(
                            tail(s, left),
                            s.take(n as int),
                            entries,
                            Seq::empty(),
                            (budget - 1) as nat,
                        );
                    }
                },
            }
        }
    }
}

/// Content that is read onto sound entries is worth a canonical value.
proof fn lemma_content_canonical(
    s: Seq<char>,
    name: Seq<char>,
    entries: Seq<Entry>,
    text: Seq<char>,
    budget: nat,
)
    requires
        sound(entries),
    ensures
        parse_content(s, name, entries, text, budget) matches Ok((v, _)) ==> canonical(v),
    decreases s.len(), 0nat,
{
    reveal(parse_content);
    reveal(parse_element);
    if let Ok((more, left)) = parse_text(s, '<') {
        let t = tail(s, left);
        if t.len() > 0 {
            if starts_with(t, seq!['<', '/']) {
                lemma_element_value(entries, text + more);
            } else if starts_with(t, seq!['<', '!', '-', '-']) {
                if let Some(i) = find(t.skip(4), seq!['-', '-', '>']) {
                    lemma_find(t.skip(4), seq!['-', '-', '>']);
                    lemma_content_canonical(
                        t.skip(4 + i + 3 as int),
                        name,
                        entries,
                        text + more,
                        budget,
                    );
                }
            } else {
                lemma_element_canonical(t.skip(1), budget);
                if let Ok((child, left2)) = parse_element(t.skip(1), budget) {
                    lemma_merge_sound(entries, child.0, child.1);
                    lemma_content_canonical(
                        tail(t.skip(1), left2),
                        name,
                        merge(entries, child.0, child.1),
                        text + more,
                        budget,
                    );
                }
            }
        }
    }
}

/// Canonical reading: every value that is read from a document is held as
/// a reader holds it: no object in it has a key twice.
pub proof fn law_read_canonical(s: Seq<char>)
    ensures
        parse_document(s) matches Ok(v) ==> canonical(v),
{
    if let Ok(left) = skip_misc(s) {
        let t = tail(s, left);
        if t.len() > 0 && t[0] == '<' {
            lemma_element_canonical(t.skip(1), MAX_NESTING as nat);
        }
    }
}

} // verus!
