//! Key order: the copy of a tree in which every object lists its keys in
//! ascending order.

use crate::text::chars_of;
use crate::value::{entry_views, lemma_array_view, lemma_object_view, views, Value, ValueView};
use vstd::prelude::*;

verus! {

/// Whether key `a` comes before key `b`: character by character, a key
/// before every key that it is a proper prefix of.
pub open spec fn key_less(a: Seq<char>, b: Seq<char>) -> bool
    decreases a.len(),
{
    if b.len() == 0 {
        false
    } else if a.len() == 0 {
        true
    } else if a[0] != b[0] {
        a[0] < b[0]
    } else {
        key_less(a.skip(1), b.skip(1))
    }
}

/// Where an entry with the given key goes into a list: behind every entry
/// at the front whose key does not come after it.
pub open spec fn insert_position(entries: Seq<(Seq<char>, ValueView)>, key: Seq<char>) -> nat
    decreases entries.len(),
{
    if entries.len() == 0 || key_less(key, entries[0].0) {
        0
    } else {
        1 + insert_position(entries.skip(1), key)
    }
}

/// The first `n` entries, put in order one after the other.
pub open spec fn sort_entries(entries: Seq<(Seq<char>, ValueView)>, n: nat) -> Seq<
    (Seq<char>, ValueView),
>
    decreases n,
{
    if n == 0 || n > entries.len() {
        Seq::empty()
    } else {
        let before = sort_entries(entries, (n - 1) as nat);
        before.insert(insert_position(before, entries[n - 1].0) as int, entries[n - 1])
    }
}

/// The items of an array, each with its keys in order.
pub open spec fn sorted_items(items: Seq<ValueView>) -> Seq<ValueView>
    decreases items, 0nat,
{
    Seq::new(
        items.len(),
        |i: int|
            if 0 <= i < items.len() {
                sorted(items[i])
            } else {
                ValueView::Null
            },
    )
}

/// The entries of an object, each value with its keys in order.
pub open spec fn sorted_values(entries: Seq<(Seq<char>, ValueView)>) -> Seq<(Seq<char>, ValueView)>
    decreases entries, 0nat,
{
    Seq::new(
        entries.len(),
        |i: int|
            if 0 <= i < entries.len() {
                (entries[i].0, sorted(entries[i].1))
            } else {
                (Seq::empty(), ValueView::Null)
            },
    )
}

/// The tree with the keys of every object in ascending order, at every
/// level. Arrays keep their order.
pub open spec fn sorted(v: ValueView) -> ValueView
    decreases v, 1nat,
{
    match v {
        ValueView::Array(items) => ValueView::Array(sorted_items(items)),
        ValueView::Object(entries) => ValueView::Object(
            sort_entries(sorted_values(entries), entries.len()),
        ),
        _ => v,
    }
}

/// No entry is followed by one whose key comes before its own.
pub open spec fn ascending(entries: Seq<(Seq<char>, ValueView)>) -> bool {
    forall|i: int, j: int|
        0 <= i < j < entries.len() ==> !key_less(
            (#[trigger] entries[j]).0,
            (#[trigger] entries[i]).0,
        )
}

/// Of two different keys one comes before the other, and never both.
pub proof fn lemma_key_order(a: Seq<char>, b: Seq<char>)
    ensures
        !(key_less(a, b) && key_less(b, a)),
        a != b ==> key_less(a, b) || key_less(b, a),
    decreases a.len(),
{
    if a.len() > 0 && b.len() > 0 && a[0] == b[0] {
        lemma_key_order(a.skip(1), b.skip(1));
        if a.skip(1) == b.skip(1) {
            assert(a =~= seq![a[0]] + a.skip(1));
            assert(b =~= seq![b[0]] + b.skip(1));
        }
    } else if a.len() == 0 && b.len() == 0 {
        assert(a =~= b);
    }
}

/// The order of keys is transitive.
pub proof fn lemma_key_less_transitive(a: Seq<char>, b: Seq<char>, c: Seq<char>)
    requires
        key_less(a, b),
        key_less(b, c),
    ensures
        key_less(a, c),
    decreases a.len(),
{
    if a.len() > 0 && a[0] == b[0] && b[0] == c[0] {
        lemma_key_less_transitive(a.skip(1), b.skip(1), c.skip(1));
    }
}

/// In an ascending list, the place found for a key stands behind all
/// entries that do not come after the key, and before all that do.
proof fn lemma_position_splits(entries: Seq<(Seq<char>, ValueView)>, key: Seq<char>)
    requires
        ascending(entries),
    ensures
        insert_position(entries, key) <= entries.len(),
        forall|i: int|
            0 <= i < insert_position(entries, key) ==> !key_less(key, (#[trigger] entries[i]).0),
        forall|i: int|
            insert_position(entries, key) <= i < entries.len() ==> key_less(
                key,
                (#[trigger] entries[i]).0,
            ),
    decreases entries.len(),
{
    if entries.len() == 0 {
    } else if key_less(key, entries[0].0) {
        assert forall|i: int| 0 <= i < entries.len() implies key_less(
            key,
            (#[trigger] entries[i]).0,
        ) by {
            if i > 0 {
                // entries[0] does not come after entries[i]
                lemma_key_order(entries[0].0, entries[i].0);
                if entries[0].0 != entries[i].0 {
                    lemma_key_less_transitive(key, entries[0].0, entries[i].0);
                }
            }
        }
    } else {
        let rest = entries.skip(1);
        assert forall|i: int, j: int| 0 <= i < j < rest.len() implies !key_less(
            (#[trigger] rest[j]).0,
            (#[trigger] rest[i]).0,
        ) by {
            assert(rest[i] == entries[i + 1] && rest[j] == entries[j + 1]);
        }
        lemma_position_splits(rest, key);
        let p = insert_position(entries, key);
        assert forall|i: int| 0 <= i < p implies !key_less(key, (#[trigger] entries[i]).0) by {
            if i > 0 {
                assert(entries[i] == rest[i - 1]);
            }
        }
        assert forall|i: int| p <= i < entries.len() implies key_less(
            key,
            (#[trigger] entries[i]).0,
        ) by {
            assert(entries[i] == rest[i - 1]);
        }
    }
}

/// Key order: entries that were put in order are ascending, and they are
/// as many as before.
pub proof fn law_sort_ascending(entries: Seq<(Seq<char>, ValueView)>, n: nat)
    requires
        n <= entries.len(),
    ensures
        ascending(sort_entries(entries, n)),
        sort_entries(entries, n).len() == n,
    decreases n,
{
    if n > 0 {
        law_sort_ascending(entries, (n - 1) as nat);
        let before = sort_entries(entries, (n - 1) as nat);
        let e = entries[n - 1];
        lemma_position_splits(before, e.0);
        let p = insert_position(before, e.0) as int;
        let after = before.insert(p, e);
        assert forall|i: int, j: int| 0 <= i < j < after.len() implies !key_less(
            (#[trigger] after[j]).0,
            (#[trigger] after[i]).0,
        ) by {
            if j == p {
                assert(after[i] == before[i]);
            } else if i == p {
                assert(after[j] == before[j - 1]);
                lemma_key_order(e.0, before[j - 1].0);
            } else {
                let bi = if i < p {
                    i
                } else {
                    i - 1
                };
                let bj = if j < p {
                    j
                } else {
                    j - 1
                };
                assert(after[i] == before[bi] && after[j] == before[bj]);
            }
        }
    }
}

/// Whether key `a` comes before key `b`.
fn less(a: &Vec<char>, b: &Vec<char>) -> (r: bool)
    ensures
        r == key_less(a@, b@),
{
    let mut i: usize = 0;
    assert(a@.skip(0) =~= a@ && b@.skip(0) =~= b@);
    loop
        invariant
            i <= a.len(),
            i <= b.len(),
            key_less(a@, b@) == key_less(a@.skip(i as int), b@.skip(i as int)),
        decreases a.len() - i,
    {
        if i >= b.len() {
            return false;
        }
        if i >= a.len() {
            return true;
        }
        if a[i] != b[i] {
            return a[i] < b[i];
        }
        proof {
            assert(a@.skip(i as int).skip(1) =~= a@.skip(i + 1));
            assert(b@.skip(i as int).skip(1) =~= b@.skip(i + 1));
        }
        i += 1;
    }
}

/// The place for `key` among entries whose keys are `keys`.
fn find_position(entries: &Vec<(String, Value)>, keys: &Vec<Vec<char>>, key: &Vec<char>) -> (r:
    usize)
    requires
        keys.len() == entries.len(),
        forall|j: int| 0 <= j < keys.len() ==> (#[trigger] keys[j])@ == entries[j].0@,
    ensures
        r == insert_position(entry_views(entries@), key@),
        r <= entries.len(),
{
    let ghost all = entry_views(entries@);
    let mut i: usize = 0;
    assert(all.skip(0) =~= all);
    while i < keys.len() && !less(key, &keys[i])
        invariant
            i <= keys.len(),
            keys.len() == entries.len(),
            all == entry_views(entries@),
            forall|j: int| 0 <= j < keys.len() ==> (#[trigger] keys[j])@ == entries[j].0@,
            insert_position(all, key@) == i + insert_position(all.skip(i as int), key@),
        decreases keys.len() - i,
    {
        proof {
            assert(all.skip(i as int)[0] == all[i as int]);
            assert(all.skip(i as int).skip(1) =~= all.skip(i + 1));
        }
        i += 1;
    }
    proof {
        if i < keys.len() {
            assert(all.skip(i as int)[0] == all[i as int]);
        }
    }
    i
}

/// The copy of `v` with the keys of every object in ascending order.
#[verifier::loop_isolation(false)]
pub fn sort_keys(v: &Value) -> (r: Value)
    ensures
        r@ == sorted(v@),
    decreases v,
{
    match v {
        Value::Array(items) => {
            let mut out: Vec<Value> = Vec::new();
            let mut i: usize = 0;
            while i < items.len()
                invariant
                    i <= items.len(),
                    out.len() == i,
                    forall|j: int| 0 <= j < i ==> out[j]@ == sorted(items[j]@),
                decreases items.len() - i,
            {
                out.push(sort_keys(&items[i]));
                i += 1;
            }
            proof {
                lemma_array_view(out);
                lemma_array_view(*items);
                assert(views(out@) =~= sorted_items(views(items@)));
            }
            Value::Array(out)
        },
        Value::Object(entries) => {
            proof {
                lemma_object_view(*entries);
            }
            let ghost mapped = sorted_values(entry_views(entries@));
            let mut out: Vec<(String, Value)> = Vec::new();
            let mut keys: Vec<Vec<char>> = Vec::new();
            let mut i: usize = 0;
            assert(entry_views(out@) =~= sort_entries(mapped, 0));
            while i < entries.len()
                invariant
                    i <= entries.len(),
                    keys.len() == out.len(),
                    forall|j: int| 0 <= j < keys.len() ==> (#[trigger] keys[j])@ == out[j].0@,
                    entry_views(out@) == sort_entries(mapped, i as nat),
                decreases entries.len() - i,
            {
                let key = entries[i].0.clone();
                let key_chars = chars_of(key.as_str());
                let value = sort_keys(&entries[i].1);
                let ghost entry = (key@, value@);
                assert(entry == mapped[i as int]);
                let at = find_position(&out, &keys, &key_chars);
                let ghost before = entry_views(out@);
                out.insert(at, (key, value));
                keys.insert(at, key_chars);
                assert(entry_views(out@) =~= before.insert(at as int, entry));
                i += 1;
            }
            proof {
                lemma_object_view(out);
            }
            Value::Object(out)
        },
        _ => v.deep_clone(),
    }
}

} // verus!
