//! The depth filter: arrays and objects nested deeper than a limit give way
//! to placeholders.

use crate::error::FilterConfigError;
use crate::value::{
    entry_levels, entry_views, item_levels, lemma_array_view, lemma_max_of_least,
    lemma_max_of_upper, lemma_object_view, views, Value, ValueView,
};
use vstd::prelude::*;

verus! {

/// What stands where a container was cut away: a string that tells an
/// array from an object and holds nothing of the contents.
pub open spec fn placeholder(v: ValueView) -> ValueView {
    match v {
        ValueView::Array(_) => ValueView::String("[...]"@),
        ValueView::Object(_) => ValueView::String("{...}"@),
        _ => v,
    }
}

/// A child of a container that keeps `d` more levels below it: a scalar
/// stays, a container gives way to its placeholder when no level is left.
pub open spec fn truncate_child(child: ValueView, d: nat) -> ValueView
    decreases child, 1nat,
{
    if !child.is_container() {
        child
    } else if d == 0 {
        placeholder(child)
    } else {
        truncate(child, (d - 1) as nat)
    }
}

/// The items of an array, each cut as a child.
pub open spec fn truncate_items(items: Seq<ValueView>, d: nat) -> Seq<ValueView>
    decreases items, 0nat,
{
    Seq::new(
        items.len(),
        |i: int|
            if 0 <= i < items.len() {
                truncate_child(items[i], d)
            } else {
                ValueView::Null
            },
    )
}

/// The entries of an object, each value cut as a child.
pub open spec fn truncate_entries(entries: Seq<(Seq<char>, ValueView)>, d: nat) -> Seq<
    (Seq<char>, ValueView),
>
    decreases entries, 0nat,
{
    Seq::new(
        entries.len(),
        |i: int|
            if 0 <= i < entries.len() {
                (entries[i].0, truncate_child(entries[i].1, d))
            } else {
                (Seq::empty(), ValueView::Null)
            },
    )
}

/// The tree with every container at a level beyond `d` replaced by its
/// placeholder; the root is level 0 and always stays.
pub open spec fn truncate(v: ValueView, d: nat) -> ValueView
    decreases v, 0nat,
{
    match v {
        ValueView::Array(items) => ValueView::Array(truncate_items(items, d)),
        ValueView::Object(entries) => ValueView::Object(truncate_entries(entries, d)),
        _ => v,
    }
}

/// A cut child adds at most `d` levels.
proof fn lemma_child_bound(child: ValueView, d: nat)
    ensures
        truncate_child(child, d).level() <= d,
    decreases child, 1nat,
{
    if child.is_container() && d > 0 {
        lemma_truncate_bound(child, (d - 1) as nat);
    }
}

/// A tree cut at `d` is at most `d` deep.
pub proof fn lemma_truncate_bound(v: ValueView, d: nat)
    ensures
        truncate(v, d).depth() <= d,
    decreases v, 0nat,
{
    match v {
        ValueView::Array(items) => {
            let levels = item_levels(truncate_items(items, d));
            assert forall|i: int| 0 <= i < levels.len() implies levels[i] <= d by {
                lemma_child_bound(items[i], d);
            }
            lemma_max_of_least(levels, d);
        },
        ValueView::Object(entries) => {
            let levels = entry_levels(truncate_entries(entries, d));
            assert forall|i: int| 0 <= i < levels.len() implies levels[i] <= d by {
                lemma_child_bound(entries[i].1, d);
            }
            lemma_max_of_least(levels, d);
        },
        _ => {},
    }
}

/// A child that adds at most `d` levels is left as it is.
proof fn lemma_child_unchanged(child: ValueView, d: nat)
    requires
        child.level() <= d,
    ensures
        truncate_child(child, d) == child,
    decreases child, 1nat,
{
    if child.is_container() {
        lemma_truncate_unchanged(child, (d - 1) as nat);
    }
}

/// A tree that is at most `d` deep is left as it is.
pub proof fn lemma_truncate_unchanged(v: ValueView, d: nat)
    requires
        v.depth() <= d,
    ensures
        truncate(v, d) == v,
    decreases v, 0nat,
{
    match v {
        ValueView::Array(items) => {
            let levels = item_levels(items);
            assert forall|i: int| 0 <= i < items.len() implies truncate_child(items[i], d)
                == items[i] by {
                lemma_max_of_upper(levels, i);
                lemma_child_unchanged(items[i], d);
            }
            assert(truncate_items(items, d) =~= items);
        },
        ValueView::Object(entries) => {
            let levels = entry_levels(entries);
            assert forall|i: int| 0 <= i < entries.len() implies truncate_child(entries[i].1, d)
                == entries[i].1 by {
                lemma_max_of_upper(levels, i);
                lemma_child_unchanged(entries[i].1, d);
            }
            assert(truncate_entries(entries, d) =~= entries);
        },
        _ => {},
    }
}

/// The depth bound: for every tree and every limit `d`, the filtered tree is
/// at most `d` deep, and a tree that was at most `d` deep comes out
/// unchanged.
pub proof fn law_depth_bound(v: ValueView, d: nat)
    ensures
        truncate(v, d).depth() <= d,
        v.depth() <= d ==> truncate(v, d) == v,
{
    lemma_truncate_bound(v, d);
    if v.depth() <= d {
        lemma_truncate_unchanged(v, d);
    }
}

/// The depth filter with its limit.
#[derive(Debug, Clone, Copy, PartialEq, Eq, Structural)]
pub struct MaxDepthFilter {
    pub max_depth: u64,
}

impl MaxDepthFilter {
    /// A filter that keeps `depth` levels below the root. A negative limit
    /// is refused here, before any tree is seen.
    pub fn new(depth: i64) -> (r: Result<MaxDepthFilter, FilterConfigError>)
        ensures
            depth < 0 ==> r == Err::<MaxDepthFilter, FilterConfigError>(
                FilterConfigError::NegativeDepth,
            ),
            depth >= 0 ==> r == Ok::<MaxDepthFilter, FilterConfigError>(
                MaxDepthFilter { max_depth: depth as u64 },
            ),
    {
        if depth < 0 {
            Err(FilterConfigError::NegativeDepth)
        } else {
            Ok(MaxDepthFilter { max_depth: depth as u64 })
        }
    }

    /// The filtered copy of `value`.
    pub fn apply(&self, value: &Value) -> (r: Value)
        ensures
            r@ == truncate(value@, self.max_depth as nat),
    {
        cut(value, self.max_depth)
    }
}

/// A child cut for a parent that keeps `d` more levels.
fn cut_child(child: &Value, d: u64) -> (r: Value)
    ensures
        r@ == truncate_child(child@, d as nat),
    decreases child, 1nat,
{
    match child {
        Value::Array(_) => {
            if d == 0 {
                Value::String("[...]".to_owned())
            } else {
                cut(child, d - 1)
            }
        },
        Value::Object(_) => {
            if d == 0 {
                Value::String("{...}".to_owned())
            } else {
                cut(child, d - 1)
            }
        },
        _ => child.deep_clone(),
    }
}

/// The tree cut at `d`.
#[verifier::loop_isolation(false)]
fn cut(v: &Value, d: u64) -> (r: Value)
    ensures
        r@ == truncate(v@, d as nat),
    decreases v, 0nat,
{
    match v {
        Value::Array(items) => {
            let mut out: Vec<Value> = Vec::new();
            let mut i: usize = 0;
            while i < items.len()
                invariant
                    i <= items.len(),
                    out.len() == i,
                    forall|j: int| 0 <= j < i ==> out[j]@ == truncate_child(items[j]@, d as nat),
                decreases items.len() - i,
            {
                out.push(cut_child(&items[i], d));
                i += 1;
            }
            proof {
                lemma_array_view(out);
                lemma_array_view(*items);
                assert(views(out@) =~= truncate_items(views(items@), d as nat));
            }
            Value::Array(out)
        },
        Value::Object(entries) => {
            let mut out: Vec<(String, Value)> = Vec::new();
            let mut i: usize = 0;
            while i < entries.len()
                invariant
                    i <= entries.len(),
                    out.len() == i,
                    forall|j: int|
                        0 <= j < i ==> out[j].0@ == entries[j].0@ && out[j].1@ == truncate_child(
                            entries[j].1@,
                            d as nat,
                        ),
                decreases entries.len() - i,
            {
                out.push((entries[i].0.clone(), cut_child(&entries[i].1, d)));
                i += 1;
            }
            proof {
                lemma_object_view(out);
                lemma_object_view(*entries);
                assert(entry_views(out@) =~= truncate_entries(entry_views(entries@), d as nat));
            }
            Value::Object(out)
        },
        _ => v.deep_clone(),
    }
}

} // verus!
