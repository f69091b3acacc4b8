//! The path filter: walks a tree along a path expression and gives what
//! the expression matches.

use crate::error::FilterConfigError;
use crate::filters::path::{
    parse_path, path_error, read_path, segment_views, Segment, SegmentView,
};
use crate::value::{lemma_array_view, views, Value, ValueView};
use vstd::prelude::*;

verus! {

/// The values that `path` matches below `v`, in the order of the walk.
pub open spec fn select(v: ValueView, path: Seq<SegmentView>) -> Seq<ValueView>
    decreases path.len(), 0nat,
{
    if path.len() == 0 {
        seq![v]
    } else {
        match path[0] {
            SegmentView::Key(key) => match v.lookup(key) {
                Some(child) => select(child, path.skip(1)),
                None => Seq::empty(),
            },
            SegmentView::Index(i) => match v.at(i as int) {
                Some(child) => select(child, path.skip(1)),
                None => Seq::empty(),
            },
            SegmentView::Wildcard => match v {
                ValueView::Array(items) => select_each(items, path.skip(1), items.len()),
                _ => Seq::empty(),
            },
        }
    }
}

/// What `path` matches below each of the first `n` items, one item after
/// the other.
pub open spec fn select_each(items: Seq<ValueView>, path: Seq<SegmentView>, n: nat) -> Seq<
    ValueView,
>
    decreases path.len(), n + 1,
{
    if n == 0 || n > items.len() {
        Seq::empty()
    } else {
        select_each(items, path, (n - 1) as nat) + select(items[n - 1], path)
    }
}

/// The result of the filter: the one match itself, or the list of the
/// matches where there are several or none.
pub open spec fn extract(v: ValueView, path: Seq<SegmentView>) -> ValueView {
    let found = select(v, path);
    if found.len() == 1 {
        found[0]
    } else {
        ValueView::Array(found)
    }
}

/// The path filter with its parsed expression.
#[derive(Debug, PartialEq, Eq)]
pub struct IncludeFilter {
    pub path: Vec<Segment>,
}

impl IncludeFilter {
    /// A filter for the given path expression. A syntax error is refused
    /// here, before any tree is seen.
    pub fn new(expression: &str) -> (r: Result<IncludeFilter, FilterConfigError>)
        ensures
            match parse_path(expression@) {
                Ok(segments) => r matches Ok(f) && segment_views(f.path@) == segments,
                Err(failure) => failure.1 <= expression@.len() && r == Err::<
                    IncludeFilter,
                    FilterConfigError,
                >(FilterConfigError::Path(path_error(expression@.len(), failure))),
            },
    {
        match read_path(expression) {
            Ok(path) => Ok(IncludeFilter { path }),
            Err(e) => Err(FilterConfigError::Path(e)),
        }
    }

    /// What the expression matches in `value`: the match itself where there
    /// is exactly one, else the array of the matches, which is empty where
    /// nothing matches.
    pub fn apply(&self, value: &Value) -> (r: Value)
        ensures
            r@ == extract(value@, segment_views(self.path@)),
    {
        let mut found: Vec<Value> = Vec::new();
        assert(segment_views(self.path@).skip(0) =~= segment_views(self.path@));
        collect(value, &self.path, 0, &mut found);
        assert(views(found@) =~= select(value@, segment_views(self.path@)));
        if found.len() == 1 {
            let only = found.pop();
            only.unwrap()
        } else {
            proof {
                lemma_array_view(found);
            }
            Value::Array(found)
        }
    }
}

/// Appends to `out` what the path from segment `from` on matches below `v`.
#[verifier::loop_isolation(false)]
fn collect(v: &Value, path: &Vec<Segment>, from: usize, out: &mut Vec<Value>)
    requires
        from <= path.len(),
    ensures
        views(final(out)@) == views(old(out)@) + select(v@, segment_views(path@).skip(from as int)),
    decreases path.len() - from, 0nat,
{
    let ghost rest = segment_views(path@).skip(from as int);
    if from == path.len() {
        out.push(v.deep_clone());
        assert(views(out@) =~= views(old(out)@) + seq![v@]);
        return ;
    }
    proof {
        assert(rest[0] == path[from as int]@);
        assert(rest.skip(1) =~= segment_views(path@).skip(from + 1));
    }
    match &path[from] {
        Segment::Key(key) => {
            match v.get(key.as_str()) {
                Some(child) => collect(child, path, from + 1, out),
                None => {
                    assert(views(out@) =~= views(old(out)@) + Seq::<ValueView>::empty());
                },
            }
        },
        Segment::Index(i) => {
            if *i > usize::MAX as u64 {
                assert(v@.at(*i as int) is None) by {
                    if let Value::Array(items) = v {
                        lemma_array_view(*items);
                    }
                }
                assert(views(out@) =~= views(old(out)@) + Seq::<ValueView>::empty());
            } else {
                match v.index(*i as usize) {
                    Some(child) => collect(child, path, from + 1, out),
                    None => {
                        assert(views(out@) =~= views(old(out)@) + Seq::<ValueView>::empty());
                    },
                }
            }
        },
        Segment::Wildcard => {
            match v {
                Value::Array(items) => {
                    proof {
                        lemma_array_view(*items);
                    }
                    let ghost tail = rest.skip(1);
                    let mut i: usize = 0;
                    assert(views(out@) =~= views(old(out)@) + select_each(views(items@), tail, 0));
                    while i < items.len()
                        invariant
                            i <= items.len(),
                            views(out@) == views(old(out)@) + select_each(
                                views(items@),
                                tail,
                                i as nat,
                            ),
                        decreases items.len() - i,
                    {
                        collect(&items[i], path, from + 1, out);
                        i += 1;
                        assert(views(out@) =~= views(old(out)@) + select_each(
                            views(items@),
                            tail,
                            i as nat,
                        ));
                    }
                },
                _ => {
                    assert(views(out@) =~= views(old(out)@) + Seq::<ValueView>::empty());
                },
            }
        },
    }
}

} // verus!
