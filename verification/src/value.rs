//! The format-agnostic value tree that every parser produces and every
//! encoder consumes.

use vstd::prelude::*;

verus! {

/// A number, which remembers how its source literal was written.
#[derive(Debug, PartialEq, Eq)]
pub enum Number {
    /// An integral literal that fits 64 bits.
    Int(i64),
    /// Any other numeric literal (a fraction, an exponent, or an integer too
    /// large for 64 bits), kept exactly as it was written.
    Literal(String),
}

/// The mathematical model of a [`Number`].
pub enum NumberView {
    Int(int),
    Literal(Seq<char>),
}

/// The in-memory tree shared by all formats.
///
/// An object is a list of entries in insertion order.
#[derive(Debug, PartialEq, Eq)]
pub enum Value {
    Null,
    Bool(bool),
    Number(Number),
    String(String),
    Array(Vec<Value>),
    Object(Vec<(String, Value)>),
}

/// The mathematical model of a [`Value`].
pub enum ValueView {
    Null,
    Bool(bool),
    Number(NumberView),
    String(Seq<char>),
    Array(Seq<ValueView>),
    Object(Seq<(Seq<char>, ValueView)>),
}

impl View for Number {
    type V = NumberView;

    open spec fn view(&self) -> NumberView {
        match self {
            Number::Int(i) => NumberView::Int(*i as int),
            Number::Literal(s) => NumberView::Literal(s@),
        }
    }
}

impl Value {
    /// The tree as a mathematical value.
    pub open spec fn model(&self) -> ValueView
        decreases self,
    {
        match self {
            Value::Null => ValueView::Null,
            Value::Bool(b) => ValueView::Bool(*b),
            Value::Number(n) => ValueView::Number(n@),
            Value::String(s) => ValueView::String(s@),
            Value::Array(items) => ValueView::Array(
                Seq::new(
                    items.len() as nat,
                    |i: int|
                        if 0 <= i < items.len() {
                            items[i].model()
                        } else {
                            ValueView::Null
                        },
                ),
            ),
            Value::Object(entries) => ValueView::Object(
                Seq::new(
                    entries.len() as nat,
                    |i: int|
                        if 0 <= i < entries.len() {
                            (entries[i].0@, entries[i].1.model())
                        } else {
                            (Seq::empty(), ValueView::Null)
                        },
                ),
            ),
        }
    }
}

impl View for Value {
    type V = ValueView;

    open spec fn view(&self) -> ValueView {
        self.model()
    }
}

/// The models of a list of values, in order.
pub open spec fn views(items: Seq<Value>) -> Seq<ValueView> {
    Seq::new(items.len(), |i: int| items[i]@)
}

/// The models of a list of object entries, in order.
pub open spec fn entry_views(entries: Seq<(String, Value)>) -> Seq<(Seq<char>, ValueView)> {
    Seq::new(entries.len(), |i: int| (entries[i].0@, entries[i].1@))
}

/// An array's model is the list of its items' models.
pub proof fn lemma_array_view(items: Vec<Value>)
    ensures
        Value::Array(items)@ == ValueView::Array(views(items@)),
{
    assert(Value::Array(items)@->Array_0 =~= views(items@));
}

/// An object's model is the list of its entries' models.
pub proof fn lemma_object_view(entries: Vec<(String, Value)>)
    ensures
        Value::Object(entries)@ == ValueView::Object(entry_views(entries@)),
{
    assert(Value::Object(entries)@->Object_0 =~= entry_views(entries@));
}

/// The greatest element of a list of naturals, 0 for the empty list.
pub open spec fn max_of(s: Seq<nat>) -> nat
    decreases s.len(),
{
    if s.len() == 0 {
        0
    } else {
        let rest = max_of(s.drop_last());
        if s.last() > rest {
            s.last()
        } else {
            rest
        }
    }
}

/// `max_of` is an upper bound of every element.
pub proof fn lemma_max_of_upper(s: Seq<nat>, i: int)
    requires
        0 <= i < s.len(),
    ensures
        s[i] <= max_of(s),
    decreases s.len(),
{
    if i < s.len() - 1 {
        lemma_max_of_upper(s.drop_last(), i);
    }
}

/// `max_of` is the least upper bound.
pub proof fn lemma_max_of_least(s: Seq<nat>, bound: nat)
    requires
        forall|i: int| 0 <= i < s.len() ==> s[i] <= bound,
    ensures
        max_of(s) <= bound,
    decreases s.len(),
{
    if s.len() > 0 {
        lemma_max_of_least(s.drop_last(), bound);
    }
}

/// The position of the first entry with the given key.
pub open spec fn key_index(entries: Seq<(Seq<char>, ValueView)>, key: Seq<char>) -> Option<int>
    decreases entries.len(),
{
    if entries.len() == 0 {
        None
    } else {
        match key_index(entries.drop_last(), key) {
            Some(i) => Some(i),
            None => if entries.last().0 == key {
                Some(entries.len() - 1)
            } else {
                None
            },
        }
    }
}

/// `key_index` finds an entry with the key exactly when there is one, and
/// then the first.
pub proof fn lemma_key_index(entries: Seq<(Seq<char>, ValueView)>, key: Seq<char>)
    ensures
        match key_index(entries, key) {
            Some(i) => 0 <= i < entries.len() && entries[i].0 == key && forall|j: int|
                0 <= j < i ==> entries[j].0 != key,
            None => forall|j: int| 0 <= j < entries.len() ==> entries[j].0 != key,
        },
    decreases entries.len(),
{
    if entries.len() > 0 {
        let front = entries.drop_last();
        lemma_key_index(front, key);
        assert forall|j: int| 0 <= j < front.len() implies front[j] == entries[j] by {}
        match key_index(front, key) {
            Some(i) => {
                assert(entries[i] == front[i]);
            },
            None => {
                assert forall|j: int| 0 <= j < entries.len() - 1 implies entries[j].0 != key by {
                    assert(entries[j] == front[j]);
                }
            },
        }
    }
}

/// No two entries share a key.
pub open spec fn keys_unique(entries: Seq<(Seq<char>, ValueView)>) -> bool {
    forall|i: int, j: int|
        0 <= i < j < entries.len() ==> (#[trigger] entries[i]).0 != (#[trigger] entries[j]).0
}

/// The entries after `key` was set to `value`: an entry with that key keeps
/// its place and takes the new value, a new key goes to the end.
pub open spec fn put(entries: Seq<(Seq<char>, ValueView)>, key: Seq<char>, value: ValueView) -> Seq<
    (Seq<char>, ValueView),
> {
    match key_index(entries, key) {
        Some(i) => entries.update(i, (key, value)),
        None => entries.push((key, value)),
    }
}

/// Setting a key keeps the keys unique.
pub proof fn lemma_put_unique(entries: Seq<(Seq<char>, ValueView)>, key: Seq<char>, value: ValueView)
    requires
        keys_unique(entries),
    ensures
        keys_unique(put(entries, key, value)),
{
    lemma_key_index(entries, key);
}

/// The level that each item of an array adds.
pub open spec fn item_levels(items: Seq<ValueView>) -> Seq<nat>
    decreases items, 0nat,
{
    Seq::new(
        items.len(),
        |i: int|
            if 0 <= i < items.len() {
                items[i].level()
            } else {
                0nat
            },
    )
}

/// The level that each entry of an object adds.
pub open spec fn entry_levels(entries: Seq<(Seq<char>, ValueView)>) -> Seq<nat>
    decreases entries, 0nat,
{
    Seq::new(
        entries.len(),
        |i: int|
            if 0 <= i < entries.len() {
                entries[i].1.level()
            } else {
                0nat
            },
    )
}

impl ValueView {
    /// Whether this is an array or an object.
    pub open spec fn is_container(self) -> bool {
        self is Array || self is Object
    }

    /// The level that a child adds below its parent: none for a scalar, one
    /// more than its own depth for a container.
    pub open spec fn level(self) -> nat
        decreases self, 1nat,
    {
        if self.is_container() {
            self.depth() + 1
        } else {
            0
        }
    }

    /// The depth of the tree: the greatest nesting level at which an array or
    /// an object stands, the root being level 0. Scalars add no level.
    pub open spec fn depth(self) -> nat
        decreases self, 0nat,
    {
        match self {
            ValueView::Array(items) => max_of(item_levels(items)),
            ValueView::Object(entries) => max_of(entry_levels(entries)),
            _ => 0,
        }
    }

    /// The value under `key`, where this is an object that has the key.
    pub open spec fn lookup(self, key: Seq<char>) -> Option<ValueView> {
        match self {
            ValueView::Object(entries) => match key_index(entries, key) {
                Some(i) => Some(entries[i].1),
                None => None,
            },
            _ => None,
        }
    }

    /// The item at position `i`, where this is an array that long.
    pub open spec fn at(self, i: int) -> Option<ValueView> {
        match self {
            ValueView::Array(items) => if 0 <= i < items.len() {
                Some(items[i])
            } else {
                None
            },
            _ => None,
        }
    }
}

/// The first position at which an entry with the given key stands.
pub fn find_key(entries: &Vec<(String, Value)>, key: &String) -> (r: Option<usize>)
    ensures
        r matches Some(i) ==> i < entries.len() && key_index(entry_views(entries@), key@) == Some(
            i as int,
        ),
        r is None ==> key_index(entry_views(entries@), key@) is None,
{
    let mut i: usize = 0;
    while i < entries.len()
        invariant
            i <= entries.len(),
            forall|j: int| 0 <= j < i ==> entry_views(entries@)[j].0 != key@,
        decreases entries.len() - i,
    {
        if entries[i].0 == *key {
            proof {
                assert(entry_views(entries@)[i as int].0 == key@);
                lemma_key_index(entry_views(entries@), key@);
            }
            return Some(i);
        }
        i += 1;
    }
    proof {
        lemma_key_index(entry_views(entries@), key@);
    }
    None
}

/// Sets `key` to `value`: the last write wins, at the place of the first.
pub fn put_entry(entries: &mut Vec<(String, Value)>, key: String, value: Value)
    ensures
        entry_views(final(entries)@) == put(entry_views(old(entries)@), key@, value@),
{
    match find_key(entries, &key) {
        Some(i) => {
            entries.set(i, (key, value));
            assert(entry_views(entries@) =~= put(entry_views(old(entries)@), key@, value@));
        },
        None => {
            entries.push((key, value));
            assert(entry_views(entries@) =~= put(entry_views(old(entries)@), key@, value@));
        },
    }
}

/// The entries set one by one, in order: the last write to a key wins, at
/// the place of the first.
pub fn gather(entries: Vec<(String, Value)>) -> (out: Vec<(String, Value)>)
    ensures
        entry_views(out@) == put_all(Seq::empty(), entry_views(entries@), entries.len() as nat),
{
    let ghost all = entries@;
    let n = entries.len();
    let mut entries = entries;
    let mut stack: Vec<(String, Value)> = Vec::new();
    while entries.len() > 0
        invariant
            entries.len() + stack.len() == n,
            n == all.len(),
            entries@ == all.take(entries.len() as int),
            forall|t: int| 0 <= t < stack.len() ==> stack[t] == all[n - 1 - t],
        decreases entries.len(),
    {
        let last = entries.pop();
        stack.push(last.unwrap());
        assert(entries@ =~= all.take(entries.len() as int));
    }
    let mut out: Vec<(String, Value)> = Vec::new();
    assert(entry_views(out@) =~= Seq::empty());
    while stack.len() > 0
        invariant
            stack.len() <= n,
            n == all.len(),
            forall|t: int| 0 <= t < stack.len() ==> stack[t] == all[n - 1 - t],
            entry_views(out@) == put_all(
                Seq::empty(),
                entry_views(all),
                (n - stack.len()) as nat,
            ),
        decreases stack.len(),
    {
        let ghost k = n - stack.len();
        let next = stack.pop();
        let (key, value) = next.unwrap();
        assert(entry_views(all)[k] == (key@, value@));
        put_entry(&mut out, key, value);
    }
    out
}

/// Setting entries with unique keys one by one gives the same entries.
pub proof fn lemma_put_all_same(entries: Seq<(Seq<char>, ValueView)>, n: nat)
    requires
        keys_unique(entries),
        n <= entries.len(),
    ensures
        put_all(Seq::empty(), entries, n) == entries.take(n as int),
    decreases n,
{
    if n == 0 {
        assert(entries.take(0) =~= Seq::empty());
    } else {
        lemma_put_all_same(entries, (n - 1) as nat);
        let before = entries.take(n - 1);
        lemma_key_index(before, entries[n - 1].0);
        assert forall|j: int| 0 <= j < before.len() implies before[j].0 != entries[n - 1].0 by {
            assert(before[j] == entries[j]);
        }
        assert(before.push(entries[n - 1]) =~= entries.take(n as int));
    }
}

impl Number {
    /// A copy of the number.
    pub fn duplicate(&self) -> (r: Number)
        ensures
            r@ == self@,
    {
        match self {
            Number::Int(i) => Number::Int(*i),
            Number::Literal(s) => Number::Literal(s.clone()),
        }
    }

    /// Whether two numbers are written the same.
    pub fn equals(&self, other: &Number) -> (r: bool)
        ensures
            r == (self@ == other@),
    {
        match (self, other) {
            (Number::Int(a), Number::Int(b)) => *a == *b,
            (Number::Literal(a), Number::Literal(b)) => *a == *b,
            _ => false,
        }
    }
}

impl Clone for Number {
    fn clone(&self) -> (r: Number)
        ensures
            r@ == self@,
    {
        self.duplicate()
    }
}

impl Clone for Value {
    fn clone(&self) -> (r: Value)
        ensures
            r@ == self@,
    {
        self.deep_clone()
    }
}

impl Value {
    /// The null value.
    pub fn null() -> (r: Value)
        ensures
            r@ == ValueView::Null,
    {
        Value::Null
    }

    /// A boolean.
    pub fn from_bool(b: bool) -> (r: Value)
        ensures
            r@ == ValueView::Bool(b),
    {
        Value::Bool(b)
    }

    /// An integral number.
    pub fn from_int(i: i64) -> (r: Value)
        ensures
            r@ == ValueView::Number(NumberView::Int(i as int)),
    {
        Value::Number(Number::Int(i))
    }

    /// A string.
    pub fn from_text(s: &str) -> (r: Value)
        ensures
            r@ == ValueView::String(s@),
    {
        Value::String(s.to_owned())
    }

    /// An array of the given items.
    pub fn from_items(items: Vec<Value>) -> (r: Value)
        ensures
            r@ == ValueView::Array(views(items@)),
    {
        proof {
            lemma_array_view(items);
        }
        Value::Array(items)
    }

    /// An object of the given entries, taken in order; where a key comes
    /// twice, the last value wins and stands at the place of the first.
    pub fn from_entries(entries: Vec<(String, Value)>) -> (r: Value)
        ensures
            r@ == ValueView::Object(put_all(Seq::empty(), entry_views(entries@), entries.len() as nat)),
    {
        let out = gather(entries);
        proof {
            lemma_object_view(out);
        }
        Value::Object(out)
    }

    /// A copy of the whole tree.
    #[verifier::loop_isolation(false)]
    pub fn deep_clone(&self) -> (r: Value)
        ensures
            r@ == self@,
        decreases self,
    {
        match self {
            Value::Null => Value::Null,
            Value::Bool(b) => Value::Bool(*b),
            Value::Number(n) => Value::Number(n.duplicate()),
            Value::String(s) => Value::String(s.clone()),
            Value::Array(items) => {
                let mut out: Vec<Value> = Vec::new();
                let mut i: usize = 0;
                while i < items.len()
                    invariant
                        i <= items.len(),
                        out.len() == i,
                        forall|j: int| 0 <= j < i ==> out[j]@ == items[j]@,
                    decreases items.len() - i,
                {
                    out.push(items[i].deep_clone());
                    i += 1;
                }
                proof {
                    lemma_array_view(out);
                    lemma_array_view(*items);
                    assert(views(out@) =~= views(items@));
                }
                Value::Array(out)
            },
            Value::Object(entries) => {
                let mut out: Vec<(String, Value)> = Vec::new();
                let mut i: usize = 0;
                while i < entries.len()
                    invariant
                        i <= entries.len(),
                        out.len() == i,
                        forall|j: int|
                            0 <= j < i ==> out[j].0@ == entries[j].0@ && out[j].1@ == entries[j].1@,
                    decreases entries.len() - i,
                {
                    out.push((entries[i].0.clone(), entries[i].1.deep_clone()));
                    i += 1;
                }
                proof {
                    lemma_object_view(out);
                    lemma_object_view(*entries);
                    assert(entry_views(out@) =~= entry_views(entries@));
                }
                Value::Object(out)
            },
        }
    }

    /// Structural equality of two trees.
    #[verifier::loop_isolation(false)]
    pub fn equals(&self, other: &Value) -> (r: bool)
        ensures
            r == (self@ == other@),
        decreases self,
    {
        match (self, other) {
            (Value::Null, Value::Null) => true,
            (Value::Bool(a), Value::Bool(b)) => *a == *b,
            (Value::Number(a), Value::Number(b)) => a.equals(b),
            (Value::String(a), Value::String(b)) => *a == *b,
            (Value::Array(a), Value::Array(b)) => {
                proof {
                    lemma_array_view(*a);
                    lemma_array_view(*b);
                }
                if a.len() != b.len() {
                    assert(views(a@).len() != views(b@).len());
                    return false;
                }
                let mut i: usize = 0;
                while i < a.len()
                    invariant
                        i <= a.len(),
                        forall|j: int| 0 <= j < i ==> a[j]@ == b[j]@,
                    decreases a.len() - i,
                {
                    if !a[i].equals(&b[i]) {
                        assert(views(a@)[i as int] != views(b@)[i as int]);
                        return false;
                    }
                    i += 1;
                }
                assert(views(a@) =~= views(b@));
                true
            },
            (Value::Object(a), Value::Object(b)) => {
                proof {
                    lemma_object_view(*a);
                    lemma_object_view(*b);
                }
                if a.len() != b.len() {
                    assert(entry_views(a@).len() != entry_views(b@).len());
                    return false;
                }
                let mut i: usize = 0;
                while i < a.len()
                    invariant
                        i <= a.len(),
                        forall|j: int| 0 <= j < i ==> a[j].0@ == b[j].0@ && a[j].1@ == b[j].1@,
                    decreases a.len() - i,
                {
                    if !(a[i].0 == b[i].0) || !a[i].1.equals(&b[i].1) {
                        assert(entry_views(a@)[i as int] != entry_views(b@)[i as int]);
                        return false;
                    }
                    i += 1;
                }
                assert(entry_views(a@) =~= entry_views(b@));
                true
            },
            _ => false,
        }
    }

    /// The depth of the tree, or `usize::MAX` where it is greater than that.
    #[verifier::loop_isolation(false)]
    pub fn depth(&self) -> (r: usize)
        ensures
            r as nat == if self@.depth() <= usize::MAX {
                self@.depth()
            } else {
                usize::MAX as nat
            },
        decreases self, 0nat,
    {
        match self {
            Value::Array(items) => {
                let ghost levels = item_levels(views(items@));
                proof {
                    lemma_array_view(*items);
                }
                let mut best: usize = 0;
                let mut i: usize = 0;
                while i < items.len()
                    invariant
                        i <= items.len(),
                        best as nat == saturate(max_of(levels.take(i as int))),
                    decreases items.len() - i,
                {
                    let level = items[i].level();
                    proof {
                        assert(levels.take(i + 1).drop_last() =~= levels.take(i as int));
                        assert(levels.take(i + 1).last() == items[i as int]@.level());
                    }
                    if level > best {
                        best = level;
                    }
                    i += 1;
                }
                assert(levels.take(i as int) =~= levels);
                best
            },
            Value::Object(entries) => {
                let ghost levels = entry_levels(entry_views(entries@));
                proof {
                    lemma_object_view(*entries);
                }
                let mut best: usize = 0;
                let mut i: usize = 0;
                while i < entries.len()
                    invariant
                        i <= entries.len(),
                        best as nat == saturate(max_of(levels.take(i as int))),
                    decreases entries.len() - i,
                {
                    let level = entries[i].1.level();
                    proof {
                        assert(levels.take(i + 1).drop_last() =~= levels.take(i as int));
                        assert(levels.take(i + 1).last() == entries[i as int].1@.level());
                    }
                    if level > best {
                        best = level;
                    }
                    i += 1;
                }
                assert(levels.take(i as int) =~= levels);
                best
            },
            _ => 0,
        }
    }

    /// The level that this value adds below a parent, capped like `depth`.
    fn level(&self) -> (r: usize)
        ensures
            r as nat == saturate(self@.level()),
        decreases self, 1nat,
    {
        match self {
            Value::Array(_) | Value::Object(_) => {
                let d = self.depth();
                if d == usize::MAX {
                    d
                } else {
                    d + 1
                }
            },
            _ => 0,
        }
    }

    /// The value under `key`: `None` where this is no object or has no such
    /// key, which a present null is not.
    pub fn get(&self, key: &str) -> (r: Option<&Value>)
        ensures
            match self@.lookup(key@) {
                Some(v) => r matches Some(x) && x@ == v,
                None => r is None,
            },
    {
        match self {
            Value::Object(entries) => {
                proof {
                    lemma_object_view(*entries);
                }
                let owned = key.to_owned();
                match find_key(entries, &owned) {
                    Some(i) => Some(&entries[i].1),
                    None => None,
                }
            },
            _ => None,
        }
    }

    /// The item at position `i`: `None` where this is no array or is shorter.
    pub fn index(&self, i: usize) -> (r: Option<&Value>)
        ensures
            match self@.at(i as int) {
                Some(v) => r matches Some(x) && x@ == v,
                None => r is None,
            },
    {
        match self {
            Value::Array(items) => {
                proof {
                    lemma_array_view(*items);
                }
                if i < items.len() {
                    Some(&items[i])
                } else {
                    None
                }
            },
            _ => None,
        }
    }
}

/// A natural capped at `usize::MAX`.
pub open spec fn saturate(n: nat) -> nat {
    if n <= usize::MAX {
        n
    } else {
        usize::MAX as nat
    }
}

/// The entries after the first `n` of `more` were set one by one.
pub open spec fn put_all(
    entries: Seq<(Seq<char>, ValueView)>,
    more: Seq<(Seq<char>, ValueView)>,
    n: nat,
) -> Seq<(Seq<char>, ValueView)>
    decreases n,
{
    if n == 0 || n > more.len() {
        entries
    } else {
        put(put_all(entries, more, (n - 1) as nat), more[n - 1].0, more[n - 1].1)
    }
}

/// Unique keys: however often a key is written while an object is put
/// together, the object holds it once. Entries that are set one by one onto
/// entries with unique keys have unique keys.
pub proof fn law_unique_keys(
    entries: Seq<(Seq<char>, ValueView)>,
    more: Seq<(Seq<char>, ValueView)>,
    n: nat,
)
    requires
        keys_unique(entries),
    ensures
        keys_unique(put_all(entries, more, n)),
    decreases n,
{
    if n == 0 || n > more.len() {
    } else {
        law_unique_keys(entries, more, (n - 1) as nat);
        lemma_put_unique(put_all(entries, more, (n - 1) as nat), more[n - 1].0, more[n - 1].1);
    }
}

} // verus!

verus! {

/// Every value among entries that were set one by one onto nothing is the
/// value of one of the entries that were set.
pub proof fn lemma_put_all_values(more: Seq<(Seq<char>, ValueView)>, n: nat)
    requires
        n <= more.len(),
    ensures
        forall|j: int|
            0 <= j < put_all(Seq::empty(), more, n).len() ==> exists|k: int|
                0 <= k < n && more[k].1 == (#[trigger] put_all(Seq::empty(), more, n)[j]).1,
    decreases n,
{
    if n > 0 {
        let before = put_all(Seq::empty(), more, (n - 1) as nat);
        lemma_put_all_values(more, (n - 1) as nat);
        lemma_key_index(before, more[n - 1].0);
        let all = put_all(Seq::empty(), more, n);
        assert forall|j: int| 0 <= j < all.len() implies exists|k: int|
            0 <= k < n && more[k].1 == (#[trigger] all[j]).1 by {
            if all[j] == (more[n - 1].0, more[n - 1].1) {
                assert(more[n - 1].1 == all[j].1);
            } else {
                assert(all[j] == before[j]);
                let k = choose|k: int| 0 <= k < n - 1 && more[k].1 == before[j].1;
                assert(more[k].1 == all[j].1);
            }
        }
    }
}

} // verus!
