//! The document tree: typed nodes, objects whose keys map to ordered chains
//! of values, priority-aware insertion and merging, and key/path lookup.
use vstd::prelude::*;
use crate::text::chars_of;
pub use crate::builder::Builder;
pub use crate::types::{Decimal, Type};

verus! {

/// One node of a document tree.
///
/// `key` is the key the node was defined under when it is the value of an
/// object entry; `priority` decides which value survives when two chunks
/// define the same key.
#[derive(Debug)]
pub struct Object {
    pub key: Option<String>,
    pub priority: u32,
    pub value: Value,
}

/// The payload of a node, one variant per [`Type`].
#[derive(Debug)]
pub enum Value {
    /// Entries in insertion order; each key appears in one entry.
    Object(Vec<Entry>),
    Array(Vec<Object>),
    Int(i64),
    Float(Decimal),
    String(String),
    Boolean(bool),
    /// A duration in seconds.
    Time(Decimal),
    UserData,
    Null,
}

/// An object entry: a key and the chain of values defined under it, in the
/// order they were added. The first value is the one that lookups return.
#[derive(Debug)]
pub struct Entry {
    pub key: String,
    pub values: Vec<Object>,
}

/// The kind of a node's value.
pub open spec fn type_of(v: Value) -> Type {
    match v {
        Value::Object(_) => Type::Object,
        Value::Array(_) => Type::Array,
        Value::Int(_) => Type::Int,
        Value::Float(_) => Type::Float,
        Value::String(_) => Type::String,
        Value::Boolean(_) => Type::Boolean,
        Value::Time(_) => Type::Time,
        Value::UserData => Type::UserData,
        Value::Null => Type::Null,
    }
}

/// Object entries seen as (key, chain) pairs.
pub open spec fn entries_view(es: Seq<Entry>) -> Seq<(Seq<char>, Seq<Object>)> {
    es.map_values(|e: Entry| (e.key@, e.values@))
}

/// Index of the first entry at or after `i` whose key is `k`.
pub open spec fn find_key_from(ev: Seq<(Seq<char>, Seq<Object>)>, k: Seq<char>, i: int) -> Option<int>
    decreases ev.len() - i,
{
    if i < 0 || i >= ev.len() {
        None
    } else if ev[i].0 == k {
        Some(i)
    } else {
        find_key_from(ev, k, i + 1)
    }
}

/// Index of the entry whose key is `k`.
pub open spec fn find_key(ev: Seq<(Seq<char>, Seq<Object>)>, k: Seq<char>) -> Option<int> {
    find_key_from(ev, k, 0)
}

/// Well-formed entries: keys are unique and every chain holds a value.
pub open spec fn entries_wf(ev: Seq<(Seq<char>, Seq<Object>)>) -> bool {
    &&& forall|i: int| 0 <= i < ev.len() ==> #[trigger] ev[i].1.len() > 0
    &&& forall|i: int, j: int| 0 <= i < j < ev.len() ==> #[trigger] ev[i].0 != #[trigger] ev[j].0
}

/// The value found under key `k` of `node`: the first of its chain.
pub open spec fn child(node: Object, k: Seq<char>) -> Option<Object> {
    match node.value {
        Value::Object(es) => match find_key(entries_view(es@), k) {
            Some(i) => if es@[i].values@.len() > 0 {
                Some(es@[i].values@[0])
            } else {
                None
            },
            None => None,
        },
        _ => None,
    }
}

/// Adds `v` under key `k`: a new key gets a chain of one; a higher priority
/// than the chain's first value replaces the chain, a lower one is dropped,
/// and an equal one is appended to the chain.
pub open spec fn insert_spec(
    ev: Seq<(Seq<char>, Seq<Object>)>,
    k: Seq<char>,
    v: Object,
) -> Seq<(Seq<char>, Seq<Object>)> {
    match find_key(ev, k) {
        None => ev.push((k, seq![v])),
        Some(i) => {
            let chain = ev[i].1;
            if chain.len() == 0 || v.priority > chain[0].priority {
                ev.update(i, (k, seq![v]))
            } else if v.priority < chain[0].priority {
                ev
            } else {
                ev.update(i, (k, chain.push(v)))
            }
        },
    }
}

/// Whether adding `v` under `k` would append to an existing chain.
pub open spec fn is_duplicate(ev: Seq<(Seq<char>, Seq<Object>)>, k: Seq<char>, v: Object) -> bool {
    match find_key(ev, k) {
        None => false,
        Some(i) => ev[i].1.len() > 0 && v.priority == ev[i].1[0].priority,
    }
}

pub(crate) proof fn lemma_find_key_from_found(ev: Seq<(Seq<char>, Seq<Object>)>, k: Seq<char>, i: int, j: int)
    requires
        0 <= i <= j < ev.len(),
        ev[j].0 == k,
        forall|m: int| i <= m < j ==> ev[m].0 != k,
    ensures
        find_key_from(ev, k, i) == Some(j),
    decreases j - i,
{
    if i < j {
        lemma_find_key_from_found(ev, k, i + 1, j);
    }
}

pub(crate) proof fn lemma_find_key_from_absent(ev: Seq<(Seq<char>, Seq<Object>)>, k: Seq<char>, i: int)
    requires
        0 <= i <= ev.len(),
        forall|m: int| i <= m < ev.len() ==> ev[m].0 != k,
    ensures
        find_key_from(ev, k, i) is None,
    decreases ev.len() - i,
{
    if i < ev.len() {
        lemma_find_key_from_absent(ev, k, i + 1);
    }
}

pub(crate) proof fn lemma_find_key_from_sound(ev: Seq<(Seq<char>, Seq<Object>)>, k: Seq<char>, i: int)
    ensures
        find_key_from(ev, k, i) matches Some(j) ==> i <= j < ev.len() && ev[j].0 == k,
    decreases ev.len() - i,
{
    if 0 <= i < ev.len() && ev[i].0 != k {
        lemma_find_key_from_sound(ev, k, i + 1);
    }
}

proof fn lemma_find_key_from_none(ev: Seq<(Seq<char>, Seq<Object>)>, k: Seq<char>, i: int)
    requires
        0 <= i,
        find_key_from(ev, k, i) is None,
    ensures
        forall|m: int| i <= m < ev.len() ==> ev[m].0 != k,
    decreases ev.len() - i,
{
    if i < ev.len() {
        lemma_find_key_from_none(ev, k, i + 1);
    }
}

/// Adding a value keeps entries well formed, and the keys stay where they
/// were, the new key (if any) coming last.
pub(crate) proof fn lemma_insert_spec(ev: Seq<(Seq<char>, Seq<Object>)>, k: Seq<char>, v: Object)
    requires
        entries_wf(ev),
    ensures
        entries_wf(insert_spec(ev, k, v)),
        ev.len() <= insert_spec(ev, k, v).len() <= ev.len() + 1,
        forall|j: int|
            0 <= j < insert_spec(ev, k, v).len() ==> #[trigger] insert_spec(ev, k, v)[j].0 == (
            if j < ev.len() {
                ev[j].0
            } else {
                k
            }),
{
    lemma_find_key_from_sound(ev, k, 0);
    if find_key(ev, k) is None {
        lemma_find_key_from_none(ev, k, 0);
    }
    let r = insert_spec(ev, k, v);
    assert forall|a: int, b: int| 0 <= a < b < r.len() implies #[trigger] r[a].0 != #[trigger] r[b].0 by {
        if b >= ev.len() {
            assert(r[b].0 == k);
        }
    }
}

/// Position of the entry with key `k` in `es`, or `None`.
pub fn position_of(es: &Vec<Entry>, k: &String) -> (r: Option<usize>)
    ensures
        match r {
            Some(i) => i < es@.len() && find_key(entries_view(es@), k@) == Some(i as int),
            None => find_key(entries_view(es@), k@) is None,
        },
{
    let ghost ev = entries_view(es@);
    let mut i: usize = 0;
    while i < es.len()
        invariant
            i <= es@.len(),
            ev == entries_view(es@),
            forall|m: int| 0 <= m < i ==> ev[m].0 != k@,
        decreases es@.len() - i,
    {
        if es[i].key == *k {
            proof {
                lemma_find_key_from_found(ev, k@, 0, i as int);
            }
            return Some(i);
        }
        i = i + 1;
    }
    proof {
        lemma_find_key_from_absent(ev, k@, 0);
    }
    None
}

/// Adds `v` under `key` following [`insert_spec`]. When `chain` is false an
/// addition that would append to an existing chain is refused: the entries
/// are left as they were and `false` is returned.
pub fn insert_entry(es: &mut Vec<Entry>, key: String, v: Object, chain: bool) -> (r: bool)
    ensures
        r == (chain || !is_duplicate(entries_view(old(es)@), key@, v)),
        r ==> entries_view(final(es)@) == insert_spec(entries_view(old(es)@), key@, v),
        !r ==> final(es)@ == old(es)@,
{
    let ghost ev = entries_view(es@);
    match position_of(es, &key) {
        None => {
            let e = Entry { key, values: vec![v] };
            assert(e.values@ =~= seq![v]);
            es.push(e);
            assert(entries_view(es@) =~= insert_spec(ev, key@, v));
            true
        },
        Some(i) => {
            let first = es[i].values.len() > 0;
            if !first || v.priority > es[i].values[0].priority {
                let e = Entry { key, values: vec![v] };
                assert(e.values@ =~= seq![v]);
                es.set(i, e);
                assert(entries_view(es@) =~= insert_spec(ev, key@, v));
                true
            } else if v.priority < es[i].values[0].priority {
                assert(entries_view(es@) =~= insert_spec(ev, key@, v));
                true
            } else if !chain {
                false
            } else {
                proof {
                    lemma_find_key_from_sound(ev, key@, 0);
                }
                let ghost old_es = es@;
                let mut e = es.remove(i);
                e.values.push(v);
                es.insert(i, e);
                assert(es@ =~= old_es.update(i as int, es@[i as int]));
                assert(entries_view(es@) =~= insert_spec(ev, key@, v));
                true
            }
        },
    }
}


/// Steps through `p`; `start` is where the current segment began and `i`
/// the character being looked at. Segments are separated by `.`; empty
/// segments are skipped, so an empty path names `node` itself.
pub open spec fn lookup_walk(node: Object, p: Seq<char>, start: int, i: int) -> Option<Object>
    decreases p.len() - i,
{
    if i >= p.len() {
        if start < i {
            child(node, p.subrange(start, i))
        } else {
            Some(node)
        }
    } else if p[i] == '.' {
        if start < i {
            match child(node, p.subrange(start, i)) {
                Some(c) => lookup_walk(c, p, i + 1, i + 1),
                None => None,
            }
        } else {
            lookup_walk(node, p, i + 1, i + 1)
        }
    } else {
        lookup_walk(node, p, start, i + 1)
    }
}

/// The node at the end of the dotted path `p`, starting from `node`.
pub open spec fn lookup_path(node: Object, p: Seq<char>) -> Option<Object> {
    lookup_walk(node, p, 0, 0)
}

/// Applies [`insert_spec`] to each value of `vs` in order.
pub open spec fn insert_chain(
    ev: Seq<(Seq<char>, Seq<Object>)>,
    k: Seq<char>,
    vs: Seq<Object>,
) -> Seq<(Seq<char>, Seq<Object>)>
    decreases vs.len(),
{
    if vs.len() == 0 {
        ev
    } else {
        insert_spec(insert_chain(ev, k, vs.drop_last()), k, vs.last())
    }
}

/// Adds every value of every entry of `src`, in order, to `ev`.
pub open spec fn merge_entries(
    ev: Seq<(Seq<char>, Seq<Object>)>,
    src: Seq<(Seq<char>, Seq<Object>)>,
) -> Seq<(Seq<char>, Seq<Object>)>
    decreases src.len(),
{
    if src.len() == 0 {
        ev
    } else {
        insert_chain(merge_entries(ev, src.drop_last()), src.last().0, src.last().1)
    }
}

/// `new` is the result of merging `source` into `target`: two objects merge
/// entry by entry as [`merge_entries`] says; two arrays concatenate, the
/// target's elements first; otherwise `source` replaces `target` when its
/// priority is higher. The target keeps its key and priority.
///
/// A key that both objects define is resolved by priority alone, as a key
/// repeated in one text is: the higher priority wins and an equal one
/// chains the source's values after the target's. Two objects under such a
/// key are therefore chained, not merged recursively.
pub open spec fn merged(target: Object, source: Object, new: Object) -> bool {
    match (target.value, source.value) {
        (Value::Object(t), Value::Object(s)) => {
            &&& new.key == target.key
            &&& new.priority == target.priority
            &&& new.value matches Value::Object(r)
            &&& entries_view(r@) == merge_entries(entries_view(t@), entries_view(s@))
        },
        (Value::Array(t), Value::Array(s)) => {
            &&& new.key == target.key
            &&& new.priority == target.priority
            &&& new.value matches Value::Array(r)
            &&& r@ == t@ + s@
        },
        _ => if source.priority > target.priority {
            new == source
        } else {
            new == target
        },
    }
}

/// The characters `v[start..end]` as a string.
pub fn string_of_range(v: &Vec<char>, start: usize, end: usize) -> (r: String)
    requires
        start <= end <= v@.len(),
    ensures
        r@ == v@.subrange(start as int, end as int),
{
    let mut seg: Vec<char> = Vec::new();
    let mut j: usize = start;
    while j < end
        invariant
            start <= j <= end <= v@.len(),
            seg@ == v@.subrange(start as int, j as int),
        decreases end - j,
    {
        seg.push(v[j]);
        j = j + 1;
        assert(seg@ =~= v@.subrange(start as int, j as int));
    }
    crate::text::string_of(&seg)
}

impl Object {
    /// A node holding `value`, with no key and priority 0.
    pub fn new(value: Value) -> (r: Object)
        ensures
            r.key is None,
            r.priority == 0,
            r.value == value,
    {
        Object { key: None, priority: 0, value }
    }

    /// An object node with no entries.
    pub fn new_object() -> (r: Object)
        ensures
            r.key is None,
            r.priority == 0,
            r.value matches Value::Object(es) && es@.len() == 0,
    {
        Object::new(Value::Object(Vec::new()))
    }

    /// The kind of value this node holds.
    pub fn get_type(&self) -> (r: Type)
        ensures
            r == type_of(self.value),
    {
        match &self.value {
            Value::Object(_) => Type::Object,
            Value::Array(_) => Type::Array,
            Value::Int(_) => Type::Int,
            Value::Float(_) => Type::Float,
            Value::String(_) => Type::String,
            Value::Boolean(_) => Type::Boolean,
            Value::Time(_) => Type::Time,
            Value::UserData => Type::UserData,
            Value::Null => Type::Null,
        }
    }

    /// The key this node was defined under, if any.
    pub fn key(&self) -> (r: Option<String>)
        ensures
            match r {
                Some(k) => self.key matches Some(sk) && k@ == sk@,
                None => self.key is None,
            },
    {
        match &self.key {
            Some(k) => Some(k.clone()),
            None => None,
        }
    }

    /// The integer held by an `Int` node.
    pub fn as_int(&self) -> (r: Option<i64>)
        ensures
            match self.value {
                Value::Int(n) => r == Some(n),
                _ => r is None,
            },
    {
        match &self.value {
            Value::Int(n) => Some(*n),
            _ => None,
        }
    }

    /// The number held by a `Float` node.
    pub fn as_float(&self) -> (r: Option<Decimal>)
        ensures
            match self.value {
                Value::Float(d) => r == Some(d),
                _ => r is None,
            },
    {
        match &self.value {
            Value::Float(d) => Some(*d),
            _ => None,
        }
    }

    /// The duration, in seconds, held by a `Time` node.
    pub fn as_time(&self) -> (r: Option<Decimal>)
        ensures
            match self.value {
                Value::Time(d) => r == Some(d),
                _ => r is None,
            },
    {
        match &self.value {
            Value::Time(d) => Some(*d),
            _ => None,
        }
    }

    /// The flag held by a `Boolean` node.
    pub fn as_bool(&self) -> (r: Option<bool>)
        ensures
            match self.value {
                Value::Boolean(b) => r == Some(b),
                _ => r is None,
            },
    {
        match &self.value {
            Value::Boolean(b) => Some(*b),
            _ => None,
        }
    }

    /// The text held by a `String` node.
    pub fn as_string(&self) -> (r: Option<String>)
        ensures
            match self.value {
                Value::String(s) => r matches Some(x) && x@ == s@,
                _ => r is None,
            },
    {
        match &self.value {
            Value::String(s) => Some(s.clone()),
            _ => None,
        }
    }

    /// The first value under key `k`, when this node is an object.
    pub fn get(&self, k: &String) -> (r: Option<&Object>)
        ensures
            match r {
                Some(x) => child(*self, k@) == Some(*x),
                None => child(*self, k@) is None,
            },
    {
        match &self.value {
            Value::Object(es) => match position_of(es, k) {
                Some(i) => if es[i].values.len() > 0 {
                    Some(&es[i].values[0])
                } else {
                    None
                },
                None => None,
            },
            _ => None,
        }
    }

    /// Every value under key `key`, in the order they were added, when this
    /// node is an object.
    pub fn fetch_chain(&self, key: &str) -> (r: Option<&Vec<Object>>)
        ensures
            match self.value {
                Value::Object(es) => match find_key(entries_view(es@), key@) {
                    Some(i) => r matches Some(x) && x@ == es@[i].values@,
                    None => r is None,
                },
                _ => r is None,
            },
    {
        let k = key.to_owned();
        match &self.value {
            Value::Object(es) => match position_of(es, &k) {
                Some(i) => Some(&es[i].values),
                None => None,
            },
            _ => None,
        }
    }

    /// The first value under key `key`, when this node is an object. Keys
    /// are compared exactly, case included.
    pub fn fetch(&self, key: &str) -> (r: Option<&Object>)
        ensures
            match r {
                Some(x) => child(*self, key@) == Some(*x),
                None => child(*self, key@) is None,
            },
            r matches Some(x) ==> (self.value matches Value::Object(es) && exists|i: int|
                0 <= i < es@.len() && #[trigger] es@[i].key@ == key@ && es@[i].values@.len() > 0
                    && es@[i].values@[0] == *x),
            self.value is Object && entries_wf(entries_view(self.value->Object_0@)) ==> (r is Some
                <==> exists|i: int|
                0 <= i < self.value->Object_0@.len() && #[trigger] self.value->Object_0@[i].key@
                    == key@),
    {
        let k = key.to_owned();
        let r = self.get(&k);
        proof {
            if self.value is Object {
                let es = self.value->Object_0;
                let ev = entries_view(es@);
                lemma_find_key_from_sound(ev, key@, 0);
                if find_key(ev, key@) is None {
                    lemma_find_key_from_none(ev, key@, 0);
                    assert forall|i: int| 0 <= i < es@.len() implies #[trigger] es@[i].key@ != key@ by {
                        assert(ev[i].0 == es@[i].key@);
                    }
                } else {
                    let i = find_key(ev, key@).unwrap();
                    assert(ev[i].0 == es@[i].key@);
                    assert(ev[i].1 == es@[i].values@);
                }
            }
        }
        r
    }

    /// The node at the end of a `.`-separated path of keys. Each step takes
    /// the first value of the key's chain; empty segments are skipped, so
    /// the empty path gives this node itself.
    pub fn fetch_path(&self, path: &str) -> (r: Option<&Object>)
        ensures
            match r {
                Some(x) => lookup_path(*self, path@) == Some(*x),
                None => lookup_path(*self, path@) is None,
            },
    {
        let p = chars_of(path);
        let mut cur: &Object = self;
        let mut start: usize = 0;
        let mut i: usize = 0;
        while i < p.len()
            invariant
                start <= i <= p@.len(),
                p@ == path@,
                lookup_path(*self, p@) == lookup_walk(*cur, p@, start as int, i as int),
            decreases p@.len() - i,
        {
            if p[i] == '.' {
                if start < i {
                    let seg = string_of_range(&p, start, i);
                    match cur.get(&seg) {
                        Some(c) => {
                            cur = c;
                        },
                        None => {
                            return None;
                        },
                    }
                }
                start = i + 1;
            }
            i = i + 1;
        }
        if start < i {
            let seg = string_of_range(&p, start, i);
            cur.get(&seg)
        } else {
            Some(cur)
        }
    }

    /// Merges `source` into this node. Two objects merge entry by entry, each
    /// value of `source` added as [`insert_spec`] says; two arrays
    /// concatenate, this node's elements first; otherwise `source` replaces
    /// this node when its priority is higher.
    pub fn merge(&mut self, source: Object)
        ensures
            merged(*old(self), source, *final(self)),
    {
        let Object { key: skey, priority: sprio, value: svalue } = source;
        let both_objects = match (&self.value, &svalue) {
            (Value::Object(_), Value::Object(_)) => true,
            _ => false,
        };
        let both_arrays = match (&self.value, &svalue) {
            (Value::Array(_), Value::Array(_)) => true,
            _ => false,
        };
        if both_objects {
            if let Value::Object(src) = svalue {
                if let Value::Object(es) = &mut self.value {
                    merge_into(es, src);
                }
            }
        } else if both_arrays {
            if let Value::Array(src) = svalue {
                if let Value::Array(a) = &mut self.value {
                    let mut src = src;
                    a.append(&mut src);
                }
            }
        } else if sprio > self.priority {
            *self = Object { key: skey, priority: sprio, value: svalue };
        }
    }
}

/// Adds every value of every entry of `src`, in order, to `es`.
pub fn merge_into(es: &mut Vec<Entry>, src: Vec<Entry>)
    ensures
        entries_view(final(es)@) == merge_entries(entries_view(old(es)@), entries_view(src@)),
{
    let ghost ev0 = entries_view(es@);
    let ghost sv = entries_view(src@);
    let mut src = src;
    let n = src.len();
    let mut j: usize = 0;
    while src.len() > 0
        invariant
            j + src@.len() == n,
            sv.len() == n,
            entries_view(src@) == sv.skip(j as int),
            entries_view(es@) == merge_entries(ev0, sv.take(j as int)),
        decreases src@.len(),
    {
        let ghost src_before = src@;
        let e = src.remove(0);
        assert(src@ =~= src_before.skip(1));
        assert(entries_view(src@) =~= entries_view(src_before).skip(1));
        let Entry { key, values } = e;
        let ghost vs = values@;
        assert(sv[j as int] == (key@, vs)) by {
            assert(entries_view(src@.insert(0, Entry { key, values }))[0] == sv.skip(j as int)[0]);
        }
        insert_values(es, key, values);
        assert(sv.take(j + 1).drop_last() =~= sv.take(j as int));
        assert(entries_view(src@) =~= sv.skip(j + 1));
        j = j + 1;
    }
    assert(sv.take(n as int) =~= sv);
}

/// Adds each value of `values`, in order, under `key`.
pub fn insert_values(es: &mut Vec<Entry>, key: String, values: Vec<Object>)
    ensures
        entries_view(final(es)@) == insert_chain(entries_view(old(es)@), key@, values@),
{
    let ghost ev0 = entries_view(es@);
    let ghost vs = values@;
    let mut values = values;
    let n = values.len();
    let mut j: usize = 0;
    while values.len() > 0
        invariant
            j + values@.len() == vs.len(),
            n == vs.len(),
            values@ == vs.skip(j as int),
            entries_view(es@) == insert_chain(ev0, key@, vs.take(j as int)),
        decreases values@.len(),
    {
        let v = values.remove(0);
        assert(v == vs[j as int]);
        insert_entry(es, key.clone(), v, true);
        assert(vs.take(j + 1).drop_last() =~= vs.take(j as int));
        assert(values@ =~= vs.skip(j + 1));
        j = j + 1;
    }
    assert(vs.take(vs.len() as int) =~= vs);
}

proof fn lemma_find_key_from_first(ev: Seq<(Seq<char>, Seq<Object>)>, k: Seq<char>, i: int, j: int)
    requires
        0 <= i,
        find_key_from(ev, k, i) == Some(j),
    ensures
        forall|m: int| i <= m < j ==> ev[m].0 != k,
    decreases ev.len() - i,
{
    if i < ev.len() && ev[i].0 != k {
        lemma_find_key_from_first(ev, k, i + 1, j);
    }
}

/// Where the keys of `ev` are unchanged in `ev2`, the first entry of key
/// `k` stays where it was.
proof fn lemma_find_key_same_keys(
    ev: Seq<(Seq<char>, Seq<Object>)>,
    ev2: Seq<(Seq<char>, Seq<Object>)>,
    k: Seq<char>,
    i: int,
)
    requires
        find_key(ev, k) == Some(i),
        ev.len() <= ev2.len(),
        forall|j: int| 0 <= j < ev.len() ==> #[trigger] ev2[j].0 == ev[j].0,
    ensures
        find_key(ev2, k) == Some(i),
{
    lemma_find_key_from_sound(ev, k, 0);
    lemma_find_key_from_first(ev, k, 0, i);
    lemma_find_key_from_found(ev2, k, 0, i);
}

/// Adding a value under any key leaves the first entry of `k` as it was,
/// unless the value goes under `k` itself with a priority at least that of
/// the entry's first value.
proof fn lemma_insert_keeps(
    ev: Seq<(Seq<char>, Seq<Object>)>,
    k2: Seq<char>,
    v: Object,
    k: Seq<char>,
    i: int,
)
    requires
        find_key(ev, k) == Some(i),
        ev[i].1.len() > 0,
        k2 == k ==> v.priority < ev[i].1[0].priority,
    ensures
        find_key(insert_spec(ev, k2, v), k) == Some(i),
        insert_spec(ev, k2, v)[i] == ev[i],
{
    lemma_find_key_from_sound(ev, k, 0);
    lemma_find_key_from_sound(ev, k2, 0);
    let r = insert_spec(ev, k2, v);
    assert forall|j: int| 0 <= j < ev.len() implies #[trigger] r[j].0 == ev[j].0 by {}
    lemma_find_key_same_keys(ev, r, k, i);
}

proof fn lemma_insert_chain_keeps(
    ev: Seq<(Seq<char>, Seq<Object>)>,
    k2: Seq<char>,
    vs: Seq<Object>,
    k: Seq<char>,
    i: int,
)
    requires
        find_key(ev, k) == Some(i),
        ev[i].1.len() > 0,
        k2 == k ==> forall|j: int| 0 <= j < vs.len() ==> (#[trigger] vs[j]).priority < ev[i].1[0].priority,
    ensures
        find_key(insert_chain(ev, k2, vs), k) == Some(i),
        insert_chain(ev, k2, vs)[i] == ev[i],
    decreases vs.len(),
{
    if vs.len() > 0 {
        lemma_insert_chain_keeps(ev, k2, vs.drop_last(), k, i);
        lemma_insert_keeps(insert_chain(ev, k2, vs.drop_last()), k2, vs.last(), k, i);
    }
}

proof fn lemma_merge_entries_keeps(
    ev: Seq<(Seq<char>, Seq<Object>)>,
    src: Seq<(Seq<char>, Seq<Object>)>,
    k: Seq<char>,
    i: int,
)
    requires
        find_key(ev, k) == Some(i),
        ev[i].1.len() > 0,
        forall|a: int, j: int|
            0 <= a < src.len() && src[a].0 == k && 0 <= j < src[a].1.len() ==> (
            #[trigger] src[a].1[j]).priority < ev[i].1[0].priority,
    ensures
        find_key(merge_entries(ev, src), k) == Some(i),
        merge_entries(ev, src)[i] == ev[i],
    decreases src.len(),
{
    if src.len() > 0 {
        let prev = src.drop_last();
        assert forall|a: int, j: int|
            0 <= a < prev.len() && prev[a].0 == k && 0 <= j < prev[a].1.len() implies (
            #[trigger] prev[a].1[j]).priority < ev[i].1[0].priority by {
            assert(prev[a] == src[a]);
        }
        lemma_merge_entries_keeps(ev, prev, k, i);
        let last = src.last();
        assert(last == src[src.len() - 1]);
        lemma_insert_chain_keeps(merge_entries(ev, prev), last.0, last.1, k, i);
    }
}

/// A merge keeps what a key of the target holds when every value that the
/// source defines under that key has a lower priority than the one there:
/// a chunk of lower priority cannot override a value already defined.
pub proof fn lemma_lower_priority_kept(target: Object, source: Object, new: Object, k: Seq<char>)
    requires
        merged(target, source, new),
        target.value is Object,
        source.value is Object,
        child(target, k) is Some,
        forall|a: int, j: int|
            0 <= a < source.value->Object_0@.len() && source.value->Object_0@[a].key@ == k && 0
                <= j < source.value->Object_0@[a].values@.len() ==> (
            #[trigger] source.value->Object_0@[a].values@[j]).priority < child(
                target,
                k,
            )->0.priority,
    ensures
        child(new, k) == child(target, k),
{
    let t = target.value->Object_0;
    let s = source.value->Object_0;
    let ev = entries_view(t@);
    let sv = entries_view(s@);
    let i = find_key(ev, k)->0;
    lemma_find_key_from_sound(ev, k, 0);
    assert forall|a: int, j: int|
        0 <= a < sv.len() && sv[a].0 == k && 0 <= j < sv[a].1.len() implies (
        #[trigger] sv[a].1[j]).priority < ev[i].1[0].priority by {
        assert(sv[a].1[j] == s@[a].values@[j]);
    }
    lemma_merge_entries_keeps(ev, sv, k, i);
    let r = new.value->Object_0;
    lemma_find_key_from_sound(entries_view(r@), k, 0);
    assert(entries_view(r@)[i] == ev[i]);
    assert(r@[i].values@ == t@[i].values@);
}

/// Two values of equal priority added under a key that is not there yet
/// make one entry at the end whose chain holds both, in the order added.
pub proof fn lemma_equal_priority_chain(
    ev: Seq<(Seq<char>, Seq<Object>)>,
    k: Seq<char>,
    v1: Object,
    v2: Object,
)
    requires
        find_key(ev, k) is None,
        v1.priority == v2.priority,
    ensures
        insert_spec(insert_spec(ev, k, v1), k, v2) == ev.push((k, seq![v1, v2])),
{
    let once = insert_spec(ev, k, v1);
    assert(once == ev.push((k, seq![v1])));
    lemma_find_key_from_none(ev, k, 0);
    assert forall|m: int| 0 <= m < ev.len() implies once[m].0 != k by {}
    lemma_find_key_from_found(once, k, 0, ev.len() as int);
    assert(seq![v1].push(v2) =~= seq![v1, v2]);
}

/// Whether `b` is a copy of `a`: the same key, priority and value, the
/// entries and elements of containers being copies in the same order.
pub open spec fn same_tree(a: Object, b: Object) -> bool
    decreases a, 0int, 0int,
{
    &&& a.key == b.key
    &&& a.priority == b.priority
    &&& match (a.value, b.value) {
        (Value::Object(x), Value::Object(y)) => x@.len() == y@.len() && same_entries(
            x@,
            y@,
            x@.len() as int,
        ),
        (Value::Array(x), Value::Array(y)) => x@.len() == y@.len() && same_items(
            x@,
            y@,
            x@.len() as int,
        ),
        (Value::Object(_), _) => false,
        (Value::Array(_), _) => false,
        (_, Value::Object(_)) => false,
        (_, Value::Array(_)) => false,
        _ => a.value == b.value,
    }
}

/// Whether the first `n` entries of `y` are copies of those of `x`.
pub open spec fn same_entries(x: Seq<Entry>, y: Seq<Entry>, n: int) -> bool
    decreases x, 1int, n,
{
    if n <= 0 || n > x.len() || n > y.len() {
        n <= 0
    } else {
        &&& same_entries(x, y, n - 1)
        &&& x[n - 1].key@ == y[n - 1].key@
        &&& x[n - 1].values@.len() == y[n - 1].values@.len()
        &&& same_items(x[n - 1].values@, y[n - 1].values@, x[n - 1].values@.len() as int)
    }
}

/// Whether the first `n` nodes of `y` are copies of those of `x`.
pub open spec fn same_items(x: Seq<Object>, y: Seq<Object>, n: int) -> bool
    decreases x, 1int, n,
{
    if n <= 0 || n > x.len() || n > y.len() {
        n <= 0
    } else {
        same_items(x, y, n - 1) && same_tree(x[n - 1], y[n - 1])
    }
}

impl Object {
    /// A copy of this node and everything below it.
    pub fn deep_copy(&self) -> (r: Object)
        ensures
            same_tree(*self, r),
        decreases self, 0nat,
    {
        let key = match &self.key {
            Some(k) => Some(k.clone()),
            None => None,
        };
        let value = match &self.value {
            Value::Object(es) => {
                proof {
                    assert(self.value->Object_0 == *es);
                    assert(decreases_to!(*self => self.value));
                    assert(decreases_to!(self.value => self.value->Object_0));
                }
                Value::Object(copy_entries(es))
            },
            Value::Array(a) => {
                proof {
                    assert(self.value->Array_0 == *a);
                    assert(decreases_to!(*self => self.value));
                    assert(decreases_to!(self.value => self.value->Array_0));
                }
                Value::Array(copy_items(a))
            },
            Value::Int(n) => Value::Int(*n),
            Value::Float(d) => Value::Float(*d),
            Value::String(s) => Value::String(s.clone()),
            Value::Boolean(b) => Value::Boolean(*b),
            Value::Time(d) => Value::Time(*d),
            Value::UserData => Value::UserData,
            Value::Null => Value::Null,
        };
        Object { key, priority: self.priority, value }
    }
}

/// Copies of the entries `es`, in order.
fn copy_entries(es: &Vec<Entry>) -> (r: Vec<Entry>)
    ensures
        r@.len() == es@.len(),
        same_entries(es@, r@, es@.len() as int),
    decreases es, 1nat,
{
    let mut out: Vec<Entry> = Vec::new();
    let mut i: usize = 0;
    while i < es.len()
        invariant
            i <= es@.len(),
            out@.len() == i,
            same_entries(es@, out@, i as int),
        decreases es@.len() - i,
    {
        proof {
            assert(decreases_to!(*es => es@[i as int]));
            assert(decreases_to!(es@[i as int] => es@[i as int].values));
        }
        let vs = copy_items(&es[i].values);
        let ghost before = out@;
        out.push(Entry { key: es[i].key.clone(), values: vs });
        proof {
            assert(out@.take(i as int) =~= before);
            lemma_same_entries_prefix(es@, before, out@, i as int);
        }
        i = i + 1;
    }
    out
}

/// Copies of the nodes `a`, in order.
fn copy_items(a: &Vec<Object>) -> (r: Vec<Object>)
    ensures
        r@.len() == a@.len(),
        same_items(a@, r@, a@.len() as int),
    decreases a, 1nat,
{
    let mut out: Vec<Object> = Vec::new();
    let mut i: usize = 0;
    while i < a.len()
        invariant
            i <= a@.len(),
            out@.len() == i,
            same_items(a@, out@, i as int),
        decreases a@.len() - i,
    {
        proof {
            assert(decreases_to!(*a => a@[i as int]));
        }
        let c = a[i].deep_copy();
        let ghost before = out@;
        out.push(c);
        proof {
            lemma_same_items_prefix(a@, before, out@, i as int);
        }
        i = i + 1;
    }
    out
}

proof fn lemma_same_entries_prefix(x: Seq<Entry>, y: Seq<Entry>, z: Seq<Entry>, n: int)
    requires
        0 <= n <= y.len() <= z.len(),
        n <= x.len(),
        forall|j: int| 0 <= j < y.len() ==> z[j] == y[j],
        same_entries(x, y, n),
    ensures
        same_entries(x, z, n),
    decreases n,
{
    if n > 0 {
        lemma_same_entries_prefix(x, y, z, n - 1);
    }
}

proof fn lemma_same_items_prefix(x: Seq<Object>, y: Seq<Object>, z: Seq<Object>, n: int)
    requires
        0 <= n <= y.len() <= z.len(),
        n <= x.len(),
        forall|j: int| 0 <= j < y.len() ==> z[j] == y[j],
        same_items(x, y, n),
    ensures
        same_items(x, z, n),
    decreases n,
{
    if n > 0 {
        lemma_same_items_prefix(x, y, z, n - 1);
    }
}

impl Clone for Object {
    /// A copy of this node and everything below it.
    fn clone(&self) -> (r: Object)
        ensures
            same_tree(*self, r),
    {
        self.deep_copy()
    }
}

} // verus!
