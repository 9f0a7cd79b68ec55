use vstd::prelude::*;
use vstd::std_specs::cmp::PartialEqSpec;
use indexmap::IndexMap;
use crate::value::{LocalDate, LocalDateTime, LocalTime, OffsetDateTime, UtcOffset, Value, ValueModel};

verus! {

#[verifier::external_type_specification]
#[verifier::external_body]
#[verifier::reject_recursive_types(K)]
#[verifier::reject_recursive_types(V)]
#[verifier::reject_recursive_types(S)]
pub struct ExIndexMap<K, V, S>(IndexMap<K, V, S>);

/// The entries of a key index (an `IndexMap` from keys to positions), in the
/// map's order: each key with its value.
pub uninterp spec fn index_entries(m: IndexMap<String, usize>) -> Seq<(Seq<char>, usize)>;

/// The position of the first entry of `e` whose key is `k`.
pub open spec fn find_key<V>(e: Seq<(Seq<char>, V)>, k: Seq<char>) -> Option<int>
    decreases e.len(),
{
    if e.len() == 0 {
        None
    } else {
        match find_key(e.drop_last(), k) {
            Some(i) => Some(i),
            None => if e.last().0 == k {
                Some(e.len() - 1)
            } else {
                None
            },
        }
    }
}

pub proof fn lemma_find_key<V>(e: Seq<(Seq<char>, V)>, k: Seq<char>)
    ensures
        match find_key(e, k) {
            Some(i) => 0 <= i < e.len() && e[i].0 == k && forall|j: int| 0 <= j < i ==> e[j].0 != k,
            None => forall|j: int| 0 <= j < e.len() ==> e[j].0 != k,
        },
    decreases e.len(),
{
    if e.len() > 0 {
        lemma_find_key(e.drop_last(), k);
        assert(forall|j: int| 0 <= j < e.len() - 1 ==> e.drop_last()[j] == e[j]);
    }
}

/// Keys of `e` that hold the same values as those of `f` at each position
/// are found at the same positions.
pub proof fn lemma_find_key_same_keys<V, W>(e: Seq<(Seq<char>, V)>, f: Seq<(Seq<char>, W)>, k: Seq<char>)
    requires
        e.len() == f.len(),
        forall|i: int| 0 <= i < e.len() ==> e[i].0 == f[i].0,
    ensures
        find_key(e, k) == find_key(f, k),
    decreases e.len(),
{
    if e.len() > 0 {
        lemma_find_key_same_keys(e.drop_last(), f.drop_last(), k);
    }
}

/// `IndexMap::new`: a map with no entries.
#[verifier::external_body]
fn index_new() -> (m: IndexMap<String, usize>)
    ensures
        index_entries(m) == Seq::<(Seq<char>, usize)>::empty(),
{
    IndexMap::new()
}

/// `IndexMap::len`: the number of entries.
#[verifier::external_body]
fn index_len(m: &IndexMap<String, usize>) -> (n: usize)
    ensures
        n == index_entries(*m).len(),
{
    m.len()
}

/// `IndexMap::get`: the value of the entry whose key equals `k`, if any.
#[verifier::external_body]
fn index_get(m: &IndexMap<String, usize>, k: &str) -> (r: Option<usize>)
    ensures
        r == (match find_key(index_entries(*m), k@) {
            Some(i) => Some(index_entries(*m)[i].1),
            None => None,
        }),
{
    m.get(k).copied()
}

/// `IndexMap::insert`: a new key goes last; an existing key keeps its place
/// and gets the new value, and the old value is returned.
#[verifier::external_body]
fn index_insert(m: &mut IndexMap<String, usize>, k: String, v: usize) -> (r: Option<usize>)
    ensures
        match find_key(index_entries(*old(m)), k@) {
            None => r is None && index_entries(*final(m)) == index_entries(*old(m)).push((k@, v)),
            Some(i) => r == Some(index_entries(*old(m))[i].1) && index_entries(*final(m))
                == index_entries(*old(m)).update(i, (k@, v)),
        },
{
    m.insert(k, v)
}

/// `IndexMap::get_index`: the key of the entry at position `i`.
#[verifier::external_body]
fn index_key_at(m: &IndexMap<String, usize>, i: usize) -> (k: &String)
    requires
        i < index_entries(*m).len(),
    ensures
        k@ == index_entries(*m)[i as int].0,
{
    m.get_index(i).unwrap().0
}

/// `IndexMap::clone`: a map with the same entries in the same order.
#[verifier::external_body]
fn index_clone(m: &IndexMap<String, usize>) -> (r: IndexMap<String, usize>)
    ensures
        index_entries(r) == index_entries(*m),
{
    m.clone()
}

/// A map from strings: keys in the order they were first inserted, each
/// with a value. Keys are distinct. The keys are indexed by an `IndexMap`
/// that gives each key its position; the values are held in that order.
///
/// Two maps are equal (`==`) when they hold the same keys with equal values,
/// whatever the order of their entries.
#[derive(Debug)]
pub struct KeyMap<V> {
    keys: IndexMap<String, usize>,
    values: Vec<V>,
}

/// A TOML table.
pub type Table = KeyMap<Value>;

/// `e` and `f` hold the same keys, each with values that `==` finds equal;
/// the order of the entries does not matter.
pub open spec fn same_entries<V: PartialEq>(e: Seq<(Seq<char>, V)>, f: Seq<(Seq<char>, V)>) -> bool {
    &&& e.len() == f.len()
    &&& forall|j: int| 0 <= j < e.len() ==> match #[trigger] lookup(f, e[j].0) {
        Some(w) => e[j].1.eq_spec(&w),
        None => false,
    }
}

impl<V> View for KeyMap<V> {
    type V = Seq<(Seq<char>, V)>;

    closed spec fn view(&self) -> Seq<(Seq<char>, V)> {
        Seq::new(self.values.len() as nat, |i: int| (index_entries(self.keys)[i].0, self.values@[i]))
    }
}

/// Keys of `e` are distinct.
pub open spec fn distinct_keys<V>(e: Seq<(Seq<char>, V)>) -> bool {
    forall|i: int, j: int| 0 <= i < e.len() && 0 <= j < e.len() && i != j ==> e[i].0 != e[j].0
}

/// The value of key `k` in `e`, if any.
pub open spec fn lookup<V>(e: Seq<(Seq<char>, V)>, k: Seq<char>) -> Option<V> {
    match find_key(e, k) {
        Some(i) => Some(e[i].1),
        None => None,
    }
}

impl<V> KeyMap<V> {
    #[verifier::type_invariant]
    closed spec fn inv(self) -> bool {
        let e = index_entries(self.keys);
        &&& e.len() == self.values.len()
        &&& forall|i: int| 0 <= i < e.len() ==> #[trigger] e[i].1 == i
        &&& distinct_keys(e)
    }

    /// Sets the value at position `i` to `v`, and gives back the old one.
    pub fn replace_at(&mut self, i: usize, v: V) -> (r: V)
        requires
            i < old(self)@.len(),
        ensures
            r == old(self)@[i as int].1,
            final(self)@ == old(self)@.update(i as int, (old(self)@[i as int].0, v)),
    {
        proof { use_type_invariant(&*self); }
        let mut t = KeyMap::<V>::new();
        std::mem::swap(self, &mut t);
        proof { use_type_invariant(&t); }
        let KeyMap { keys, mut values } = t;
        let ghost old_view = old(self)@;
        let ghost gv = v;
        let mut slot = v;
        std::mem::swap(&mut slot, &mut values[i]);
        let nt = KeyMap { keys, values };
        assert(nt@ =~= old_view.update(i as int, (old_view[i as int].0, gv)));
        *self = nt;
        slot
    }

    /// The keys and the values, in order.
    pub fn into_parts(self) -> (r: (Vec<String>, Vec<V>))
        ensures
            r.0.len() == self@.len(),
            r.1.len() == self@.len(),
            forall|i: int| 0 <= i < self@.len() ==> #[trigger] r.0@[i]@ == self@[i].0 && r.1@[i] == self@[i].1,
    {
        proof { use_type_invariant(&self); }
        let mut ks: Vec<String> = Vec::new();
        let n = self.values.len();
        let mut i: usize = 0;
        while i < n
            invariant
                n == self.values.len(),
                n == index_entries(self.keys).len(),
                i <= n,
                ks.len() == i,
                forall|j: int| 0 <= j < i ==> #[trigger] ks@[j]@ == self@[j].0,
            decreases n - i,
        {
            let k = index_key_at(&self.keys, i).clone();
            ks.push(k);
            i = i + 1;
        }
        let KeyMap { keys, values } = self;
        (ks, values)
    }

    /// An empty table.
    pub fn new() -> (t: KeyMap<V>)
        ensures
            t@ == Seq::<(Seq<char>, V)>::empty(),
    {
        let t = KeyMap { keys: index_new(), values: Vec::new() };
        assert(t@ =~= Seq::<(Seq<char>, V)>::empty());
        t
    }

    /// The number of entries. The keys are distinct.
    pub fn len(&self) -> (n: usize)
        ensures
            n == self@.len(),
            distinct_keys(self@),
    {
        proof { use_type_invariant(self); }
        self.values.len()
    }

    /// Whether the table has no entry.
    pub fn is_empty(&self) -> (b: bool)
        ensures
            b == (self@.len() == 0),
    {
        self.values.len() == 0
    }

    /// The key at position `i`.
    pub fn key_at(&self, i: usize) -> (k: &String)
        requires
            i < self@.len(),
        ensures
            k@ == self@[i as int].0,
    {
        proof { use_type_invariant(self); }
        index_key_at(&self.keys, i)
    }

    /// The value at position `i`.
    pub fn value_at(&self, i: usize) -> (v: &V)
        requires
            i < self@.len(),
        ensures
            *v == self@[i as int].1,
    {
        &self.values[i]
    }

    pub fn position(&self, k: &str) -> (r: Option<usize>)
        ensures
            match find_key(self@, k@) {
                Some(j) => r is Some && r->0 as int == j && 0 <= j < self@.len(),
                None => r is None,
            },
    {
        proof {
            use_type_invariant(self);
            lemma_find_key_same_keys(index_entries(self.keys), self@, k@);
            lemma_find_key(self@, k@);
        }
        index_get(&self.keys, k)
    }

    /// The value of key `k`, if the table has it.
    pub fn get(&self, k: &str) -> (r: Option<&V>)
        ensures
            r == (match lookup(self@, k@) { Some(v) => Some(&v), None => None }),
    {
        match self.position(k) {
            Some(i) => {
                assert(self@[i as int].1 == self.values@[i as int]);
                Some(&self.values[i])
            },
            None => None,
        }
    }

    /// Whether the table has key `k`.
    pub fn contains_key(&self, k: &str) -> (b: bool)
        ensures
            b == (find_key(self@, k@) is Some),
    {
        self.position(k).is_some()
    }

    /// Sets key `k` to `v`. A new key goes last; an existing key keeps its
    /// place, and its old value is returned.
    pub fn insert(&mut self, k: String, v: V) -> (r: Option<V>)
        ensures
            match find_key(old(self)@, k@) {
                None => r is None && final(self)@ == old(self)@.push((k@, v)),
                Some(i) => r == Some(old(self)@[i].1) && final(self)@ == old(self)@.update(i, (k@, v)),
            },
    {
        proof { use_type_invariant(&*self); }
        let mut t = KeyMap::<V>::new();
        std::mem::swap(self, &mut t);
        proof { use_type_invariant(&t); }
        let KeyMap { mut keys, mut values } = t;
        let ghost old_view = old(self)@;
        proof {
            lemma_find_key_same_keys(index_entries(keys), old_view, k@);
            lemma_find_key(old_view, k@);
        }
        let n = values.len();
        proof {
            lemma_find_key_same_keys(index_entries(keys), old_view, k@);
            lemma_find_key(index_entries(keys), k@);
        }
        match index_get(&keys, k.as_str()) {
            None => {
                let ghost e0 = index_entries(keys);
                index_insert(&mut keys, k, n);
                values.push(v);
                let ghost e1 = index_entries(keys);
                assert(e1 == e0.push((k@, n)));
                assert forall|i: int| 0 <= i < e1.len() implies #[trigger] e1[i].1 == i by {
                    if i < e0.len() {
                        assert(e1[i] == e0[i]);
                    }
                }
                let nt = KeyMap { keys, values };
                assert(nt@ =~= old_view.push((k@, v)));
                *self = nt;
                None
            },
            Some(i) => {
                let ghost ghost_v = v;
                let mut slot = v;
                std::mem::swap(&mut slot, &mut values[i]);
                let nt = KeyMap { keys, values };
                assert(nt@ =~= old_view.update(i as int, (k@, ghost_v)));
                *self = nt;
                Some(slot)
            },
        }
    }
}

impl<V: Clone> Clone for KeyMap<V> {
    /// The same keys in the same order, each value cloned.
    fn clone(&self) -> (r: Self)
        ensures
            r@.len() == self@.len(),
            forall|i: int| 0 <= i < self@.len() ==> #[trigger] r@[i].0 == self@[i].0 && cloned::<V>(self@[i].1, r@[i].1),
    {
        proof { use_type_invariant(self); }
        let keys = index_clone(&self.keys);
        let values = self.values.clone();
        KeyMap { keys, values }
    }
}

impl<V: PartialEq> PartialEq for KeyMap<V> {
    fn eq(&self, other: &Self) -> (r: bool) {
        let n = self.len();
        if n != other.len() {
            return false;
        }
        let mut i: usize = 0;
        while i < n
            invariant
                n == self@.len(),
                n == other@.len(),
                i <= n,
                V::obeys_eq_spec() ==> forall|j: int| 0 <= j < i ==> match #[trigger] lookup(other@, self@[j].0) {
                    Some(w) => self@[j].1.eq_spec(&w),
                    None => false,
                },
            decreases n - i,
        {
            match other.get(self.key_at(i).as_str()) {
                None => {
                    return false;
                },
                Some(w) => {
                    if !self.value_at(i).eq(w) {
                        return false;
                    }
                },
            }
            i = i + 1;
        }
        true
    }
}

impl<V: PartialEq> vstd::std_specs::cmp::PartialEqSpecImpl for KeyMap<V> {
    open spec fn obeys_eq_spec() -> bool {
        V::obeys_eq_spec()
    }

    open spec fn eq_spec(&self, other: &Self) -> bool {
        same_entries(self@, other@)
    }
}

/// The model of a value.
pub open spec fn value_model(v: Value) -> ValueModel
    decreases v, 0int,
{
    match v {
        Value::String(s) => ValueModel::String(s@),
        Value::Integer(n) => ValueModel::Integer(n),
        Value::Float(s) => ValueModel::Float(s@),
        Value::Boolean(b) => ValueModel::Boolean(b),
        Value::OffsetDateTime(d) => ValueModel::OffsetDateTime(d),
        Value::LocalDateTime(d) => ValueModel::LocalDateTime(d),
        Value::LocalDate(d) => ValueModel::LocalDate(d),
        Value::LocalTime(t) => ValueModel::LocalTime(t),
        Value::Array(a) => ValueModel::Array(values_model(a@)),
        Value::Table(t) => ValueModel::Table(table_model(t)),
    }
}

/// The models of a sequence of values.
pub open spec fn values_model(s: Seq<Value>) -> Seq<ValueModel>
    decreases s, 1int,
{
    if s.len() == 0 {
        Seq::empty()
    } else {
        values_model(s.drop_last()).push(value_model(s.last()))
    }
}

/// The model of a table: its keys with the models of their values.
pub closed spec fn table_model(t: Table) -> Seq<(Seq<char>, ValueModel)>
    decreases t, 0int,
{
    entries_model(index_entries(t.keys), t.values@)
}

closed spec fn entries_model(keys: Seq<(Seq<char>, usize)>, vals: Seq<Value>) -> Seq<(Seq<char>, ValueModel)>
    decreases vals, 1int,
{
    if vals.len() == 0 {
        Seq::empty()
    } else {
        entries_model(keys, vals.drop_last()).push((keys[vals.len() - 1].0, value_model(vals.last())))
    }
}

/// The models of the entries of `e`.
pub open spec fn entries_of(e: Seq<(Seq<char>, Value)>) -> Seq<(Seq<char>, ValueModel)> {
    Seq::new(e.len(), |i: int| (e[i].0, value_model(e[i].1)))
}

proof fn lemma_entries_model(keys: Seq<(Seq<char>, usize)>, vals: Seq<Value>)
    ensures
        entries_model(keys, vals) =~= Seq::new(vals.len(), |i: int| (keys[i].0, value_model(vals[i]))),
    decreases vals.len(),
{
    if vals.len() > 0 {
        lemma_entries_model(keys, vals.drop_last());
    }
}

/// The model of a table is the model of its entries.
pub proof fn lemma_table_model(t: Table)
    ensures
        table_model(t) == entries_of(t@),
{
    lemma_entries_model(index_entries(t.keys), t.values@);
    assert(table_model(t) =~= entries_of(t@));
}

/// The model of a sequence of values, element by element.
pub proof fn lemma_values_model(s: Seq<Value>)
    ensures
        values_model(s) =~= Seq::new(s.len(), |i: int| value_model(s[i])),
    decreases s.len(),
{
    if s.len() > 0 {
        lemma_values_model(s.drop_last());
    }
}

fn copy_date(d: &LocalDate) -> (r: LocalDate)
    ensures
        r == *d,
{
    LocalDate { year: d.year, month: d.month, day: d.day }
}

fn copy_time(t: &LocalTime) -> (r: LocalTime)
    ensures
        r == *t,
{
    LocalTime { hour: t.hour, minute: t.minute, second: t.second, nanosecond: t.nanosecond }
}

impl Clone for Value {
    /// A copy with the same model.
    fn clone(&self) -> (r: Value)
        ensures
            value_model(r) == value_model(*self),
    {
        copy_value(self)
    }
}

/// A copy of `v`, with the same model.
pub fn copy_value(v: &Value) -> (r: Value)
    ensures
        value_model(r) == value_model(*v),
    decreases v,
{
    match v {
        Value::String(s) => Value::String(s.clone()),
        Value::Integer(n) => Value::Integer(*n),
        Value::Float(s) => Value::Float(s.clone()),
        Value::Boolean(b) => Value::Boolean(*b),
        Value::OffsetDateTime(d) => {
            let offset = match &d.offset {
                UtcOffset::Z => UtcOffset::Z,
                UtcOffset::Minutes(m) => UtcOffset::Minutes(*m),
            };
            Value::OffsetDateTime(OffsetDateTime { date: copy_date(&d.date), time: copy_time(&d.time), offset })
        },
        Value::LocalDateTime(d) => Value::LocalDateTime(LocalDateTime { date: copy_date(&d.date), time: copy_time(&d.time) }),
        Value::LocalDate(d) => Value::LocalDate(copy_date(d)),
        Value::LocalTime(t) => Value::LocalTime(copy_time(t)),
        Value::Array(a) => {
            let mut out: Vec<Value> = Vec::new();
            let mut i: usize = 0;
            while i < a.len()
                invariant
                    *v == Value::Array(*a),
                    i <= a.len(),
                    out.len() == i,
                    forall|k: int| 0 <= k < i ==> value_model(#[trigger] out@[k]) == value_model(a@[k]),
                decreases a.len() - i,
            {
                proof {
                    let ghost vv = *v;
                    assert(decreases_to!(vv => vv->Array_0));
                    assert(decreases_to!(*a => a@));
                    assert(decreases_to!(a@ => a@[i as int]));
                }
                let c = copy_value(&a[i]);
                out.push(c);
                i = i + 1;
            }
            proof {
                lemma_values_model(out@);
                lemma_values_model(a@);
                assert(values_model(out@) =~= values_model(a@));
            }
            Value::Array(out)
        },
        Value::Table(t) => {
            proof { use_type_invariant(t); }
            let mut out: Table = KeyMap::new();
            let n = t.values.len();
            let mut i: usize = 0;
            while i < n
                invariant
                    *v == Value::Table(*t),
                    n == t@.len(),
                    n == t.values.len(),
                    distinct_keys(t@),
                    i <= n,
                    out@.len() == i,
                    forall|k: int| 0 <= k < i ==> (#[trigger] out@[k]).0 == t@[k].0,
                    forall|k: int| 0 <= k < i ==> value_model(#[trigger] out@[k].1) == value_model(t@[k].1),
                decreases n - i,
            {
                proof {
                    assert(t@[i as int].1 == t.values@[i as int]);
                    let ghost vv = *v;
                    assert(decreases_to!(vv => vv->Table_0));
                    assert(decreases_to!(*t => t.values));
                    assert(decreases_to!(t.values => t.values@));
                    assert(decreases_to!(t.values@ => t.values@[i as int]));
                    lemma_find_key(out@, t@[i as int].0);
                }
                let k = t.key_at(i).clone();
                let c = copy_value(&t.values[i]);
                out.insert(k, c);
                i = i + 1;
            }
            proof {
                lemma_table_model(out);
                lemma_table_model(*t);
                assert(entries_of(out@) =~= entries_of(t@));
            }
            Value::Table(out)
        },
    }
}

} // verus!
