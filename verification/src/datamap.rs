//! Datamap: the order-preserving key/value payload attached to an input
//! method snapshot.
//!
//! The engine validates a datamap for structural well-formedness and offers
//! typed read access, but never interprets its contents.  Keys are byte
//! strings; values are booleans, numbers, byte strings or nested maps.  Entry
//! order is preserved and a lookup returns the first entry with the given key.

use vstd::prelude::*;

verus! {

/// Mathematical value of a datamap node: what the contracts speak of.
pub enum ValView {
    Bool(bool),
    Num(i64),
    Text(Seq<u8>),
    MapV(Seq<(Seq<u8>, ValView)>),
}

/// A datamap value as held at run time.
#[derive(Debug)]
pub enum Value {
    Bool(bool),
    Num(i64),
    Text(Vec<u8>),
    MapVal(Datamap),
}

/// One key/value pair of a datamap.
#[derive(Debug)]
pub struct Entry {
    pub key: Vec<u8>,
    pub value: Value,
}

/// An order-preserving sequence of key/value entries.
#[derive(Debug)]
pub struct Datamap {
    pub entries: Vec<Entry>,
}

/// Mathematical value of a run-time datamap value.
pub open spec fn val_view(v: Value) -> ValView
    decreases v,
{
    match v {
        Value::Bool(b) => ValView::Bool(b),
        Value::Num(n) => ValView::Num(n),
        Value::Text(t) => ValView::Text(t@),
        Value::MapVal(m) => ValView::MapV(entries_view(m.entries@)),
    }
}

/// Mathematical value of a sequence of run-time entries.
pub open spec fn entries_view(es: Seq<Entry>) -> Seq<(Seq<u8>, ValView)>
    decreases es,
{
    if es.len() == 0 {
        Seq::empty()
    } else {
        seq![(es[0].key@, val_view(es[0].value))] + entries_view(es.drop_first())
    }
}

pub broadcast proof fn lemma_entries_view(es: Seq<Entry>)
    ensures
        (#[trigger] entries_view(es)).len() == es.len(),
        forall|i: int|
            0 <= i < es.len() ==> entries_view(es)[i] == (es[i].key@, val_view(es[i].value)),
    decreases es,
{
    if es.len() > 0 {
        lemma_entries_view(es.drop_first());
    }
}

/// Structural well-formedness of a value: every length and entry count small
/// enough for the serialized form's 32-bit length fields.
pub open spec fn wf_val(v: ValView) -> bool
    decreases v,
{
    match v {
        ValView::Bool(_) => true,
        ValView::Num(_) => true,
        ValView::Text(t) => t.len() < 0x1_0000_0000,
        ValView::MapV(es) => {
            &&& es.len() < 0x1_0000_0000
            &&& forall|i: int|
                0 <= i < es.len() ==> (#[trigger] es[i]).0.len() < 0x1_0000_0000 && wf_val(
                    es[i].1,
                )
        },
    }
}

/// First entry with the given key, if any.
pub open spec fn spec_get(es: Seq<(Seq<u8>, ValView)>, key: Seq<u8>) -> Option<ValView>
    decreases es.len(),
{
    if es.len() == 0 {
        None
    } else if es[0].0 == key {
        Some(es[0].1)
    } else {
        spec_get(es.drop_first(), key)
    }
}

proof fn lemma_spec_get_skip(es: Seq<(Seq<u8>, ValView)>, key: Seq<u8>, i: int)
    requires
        0 <= i <= es.len(),
        forall|j: int| 0 <= j < i ==> (#[trigger] es[j]).0 != key,
    ensures
        spec_get(es, key) == spec_get(es.skip(i), key),
    decreases i,
{
    if i > 0 {
        lemma_spec_get_skip(es.drop_first(), key, i - 1);
        assert(es.drop_first().skip(i - 1) =~= es.skip(i));
    } else {
        assert(es.skip(0) =~= es);
    }
}

/// Result of a typed lookup: the value, or an explicit statement of why
/// there is none.
pub enum Lookup<T> {
    Found(T),
    Absent,
    WrongType,
}

/// Byte-string equality, used for key comparison.
pub fn bytes_eq(a: &Vec<u8>, b: &Vec<u8>) -> (r: bool)
    ensures
        r == (a@ == b@),
{
    if a.len() != b.len() {
        assert(a@ != b@);
        return false;
    }
    let n = a.len();
    let mut i: usize = 0;
    while i < n
        invariant
            n == a.len() == b.len(),
            0 <= i <= n,
            forall|j: int| 0 <= j < i ==> a@[j] == b@[j],
        decreases n - i,
    {
        if a[i] != b[i] {
            assert(a@ != b@);
            return false;
        }
        i += 1;
    }
    assert(a@ =~= b@);
    true
}

impl View for Datamap {
    type V = Seq<(Seq<u8>, ValView)>;

    open spec fn view(&self) -> Seq<(Seq<u8>, ValView)> {
        entries_view(self.entries@)
    }
}

impl Datamap {
    /// Structural well-formedness of the whole map.
    pub open spec fn wf(self) -> bool {
        wf_val(ValView::MapV(self@))
    }

    /// An empty datamap.
    pub fn new() -> (r: Datamap)
        ensures
            r@ =~= Seq::<(Seq<u8>, ValView)>::empty(),
            r.wf(),
    {
        Datamap { entries: Vec::new() }
    }

    /// Number of entries.
    pub fn size(&self) -> (r: usize)
        ensures
            r == self@.len(),
    {
        proof {
            lemma_entries_view(self.entries@);
        }
        self.entries.len()
    }

    /// Append an entry; a later entry with the same key is shadowed by an
    /// earlier one on lookup, so order is what the view states.
    pub fn insert(&mut self, key: Vec<u8>, value: Value)
        ensures
            final(self)@ == old(self)@ + seq![(key@, val_view(value))],
    {
        proof {
            lemma_entries_view(self.entries@);
        }
        let ghost old_entries = self.entries@;
        let e = Entry { key, value };
        self.entries.push(e);
        proof {
            lemma_entries_view(self.entries@);
            lemma_entries_view(old_entries);
            assert(entries_view(self.entries@) =~= entries_view(old_entries) + seq![
                (e.key@, val_view(e.value)),
            ]);
        }
    }

    /// First value stored under `key`, if any.
    pub fn get(&self, key: &Vec<u8>) -> (r: Option<&Value>)
        ensures
            match r {
                Some(v) => spec_get(self@, key@) == Some(val_view(*v)),
                None => spec_get(self@, key@) is None,
            },
    {
        proof {
            lemma_entries_view(self.entries@);
        }
        let n = self.entries.len();
        let mut i: usize = 0;
        while i < n
            invariant
                n == self.entries.len(),
                0 <= i <= n,
                self@ == entries_view(self.entries@),
                self@.len() == n,
                forall|j: int| 0 <= j < i ==> (#[trigger] self@[j]).0 != key@,
                forall|j: int|
                    0 <= j < n ==> self@[j] == (self.entries@[j].key@, val_view(
                        self.entries@[j].value,
                    )),
            decreases n - i,
        {
            if bytes_eq(&self.entries[i].key, key) {
                proof {
                    lemma_spec_get_skip(self@, key@, i as int);
                    assert(self@.skip(i as int)[0] == self@[i as int]);
                    assert(self@.skip(i as int).len() > 0);
                }
                return Some(&self.entries[i].value);
            }
            i += 1;
        }
        proof {
            lemma_spec_get_skip(self@, key@, n as int);
            assert(self@.skip(n as int).len() == 0);
        }
        None
    }

    /// Typed lookup of a boolean.
    pub fn get_bool(&self, key: &Vec<u8>) -> (r: Lookup<bool>)
        ensures
            match r {
                Lookup::Found(b) => spec_get(self@, key@) == Some(ValView::Bool(b)),
                Lookup::Absent => spec_get(self@, key@) is None,
                Lookup::WrongType => spec_get(self@, key@) matches Some(v) && !(v is Bool),
            },
    {
        match self.get(key) {
            None => Lookup::Absent,
            Some(v) => match v {
                Value::Bool(b) => Lookup::Found(*b),
                _ => Lookup::WrongType,
            },
        }
    }

    /// Typed lookup of a number.
    pub fn get_num(&self, key: &Vec<u8>) -> (r: Lookup<i64>)
        ensures
            match r {
                Lookup::Found(n) => spec_get(self@, key@) == Some(ValView::Num(n)),
                Lookup::Absent => spec_get(self@, key@) is None,
                Lookup::WrongType => spec_get(self@, key@) matches Some(v) && !(v is Num),
            },
    {
        match self.get(key) {
            None => Lookup::Absent,
            Some(v) => match v {
                Value::Num(n) => Lookup::Found(*n),
                _ => Lookup::WrongType,
            },
        }
    }

    /// Typed lookup of a byte string.
    pub fn get_text<'a>(&'a self, key: &Vec<u8>) -> (r: Lookup<&'a Vec<u8>>)
        ensures
            match r {
                Lookup::Found(t) => spec_get(self@, key@) == Some(ValView::Text(t@)),
                Lookup::Absent => spec_get(self@, key@) is None,
                Lookup::WrongType => spec_get(self@, key@) matches Some(v) && !(v is Text),
            },
    {
        match self.get(key) {
            None => Lookup::Absent,
            Some(v) => match v {
                Value::Text(t) => Lookup::Found(t),
                _ => Lookup::WrongType,
            },
        }
    }

    /// Typed lookup of a nested map.
    pub fn get_map<'a>(&'a self, key: &Vec<u8>) -> (r: Lookup<&'a Datamap>)
        ensures
            match r {
                Lookup::Found(m) => spec_get(self@, key@) == Some(ValView::MapV(m@)),
                Lookup::Absent => spec_get(self@, key@) is None,
                Lookup::WrongType => spec_get(self@, key@) matches Some(v) && !(v is MapV),
            },
    {
        match self.get(key) {
            None => Lookup::Absent,
            Some(v) => match v {
                Value::MapVal(m) => Lookup::Found(m),
                _ => Lookup::WrongType,
            },
        }
    }
}


/// Copy of a byte string.
pub fn clone_bytes(b: &Vec<u8>) -> (r: Vec<u8>)
    ensures
        r@ == b@,
{
    let n = b.len();
    let mut r: Vec<u8> = Vec::new();
    let mut i: usize = 0;
    while i < n
        invariant
            n == b@.len(),
            0 <= i <= n,
            r@ == b@.subrange(0, i as int),
        decreases n - i,
    {
        r.push(b[i]);
        proof {
            assert(b@.subrange(0, i + 1) =~= b@.subrange(0, i as int).push(b@[i as int]));
        }
        i += 1;
    }
    proof {
        assert(b@.subrange(0, n as int) =~= b@);
    }
    r
}

/// Copy of a value, equal at the view level.
pub fn clone_value(v: &Value) -> (r: Value)
    ensures
        val_view(r) == val_view(*v),
    decreases v,
{
    match v {
        Value::Bool(b) => Value::Bool(*b),
        Value::Num(n) => Value::Num(*n),
        Value::Text(t) => Value::Text(clone_bytes(t)),
        Value::MapVal(m) => Value::MapVal(clone_datamap(m)),
    }
}

/// Copy of a datamap, equal at the view level.
pub fn clone_datamap(m: &Datamap) -> (r: Datamap)
    ensures
        r@ == m@,
    decreases m,
{
    proof {
        lemma_entries_view(m.entries@);
    }
    let n = m.entries.len();
    let mut es: Vec<Entry> = Vec::new();
    let mut i: usize = 0;
    while i < n
        invariant
            n == m.entries@.len(),
            0 <= i <= n,
            es@.len() == i,
            forall|j: int|
                0 <= j < i ==> (#[trigger] es@[j]).key@ == m.entries@[j].key@ && val_view(
                    es@[j].value,
                ) == val_view(m.entries@[j].value),
        decreases n - i,
    {
        let e = &m.entries[i];
        let key = clone_bytes(&e.key);
        let value = clone_value(&e.value);
        es.push(Entry { key, value });
        i += 1;
    }
    let r = Datamap { entries: es };
    proof {
        lemma_entries_view(r.entries@);
        assert(r@ =~= m@);
    }
    r
}

} // verus!
