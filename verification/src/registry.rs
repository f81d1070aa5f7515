//! Registry: the canonical sets of live input methods, input handlers and
//! fields.
//!
//! Entities are addressed by stable integer ids minted from one counter, so
//! an id never names two entities.  A handler references exactly one field;
//! when that field is destroyed the handler stays registered but becomes
//! inactive, and ranking excludes it.  The `active` flag caches exactly that:
//! a handler is active if and only if its field is still live.

use vstd::prelude::*;

use crate::datamap::Datamap;
use crate::vecmath::{Transform, Vec3};

verus! {

/// Tip payload: a single point of interaction with a radius of influence.
#[derive(Clone, Copy, Debug, PartialEq, Eq, Structural)]
pub struct TipInputMethod {
    pub radius: u64,
}

/// Kind-specific payload of an input method.
pub enum MethodVariant {
    Pointer { origin: Vec3, direction: Vec3, deepest_point: Vec3 },
    Hand { joints: Vec<Vec3> },
    Tip { tip: TipInputMethod },
}

impl MethodVariant {
    pub open spec fn wf(self) -> bool {
        match self {
            MethodVariant::Pointer { origin, direction, deepest_point } => origin.wf()
                && direction.wf() && deepest_point.wf(),
            MethodVariant::Hand { joints } => forall|i: int|
                0 <= i < joints@.len() ==> (#[trigger] joints@[i]).wf(),
            MethodVariant::Tip { .. } => true,
        }
    }
}

/// One live input method.
pub struct MethodRecord {
    pub id: u64,
    pub transform: Transform,
    pub variant: MethodVariant,
    pub datamap: Datamap,
}

impl MethodRecord {
    pub open spec fn wf(self) -> bool {
        self.transform.wf() && self.variant.wf() && self.datamap.wf()
    }
}

/// One live input handler, guarded by its field.
#[derive(Clone, Copy, Debug, PartialEq, Eq, Structural)]
pub struct HandlerRecord {
    pub id: u64,
    pub transform: Transform,
    pub field: u64,
    pub active: bool,
}

impl HandlerRecord {
    pub open spec fn wf(self) -> bool {
        self.transform.wf()
    }
}

/// The canonical entity sets, in registration order.
pub struct Registry {
    pub methods: Vec<MethodRecord>,
    pub handlers: Vec<HandlerRecord>,
    pub fields: Vec<u64>,
    pub next_id: u64,
}

impl Registry {
    pub open spec fn wf(self) -> bool {
        &&& forall|i: int, j: int|
            0 <= i < j < self.methods@.len() ==> (#[trigger] self.methods@[i]).id != (
            #[trigger] self.methods@[j]).id
        &&& forall|i: int, j: int|
            0 <= i < j < self.handlers@.len() ==> (#[trigger] self.handlers@[i]).id != (
            #[trigger] self.handlers@[j]).id
        &&& forall|i: int, j: int|
            0 <= i < j < self.fields@.len() ==> (#[trigger] self.fields@[i]) != (
            #[trigger] self.fields@[j])
        &&& forall|i: int|
            0 <= i < self.methods@.len() ==> (#[trigger] self.methods@[i]).id < self.next_id
                && self.methods@[i].wf()
        &&& forall|i: int|
            0 <= i < self.handlers@.len() ==> {
                &&& (#[trigger] self.handlers@[i]).id < self.next_id
                &&& self.handlers@[i].wf()
                &&& self.handlers@[i].field < self.next_id
                &&& self.handlers@[i].active <==> self.fields@.contains(self.handlers@[i].field)
            }
        &&& forall|i: int| 0 <= i < self.fields@.len() ==> (#[trigger] self.fields@[i]) < self.next_id
    }

    pub open spec fn has_method(self, id: u64) -> bool {
        exists|i: int| 0 <= i < self.methods@.len() && (#[trigger] self.methods@[i]).id == id
    }

    pub open spec fn method_at(self, id: u64) -> int {
        choose|i: int| 0 <= i < self.methods@.len() && (#[trigger] self.methods@[i]).id == id
    }

    pub open spec fn has_handler(self, id: u64) -> bool {
        exists|i: int| 0 <= i < self.handlers@.len() && (#[trigger] self.handlers@[i]).id == id
    }

    pub open spec fn handler_at(self, id: u64) -> int {
        choose|i: int| 0 <= i < self.handlers@.len() && (#[trigger] self.handlers@[i]).id == id
    }

    pub open spec fn field_live(self, f: u64) -> bool {
        self.fields@.contains(f)
    }

    /// An active handler: registered and guarded by a live field.
    pub open spec fn handler_is_active(self, id: u64) -> bool {
        self.has_handler(id) && self.handlers@[self.handler_at(id)].active
    }

    /// The field a registered handler is guarded by.
    pub open spec fn handler_field(self, id: u64) -> u64 {
        self.handlers@[self.handler_at(id)].field
    }

    /// Index of the method with the given id.
    pub fn find_method(&self, id: u64) -> (r: Option<usize>)
        requires
            self.wf(),
        ensures
            match r {
                Some(i) => self.has_method(id) && i == self.method_at(id) && i
                    < self.methods@.len() && self.methods@[i as int].id == id,
                None => !self.has_method(id),
            },
    {
        let n = self.methods.len();
        let mut i: usize = 0;
        while i < n
            invariant
                self.wf(),
                n == self.methods@.len(),
                0 <= i <= n,
                forall|j: int| 0 <= j < i ==> (#[trigger] self.methods@[j]).id != id,
            decreases n - i,
        {
            if self.methods[i].id == id {
                return Some(i);
            }
            i += 1;
        }
        None
    }

    /// Index of the handler with the given id.
    pub fn find_handler(&self, id: u64) -> (r: Option<usize>)
        requires
            self.wf(),
        ensures
            match r {
                Some(i) => self.has_handler(id) && i == self.handler_at(id) && i
                    < self.handlers@.len() && self.handlers@[i as int].id == id,
                None => !self.has_handler(id),
            },
    {
        let n = self.handlers.len();
        let mut i: usize = 0;
        while i < n
            invariant
                self.wf(),
                n == self.handlers@.len(),
                0 <= i <= n,
                forall|j: int| 0 <= j < i ==> (#[trigger] self.handlers@[j]).id != id,
            decreases n - i,
        {
            if self.handlers[i].id == id {
                return Some(i);
            }
            i += 1;
        }
        None
    }

    /// Index of the field with the given id.
    pub fn find_field(&self, f: u64) -> (r: Option<usize>)
        ensures
            match r {
                Some(i) => self.field_live(f) && i < self.fields@.len() && self.fields@[i as int]
                    == f,
                None => !self.field_live(f),
            },
    {
        let n = self.fields.len();
        let mut i: usize = 0;
        while i < n
            invariant
                n == self.fields@.len(),
                0 <= i <= n,
                forall|j: int| 0 <= j < i ==> (#[trigger] self.fields@[j]) != f,
            decreases n - i,
        {
            if self.fields[i] == f {
                return Some(i);
            }
            i += 1;
        }
        proof {
            if self.field_live(f) {
                let j = choose|j: int| 0 <= j < self.fields@.len() && self.fields@[j] == f;
            }
        }
        None
    }
}

/// Membership in a pushed sequence.
pub proof fn lemma_push_contains<T>(s: Seq<T>, e: T)
    ensures
        forall|x: T| s.push(e).contains(x) <==> (s.contains(x) || x == e),
{
    assert forall|x: T| s.push(e).contains(x) <==> (s.contains(x) || x == e) by {
        if s.push(e).contains(x) {
            let i = choose|i: int| 0 <= i < s.push(e).len() && s.push(e)[i] == x;
            if i < s.len() {
                assert(s[i] == x);
            }
        }
        if s.contains(x) {
            let i = choose|i: int| 0 <= i < s.len() && s[i] == x;
            assert(s.push(e)[i] == x);
        }
        if x == e {
            assert(s.push(e)[s.len() as int] == x);
        }
    }
}

/// Membership in a sequence with one element removed: everything else stays.
pub proof fn lemma_remove_contains(s: Seq<u64>, i: int)
    requires
        0 <= i < s.len(),
        forall|a: int, b: int| 0 <= a < b < s.len() ==> (#[trigger] s[a]) != (#[trigger] s[b]),
    ensures
        forall|x: u64| s.remove(i).contains(x) <==> (s.contains(x) && x != s[i]),
{
    assert forall|x: u64| s.remove(i).contains(x) <==> (s.contains(x) && x != s[i]) by {
        if s.remove(i).contains(x) {
            let j = choose|j: int| 0 <= j < s.remove(i).len() && s.remove(i)[j] == x;
            if j < i {
                assert(s[j] == x);
            } else {
                assert(s[j + 1] == x);
            }
        }
        if s.contains(x) && x != s[i] {
            let j = choose|j: int| 0 <= j < s.len() && s[j] == x;
            if j < i {
                assert(s.remove(i)[j] == x);
            } else {
                assert(s.remove(i)[j - 1] == x);
            }
        }
    }
}


/// An index holding the id pins down `method_at`.
pub proof fn lemma_method_at(r: Registry, m: u64, k: int)
    requires
        r.wf(),
        0 <= k < r.methods@.len(),
        r.methods@[k].id == m,
    ensures
        r.has_method(m),
        r.method_at(m) == k,
{
    assert(r.has_method(m));
    let k2 = r.method_at(m);
    assert(r.methods@[k2].id == m);
}

/// An index holding the id pins down `handler_at`.
pub proof fn lemma_handler_at(r: Registry, h: u64, k: int)
    requires
        r.wf(),
        0 <= k < r.handlers@.len(),
        r.handlers@[k].id == h,
    ensures
        r.has_handler(h),
        r.handler_at(h) == k,
{
    assert(r.has_handler(h));
    let k2 = r.handler_at(h);
    assert(r.handlers@[k2].id == h);
}

} // verus!
