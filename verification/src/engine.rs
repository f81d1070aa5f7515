//! The arbitration engine's state and lifecycle operations.
//!
//! An [`Engine`] owns the [`Registry`], the Capture Table and the frame
//! counter.  Mutations are validated synchronously: an operation naming an
//! unknown entity, or a malformed datamap, is rejected whole with no state
//! change.  Every removal cascades: no capture record ever outlives the
//! method or handler it names, nor a handler's field (cleanup is immediate,
//! not deferred to the next frame).
//!
//! Capture release is explicit, by [`Engine::release`]: a capture persists
//! across frames until released or until one of its endpoints is destroyed.

use vstd::prelude::*;

use crate::capture::{purge_view, CaptureState, CaptureTable};
use crate::codec::{spec_validate, validate};
use crate::datamap::Datamap;
use crate::registry::{
    lemma_handler_at, lemma_method_at, lemma_push_contains, lemma_remove_contains, HandlerRecord,
    MethodRecord, MethodVariant, Registry, TipInputMethod,
};
use crate::vecmath::Transform;
use crate::InputError;

verus! {

/// The whole engine state.
pub struct Engine {
    pub registry: Registry,
    pub captures: CaptureTable,
    pub frame: u64,
}

impl Engine {
    /// Engine invariant: both stores well formed, and every capture record
    /// names a live method and a live, active handler.
    pub open spec fn wf(self) -> bool {
        &&& self.registry.wf()
        &&& self.captures.wf()
        &&& forall|m: u64|
            #[trigger] self.captures@.contains_key(m) ==> {
                &&& self.registry.has_method(m)
                &&& self.registry.has_handler(self.captures@[m].holder())
                &&& self.registry.handler_is_active(self.captures@[m].holder())
            }
    }

    /// A fresh engine: nothing registered, nothing captured, frame zero.
    pub fn new() -> (e: Engine)
        ensures
            e.wf(),
            e.registry.methods@.len() == 0,
            e.registry.handlers@.len() == 0,
            e.registry.fields@.len() == 0,
            e.captures@ =~= Map::<u64, CaptureState>::empty(),
            e.frame == 0,
    {
        Engine {
            registry: Registry {
                methods: Vec::new(),
                handlers: Vec::new(),
                fields: Vec::new(),
                next_id: 0,
            },
            captures: CaptureTable::new(),
            frame: 0,
        }
    }

    /// Register a field and return its id.  The geometric shape itself lives
    /// outside the engine; the registry only tracks the field's lifetime.
    pub fn create_field(&mut self) -> (f: u64)
        requires
            old(self).wf(),
            old(self).registry.next_id < u64::MAX,
        ensures
            final(self).wf(),
            f == old(self).registry.next_id,
            final(self).registry.fields@ == old(self).registry.fields@.push(f),
            final(self).registry.field_live(f),
            final(self).registry.methods == old(self).registry.methods,
            final(self).registry.handlers == old(self).registry.handlers,
            final(self).registry.next_id == old(self).registry.next_id + 1,
            final(self).captures == old(self).captures,
            final(self).frame == old(self).frame,
    {
        let f = self.registry.next_id;
        self.registry.fields.push(f);
        self.registry.next_id = self.registry.next_id + 1;
        proof {
            lemma_push_contains(old(self).registry.fields@, f);
            assert(self.registry.fields@.last() == f);
        }
        f
    }

    /// Register an input handler guarded by the given field.
    ///
    /// Rejected with `UnknownId` when the field is not live.
    pub fn create_input_handler(&mut self, transform: Transform, field: u64) -> (r: Result<
        u64,
        InputError,
    >)
        requires
            old(self).wf(),
            transform.wf(),
            old(self).registry.next_id < u64::MAX,
        ensures
            final(self).wf(),
            match r {
                Ok(h) => {
                    &&& old(self).registry.field_live(field)
                    &&& h == old(self).registry.next_id
                    &&& final(self).registry.handlers@ == old(self).registry.handlers@.push(
                        (HandlerRecord { id: h, transform, field, active: true }),
                    )
                    &&& final(self).registry.handler_is_active(h)
                    &&& final(self).registry.methods == old(self).registry.methods
                    &&& final(self).registry.fields == old(self).registry.fields
                    &&& final(self).registry.next_id == old(self).registry.next_id + 1
                    &&& final(self).captures == old(self).captures
                    &&& final(self).frame == old(self).frame
                },
                Err(e) => {
                    &&& e == InputError::UnknownId
                    &&& !old(self).registry.field_live(field)
                    &&& *final(self) == *old(self)
                },
            },
    {
        match self.registry.find_field(field) {
            None => Err(InputError::UnknownId),
            Some(_) => {
                let h = self.registry.next_id;
                let rec = HandlerRecord { id: h, transform, field, active: true };
                self.registry.handlers.push(rec);
                self.registry.next_id = self.registry.next_id + 1;
                proof {
                    let hs = self.registry.handlers@;
                    assert(hs.last() == rec);
                    assert(forall|i: int|
                        0 <= i < hs.len() - 1 ==> hs[i] == old(self).registry.handlers@[i]);
                    assert(self.registry.wf());
                    assert(self.registry.has_handler(h)) by {
                        assert(hs[hs.len() - 1].id == h);
                    }
                    assert(self.registry.handlers@[self.registry.handler_at(h)].active);
                    assert forall|m: u64| #[trigger] self.captures@.contains_key(m) implies {
                        &&& self.registry.has_method(m)
                        &&& self.registry.has_handler(self.captures@[m].holder())
                        &&& self.registry.handler_is_active(self.captures@[m].holder())
                    } by {
                        let hh = self.captures@[m].holder();
                        let i = old(self).registry.handler_at(hh);
                        assert(old(self).registry.handlers@[i].id == hh);
                        assert(hs[i].id == hh);
                        assert(self.registry.handler_at(hh) == i);
                    }
                }
                Ok(h)
            },
        }
    }

    /// Register a tip input method, validating the optional datamap bytes.
    ///
    /// Rejected with `MapInvalid` when the bytes do not decode as a map; the
    /// method then never becomes visible to any handler.
    pub fn create_input_method_tip(
        &mut self,
        transform: Transform,
        radius: u64,
        datamap: Option<Vec<u8>>,
    ) -> (r: Result<u64, InputError>)
        requires
            old(self).wf(),
            transform.wf(),
            old(self).registry.next_id < u64::MAX,
        ensures
            final(self).wf(),
            match r {
                Ok(mid) => {
                    &&& mid == old(self).registry.next_id
                    &&& (match datamap {
                        Some(b) => spec_validate(b@) is Some && final(self).registry.methods@.last().datamap@ == spec_validate(b@)->Some_0,
                        None => final(self).registry.methods@.last().datamap@.len() == 0,
                    })
                    &&& final(self).registry.methods@.len() == old(self).registry.methods@.len()
                        + 1
                    &&& final(self).registry.methods@.drop_last() == old(self).registry.methods@
                    &&& final(self).registry.methods@.last().id == mid
                    &&& final(self).registry.methods@.last().transform == transform
                    &&& final(self).registry.methods@.last().variant == (MethodVariant::Tip {
                        tip: (TipInputMethod { radius }),
                    })
                    &&& final(self).registry.has_method(mid)
                    &&& final(self).registry.handlers == old(self).registry.handlers
                    &&& final(self).registry.fields == old(self).registry.fields
                    &&& final(self).registry.next_id == old(self).registry.next_id + 1
                    &&& final(self).captures == old(self).captures
                    &&& final(self).frame == old(self).frame
                },
                Err(e) => {
                    &&& e == InputError::MapInvalid
                    &&& datamap matches Some(b) && spec_validate(b@) is None
                    &&& *final(self) == *old(self)
                },
            },
    {
        let dm: Datamap = match datamap {
            Some(b) => match validate(&b) {
                Ok(m) => m,
                Err(e) => {
                    return Err(e);
                },
            },
            None => Datamap::new(),
        };
        let mid = self.registry.next_id;
        let rec = MethodRecord {
            id: mid,
            transform,
            variant: MethodVariant::Tip { tip: TipInputMethod { radius } },
            datamap: dm,
        };
        self.registry.methods.push(rec);
        self.registry.next_id = self.registry.next_id + 1;
        proof {
            let ms = self.registry.methods@;
            assert(ms.drop_last() =~= old(self).registry.methods@);
            assert(ms.last() == rec);
            assert(self.registry.has_method(mid)) by {
                assert(ms[ms.len() - 1].id == mid);
            }
            assert(self.registry.wf());
            assert forall|m: u64| #[trigger] self.captures@.contains_key(m) implies {
                &&& self.registry.has_method(m)
                &&& self.registry.has_handler(self.captures@[m].holder())
                &&& self.registry.handler_is_active(self.captures@[m].holder())
            } by {
                let i = old(self).registry.method_at(m);
                assert(old(self).registry.methods@[i].id == m);
                assert(ms[i].id == m);
            }
        }
        Ok(mid)
    }

    /// Replace a method's datamap after validating the bytes.
    ///
    /// Validation comes first: malformed bytes are rejected with `MapInvalid`
    /// even for an unknown method; then an unknown id is rejected with
    /// `UnknownId`.
    pub fn set_datamap(&mut self, method: u64, data: &Vec<u8>) -> (r: Result<(), InputError>)
        requires
            old(self).wf(),
        ensures
            final(self).wf(),
            match r {
                Ok(_) => {
                    &&& spec_validate(data@) is Some
                    &&& old(self).registry.has_method(method)
                    &&& final(self).registry.methods@.len() == old(self).registry.methods@.len()
                    &&& forall|j: int|
                        0 <= j < old(self).registry.methods@.len() && j != old(self).registry.method_at(method) ==> final(self).registry.methods@[j] == old(self).registry.methods@[j]
                    &&& final(self).registry.methods@[old(self).registry.method_at(method)].id
                        == method
                    &&& final(self).registry.methods@[old(self).registry.method_at(method)].transform
                        == old(self).registry.methods@[old(self).registry.method_at(method)].transform
                    &&& final(self).registry.methods@[old(self).registry.method_at(method)].variant
                        == old(self).registry.methods@[old(self).registry.method_at(method)].variant
                    &&& final(self).registry.methods@[old(self).registry.method_at(method)].datamap@
                        == spec_validate(data@)->Some_0
                    &&& final(self).registry.handlers == old(self).registry.handlers
                    &&& final(self).registry.fields == old(self).registry.fields
                    &&& final(self).registry.next_id == old(self).registry.next_id
                    &&& final(self).captures == old(self).captures
                    &&& final(self).frame == old(self).frame
                },
                Err(InputError::MapInvalid) => {
                    &&& spec_validate(data@) is None
                    &&& *final(self) == *old(self)
                },
                Err(InputError::UnknownId) => {
                    &&& spec_validate(data@) is Some
                    &&& !old(self).registry.has_method(method)
                    &&& *final(self) == *old(self)
                },
            },
    {
        let dm = match validate(data) {
            Ok(m) => m,
            Err(e) => {
                return Err(e);
            },
        };
        match self.registry.find_method(method) {
            None => Err(InputError::UnknownId),
            Some(i) => {
                let old_rec = self.registry.methods.remove(i);
                let rec = MethodRecord {
                    id: old_rec.id,
                    transform: old_rec.transform,
                    variant: old_rec.variant,
                    datamap: dm,
                };
                self.registry.methods.insert(i, rec);
                proof {
                    let ms = self.registry.methods@;
                    assert(ms =~= old(self).registry.methods@.update(i as int, rec));
                    assert(self.registry.wf());
                    assert forall|m: u64| #[trigger] self.captures@.contains_key(m) implies {
                        &&& self.registry.has_method(m)
                        &&& self.registry.has_handler(self.captures@[m].holder())
                        &&& self.registry.handler_is_active(self.captures@[m].holder())
                    } by {
                        let k = old(self).registry.method_at(m);
                        assert(old(self).registry.methods@[k].id == m);
                        assert(ms[k].id == m);
                        lemma_method_at(self.registry, m, k);
                        let hh = self.captures@[m].holder();
                        let j = old(self).registry.handler_at(hh);
                        assert(old(self).registry.handlers@[j].id == hh);
                        assert(old(self).registry.handlers@[j].active);
                        assert(self.registry.handlers@[j].id == hh);
                        lemma_handler_at(self.registry, hh, j);
                    }
                }
                Ok(())
            },
        }
    }

    /// Tip-specific geometry update: set the tip's radius of influence.
    ///
    /// Rejected with `UnknownId` when the id does not name a tip method.
    pub fn set_radius(&mut self, method: u64, radius: u64) -> (r: Result<(), InputError>)
        requires
            old(self).wf(),
        ensures
            final(self).wf(),
            match r {
                Ok(_) => {
                    &&& old(self).registry.has_method(method)
                    &&& old(self).registry.methods@[old(self).registry.method_at(method)].variant
                        is Tip
                    &&& final(self).registry.methods@.len() == old(self).registry.methods@.len()
                    &&& forall|j: int|
                        0 <= j < old(self).registry.methods@.len() && j != old(self).registry.method_at(method) ==> final(self).registry.methods@[j] == old(self).registry.methods@[j]
                    &&& final(self).registry.methods@[old(self).registry.method_at(method)].id
                        == method
                    &&& final(self).registry.methods@[old(self).registry.method_at(method)].variant
                        == (MethodVariant::Tip { tip: (TipInputMethod { radius }) })
                    &&& final(self).registry.methods@[old(self).registry.method_at(method)].transform
                        == old(self).registry.methods@[old(self).registry.method_at(method)].transform
                    &&& final(self).registry.methods@[old(self).registry.method_at(method)].datamap
                        == old(self).registry.methods@[old(self).registry.method_at(method)].datamap
                    &&& final(self).registry.handlers == old(self).registry.handlers
                    &&& final(self).registry.fields == old(self).registry.fields
                    &&& final(self).registry.next_id == old(self).registry.next_id
                    &&& final(self).captures == old(self).captures
                    &&& final(self).frame == old(self).frame
                },
                Err(e) => {
                    &&& e == InputError::UnknownId
                    &&& !(old(self).registry.has_method(method) && old(self).registry.methods@[old(self).registry.method_at(method)].variant is Tip)
                    &&& *final(self) == *old(self)
                },
            },
    {
        match self.registry.find_method(method) {
            None => Err(InputError::UnknownId),
            Some(i) => {
                let is_tip = match &self.registry.methods[i].variant {
                    MethodVariant::Tip { .. } => true,
                    _ => false,
                };
                if !is_tip {
                    return Err(InputError::UnknownId);
                }
                let old_rec = self.registry.methods.remove(i);
                let rec = MethodRecord {
                    id: old_rec.id,
                    transform: old_rec.transform,
                    variant: MethodVariant::Tip { tip: TipInputMethod { radius } },
                    datamap: old_rec.datamap,
                };
                self.registry.methods.insert(i, rec);
                proof {
                    let ms = self.registry.methods@;
                    assert(ms =~= old(self).registry.methods@.update(i as int, rec));
                    assert(self.registry.wf());
                    assert forall|m: u64| #[trigger] self.captures@.contains_key(m) implies {
                        &&& self.registry.has_method(m)
                        &&& self.registry.has_handler(self.captures@[m].holder())
                        &&& self.registry.handler_is_active(self.captures@[m].holder())
                    } by {
                        let k = old(self).registry.method_at(m);
                        assert(old(self).registry.methods@[k].id == m);
                        assert(ms[k].id == m);
                        lemma_method_at(self.registry, m, k);
                        let hh = self.captures@[m].holder();
                        let j = old(self).registry.handler_at(hh);
                        assert(old(self).registry.handlers@[j].id == hh);
                        assert(old(self).registry.handlers@[j].active);
                        assert(self.registry.handlers@[j].id == hh);
                        lemma_handler_at(self.registry, hh, j);
                    }
                }
                Ok(())
            },
        }
    }


    /// Atomically replace a method's pose, payload and datamap: handlers
    /// never observe a half-updated method within a frame.
    ///
    /// Validation comes first: malformed bytes are rejected with `MapInvalid`
    /// even for an unknown method; then an unknown id is rejected with
    /// `UnknownId`.  A rejected update changes nothing.
    pub fn update_method(
        &mut self,
        method: u64,
        transform: Transform,
        variant: MethodVariant,
        data: &Vec<u8>,
    ) -> (r: Result<(), InputError>)
        requires
            old(self).wf(),
            transform.wf(),
            variant.wf(),
        ensures
            final(self).wf(),
            match r {
                Ok(_) => {
                    &&& spec_validate(data@) is Some
                    &&& old(self).registry.has_method(method)
                    &&& final(self).registry.methods@.len() == old(self).registry.methods@.len()
                    &&& forall|j: int|
                        0 <= j < old(self).registry.methods@.len() && j != old(
                            self,
                        ).registry.method_at(method) ==> final(self).registry.methods@[j] == old(
                            self,
                        ).registry.methods@[j]
                    &&& final(self).registry.methods@[old(self).registry.method_at(method)].id
                        == method
                    &&& final(self).registry.methods@[old(self).registry.method_at(method)].transform
                        == transform
                    &&& final(self).registry.methods@[old(self).registry.method_at(method)].variant
                        == variant
                    &&& final(self).registry.methods@[old(self).registry.method_at(method)].datamap@
                        == spec_validate(data@)->Some_0
                    &&& final(self).registry.handlers == old(self).registry.handlers
                    &&& final(self).registry.fields == old(self).registry.fields
                    &&& final(self).registry.next_id == old(self).registry.next_id
                    &&& final(self).captures == old(self).captures
                    &&& final(self).frame == old(self).frame
                },
                Err(InputError::MapInvalid) => {
                    &&& spec_validate(data@) is None
                    &&& *final(self) == *old(self)
                },
                Err(InputError::UnknownId) => {
                    &&& spec_validate(data@) is Some
                    &&& !old(self).registry.has_method(method)
                    &&& *final(self) == *old(self)
                },
            },
    {
        let dm = match validate(data) {
            Ok(m) => m,
            Err(e) => {
                return Err(e);
            },
        };
        match self.registry.find_method(method) {
            None => Err(InputError::UnknownId),
            Some(i) => {
                let old_rec = self.registry.methods.remove(i);
                let rec = MethodRecord { id: old_rec.id, transform, variant, datamap: dm };
                self.registry.methods.insert(i, rec);
                proof {
                    let ms = self.registry.methods@;
                    assert(ms =~= old(self).registry.methods@.update(i as int, rec));
                    assert(self.registry.wf());
                    assert forall|m: u64| #[trigger] self.captures@.contains_key(m) implies {
                        &&& self.registry.has_method(m)
                        &&& self.registry.has_handler(self.captures@[m].holder())
                        &&& self.registry.handler_is_active(self.captures@[m].holder())
                    } by {
                        let k = old(self).registry.method_at(m);
                        assert(old(self).registry.methods@[k].id == m);
                        assert(ms[k].id == m);
                        lemma_method_at(self.registry, m, k);
                        let hh = self.captures@[m].holder();
                        let j = old(self).registry.handler_at(hh);
                        assert(old(self).registry.handlers@[j].id == hh);
                        assert(old(self).registry.handlers@[j].active);
                        assert(self.registry.handlers@[j].id == hh);
                        lemma_handler_at(self.registry, hh, j);
                    }
                }
                Ok(())
            },
        }
    }

    /// Out-of-band capture request from a handler, pre-empting ranking at
    /// the method's next dispatch (delayed capture).  Ignored while the
    /// method is already captured; rejected with `UnknownId` when either id
    /// is stale or the handler's field is gone.
    pub fn capture(&mut self, method: u64, handler: u64) -> (r: Result<(), InputError>)
        requires
            old(self).wf(),
        ensures
            final(self).wf(),
            match r {
                Ok(_) => {
                    &&& old(self).registry.has_method(method)
                    &&& old(self).registry.handler_is_active(handler)
                    &&& final(self).registry == old(self).registry
                    &&& final(self).frame == old(self).frame
                    &&& if old(self).captures@.contains_key(method) && old(self).captures@[method] is CapturedBy {
                        final(self).captures == old(self).captures
                    } else {
                        final(self).captures@ == old(self).captures@.insert(
                            method,
                            (CaptureState::Pending { handler, since: old(self).frame }),
                        )
                    }
                },
                Err(e) => {
                    &&& e == InputError::UnknownId
                    &&& !(old(self).registry.has_method(method) && old(self).registry.handler_is_active(handler))
                    &&& *final(self) == *old(self)
                },
            },
    {
        if self.registry.find_method(method).is_none() {
            return Err(InputError::UnknownId);
        }
        let hidx = match self.registry.find_handler(handler) {
            None => {
                return Err(InputError::UnknownId);
            },
            Some(i) => i,
        };
        if !self.registry.handlers[hidx].active {
            return Err(InputError::UnknownId);
        }
        let already = match self.captures.get(method) {
            Some(st) => match st {
                CaptureState::CapturedBy { .. } => true,
                _ => false,
            },
            None => false,
        };
        if already {
            return Ok(());
        }
        self.captures.set(method, CaptureState::Pending { handler, since: self.frame });
        proof {
            assert forall|m: u64| #[trigger] self.captures@.contains_key(m) implies {
                &&& self.registry.has_method(m)
                &&& self.registry.has_handler(self.captures@[m].holder())
                &&& self.registry.handler_is_active(self.captures@[m].holder())
            } by {
                if m != method {
                    assert(old(self).captures@.contains_key(m));
                    assert(self.captures@[m] == old(self).captures@[m]);
                }
            }
        }
        Ok(())
    }

    /// Explicitly release the capture (or pending request) that `handler`
    /// holds on `method`.  A record naming another handler is left alone:
    /// release is not a way to oust a captor.
    pub fn release(&mut self, method: u64, handler: u64) -> (r: Result<(), InputError>)
        requires
            old(self).wf(),
        ensures
            final(self).wf(),
            match r {
                Ok(_) => {
                    &&& old(self).registry.has_method(method)
                    &&& old(self).registry.has_handler(handler)
                    &&& final(self).registry == old(self).registry
                    &&& final(self).frame == old(self).frame
                    &&& if old(self).captures@.contains_key(method) && old(self).captures@[method].holder() == handler {
                        final(self).captures@ == old(self).captures@.remove(method)
                    } else {
                        *final(self) == *old(self)
                    }
                },
                Err(e) => {
                    &&& e == InputError::UnknownId
                    &&& !(old(self).registry.has_method(method) && old(self).registry.has_handler(handler))
                    &&& *final(self) == *old(self)
                },
            },
    {
        if self.registry.find_method(method).is_none() {
            return Err(InputError::UnknownId);
        }
        if self.registry.find_handler(handler).is_none() {
            return Err(InputError::UnknownId);
        }
        match self.captures.get(method) {
            Some(st) => {
                if st.held_by() == handler {
                    self.captures.clear(method);
                    proof {
                        assert forall|m: u64| #[trigger] self.captures@.contains_key(m) implies {
                            &&& self.registry.has_method(m)
                            &&& self.registry.has_handler(self.captures@[m].holder())
                            &&& self.registry.handler_is_active(self.captures@[m].holder())
                        } by {
                            assert(old(self).captures@.contains_key(m));
                            assert(self.captures@[m] == old(self).captures@[m]);
                        }
                    }
                    Ok(())
                } else {
                    Ok(())
                }
            },
            None => Ok(()),
        }
    }

    /// Destroy a method: its record and any capture record naming it vanish
    /// together, so the Capture Table never references a destroyed method.
    pub fn remove_method(&mut self, method: u64) -> (r: Result<(), InputError>)
        requires
            old(self).wf(),
        ensures
            final(self).wf(),
            match r {
                Ok(_) => {
                    &&& old(self).registry.has_method(method)
                    &&& final(self).registry.methods@ == old(self).registry.methods@.remove(
                        old(self).registry.method_at(method),
                    )
                    &&& !final(self).registry.has_method(method)
                    &&& final(self).captures@ == old(self).captures@.remove(method)
                    &&& final(self).registry.handlers == old(self).registry.handlers
                    &&& final(self).registry.fields == old(self).registry.fields
                    &&& final(self).registry.next_id == old(self).registry.next_id
                    &&& final(self).frame == old(self).frame
                },
                Err(e) => {
                    &&& e == InputError::UnknownId
                    &&& !old(self).registry.has_method(method)
                    &&& *final(self) == *old(self)
                },
            },
    {
        let i = match self.registry.find_method(method) {
            None => {
                return Err(InputError::UnknownId);
            },
            Some(i) => i,
        };
        self.registry.methods.remove(i);
        self.captures.clear(method);
        proof {
            let oms = old(self).registry.methods@;
            let ms = self.registry.methods@;
            assert forall|a: int, b: int| 0 <= a < b < ms.len() implies (#[trigger] ms[a]).id != (
            #[trigger] ms[b]).id by {
                assert(ms[a] == if a < i { oms[a] } else { oms[a + 1] });
                assert(ms[b] == if b < i { oms[b] } else { oms[b + 1] });
            }
            assert forall|a: int| 0 <= a < ms.len() implies (#[trigger] ms[a]).id
                != method by {
                assert(ms[a] == if a < i { oms[a] } else { oms[a + 1] });
            }
            assert(!self.registry.has_method(method));
            assert(self.registry.wf()) by {
                assert(forall|a: int|
                    0 <= a < ms.len() ==> (#[trigger] ms[a]) == (if a < i {
                        oms[a]
                    } else {
                        oms[a + 1]
                    }));
            }
            assert forall|m: u64| #[trigger] self.captures@.contains_key(m) implies {
                &&& self.registry.has_method(m)
                &&& self.registry.has_handler(self.captures@[m].holder())
                &&& self.registry.handler_is_active(self.captures@[m].holder())
            } by {
                assert(old(self).captures@.contains_key(m));
                assert(self.captures@[m] == old(self).captures@[m]);
                assert(m != method);
                let k = old(self).registry.method_at(m);
                assert(oms[k].id == m);
                if k < i {
                    assert(ms[k].id == m);
                    lemma_method_at(self.registry, m, k);
                } else {
                    assert(k != i);
                    assert(ms[k - 1].id == m);
                    lemma_method_at(self.registry, m, k - 1);
                }
                let hh = self.captures@[m].holder();
                let j = old(self).registry.handler_at(hh);
                assert(old(self).registry.handlers@[j].id == hh);
                assert(old(self).registry.handlers@[j].active);
                lemma_handler_at(self.registry, hh, j);
            }
        }
        Ok(())
    }

    /// Destroy a handler: its record vanishes and every capture record it
    /// holds, pending or committed, is cleared in the same step (cleanup
    /// integrity: no capture survives its captor).
    pub fn remove_handler(&mut self, handler: u64) -> (r: Result<(), InputError>)
        requires
            old(self).wf(),
        ensures
            final(self).wf(),
            match r {
                Ok(_) => {
                    &&& old(self).registry.has_handler(handler)
                    &&& final(self).registry.handlers@ == old(self).registry.handlers@.remove(
                        old(self).registry.handler_at(handler),
                    )
                    &&& !final(self).registry.has_handler(handler)
                    &&& final(self).captures@ == purge_view(old(self).captures@, handler)
                    &&& forall|m: u64|
                        #[trigger] final(self).captures@.contains_key(m) ==> final(self).captures@[m].holder() != handler
                    &&& final(self).registry.methods == old(self).registry.methods
                    &&& final(self).registry.fields == old(self).registry.fields
                    &&& final(self).registry.next_id == old(self).registry.next_id
                    &&& final(self).frame == old(self).frame
                },
                Err(e) => {
                    &&& e == InputError::UnknownId
                    &&& !old(self).registry.has_handler(handler)
                    &&& *final(self) == *old(self)
                },
            },
    {
        let i = match self.registry.find_handler(handler) {
            None => {
                return Err(InputError::UnknownId);
            },
            Some(i) => i,
        };
        self.registry.handlers.remove(i);
        self.captures.purge_handler(handler);
        proof {
            let ohs = old(self).registry.handlers@;
            let hs = self.registry.handlers@;
            assert(forall|a: int|
                0 <= a < hs.len() ==> (#[trigger] hs[a]) == (if a < i {
                    ohs[a]
                } else {
                    ohs[a + 1]
                }));
            assert forall|a: int| 0 <= a < hs.len() implies (#[trigger] hs[a]).id
                != handler by {}
            assert(!self.registry.has_handler(handler));
            assert(self.registry.wf());
            assert forall|m: u64| #[trigger] self.captures@.contains_key(m) implies {
                &&& self.registry.has_method(m)
                &&& self.registry.has_handler(self.captures@[m].holder())
                &&& self.registry.handler_is_active(self.captures@[m].holder())
            } by {
                assert(old(self).captures@.contains_key(m));
                assert(self.captures@[m] == old(self).captures@[m]);
                let hh = self.captures@[m].holder();
                assert(hh != handler);
                let k = old(self).registry.method_at(m);
                assert(old(self).registry.methods@[k].id == m);
                lemma_method_at(self.registry, m, k);
                let j = old(self).registry.handler_at(hh);
                assert(ohs[j].id == hh);
                assert(ohs[j].active);
                assert(j != i);
                if j < i {
                    assert(hs[j].id == hh);
                    lemma_handler_at(self.registry, hh, j);
                } else {
                    assert(hs[j - 1].id == hh);
                    lemma_handler_at(self.registry, hh, j - 1);
                }
            }
        }
        Ok(())
    }


    /// Destroy a field: every handler guarded by it becomes permanently
    /// inactive (it stays registered but ranking excludes it), and every
    /// capture such a handler held is cleared in the same step, so a method
    /// captured through a dead field is immediately uncaptured again.
    pub fn remove_field(&mut self, field: u64) -> (r: Result<(), InputError>)
        requires
            old(self).wf(),
        ensures
            final(self).wf(),
            match r {
                Ok(_) => {
                    &&& old(self).registry.field_live(field)
                    &&& !final(self).registry.field_live(field)
                    &&& forall|f: u64|
                        #[trigger] final(self).registry.field_live(f) <==> (old(
                            self,
                        ).registry.field_live(f) && f != field)
                    &&& final(self).registry.handlers@.len() == old(
                        self,
                    ).registry.handlers@.len()
                    &&& forall|i: int|
                        0 <= i < old(self).registry.handlers@.len() ==> (
                        #[trigger] final(self).registry.handlers@[i]) == (if old(
                            self,
                        ).registry.handlers@[i].field == field {
                            (HandlerRecord {
                                id: old(self).registry.handlers@[i].id,
                                transform: old(self).registry.handlers@[i].transform,
                                field: old(self).registry.handlers@[i].field,
                                active: false,
                            })
                        } else {
                            old(self).registry.handlers@[i]
                        })
                    &&& final(self).captures@ == (Map::new(
                        |m: u64|
                            old(self).captures@.contains_key(m) && old(
                                self,
                            ).registry.handler_field(old(self).captures@[m].holder()) != field,
                        |m: u64| old(self).captures@[m],
                    ))
                    &&& final(self).registry.methods == old(self).registry.methods
                    &&& final(self).registry.next_id == old(self).registry.next_id
                    &&& final(self).frame == old(self).frame
                },
                Err(e) => {
                    &&& e == InputError::UnknownId
                    &&& !old(self).registry.field_live(field)
                    &&& *final(self) == *old(self)
                },
            },
    {
        let fidx = match self.registry.find_field(field) {
            None => {
                return Err(InputError::UnknownId);
            },
            Some(i) => i,
        };
        self.registry.fields.remove(fidx);
        proof {
            lemma_remove_contains(old(self).registry.fields@, fidx as int);
        }
        let n = self.registry.handlers.len();
        let mut i: usize = 0;
        while i < n
            invariant
                old(self).wf(),
                old(self).registry.field_live(field),
                n == old(self).registry.handlers@.len(),
                0 <= i <= n,
                self.registry.methods == old(self).registry.methods,
                self.registry.next_id == old(self).registry.next_id,
                self.frame == old(self).frame,
                self.registry.fields@ == old(self).registry.fields@.remove(fidx as int),
                forall|f: u64|
                    #[trigger] self.registry.fields@.contains(f) <==> (old(
                        self,
                    ).registry.fields@.contains(f) && f != field),
                self.registry.handlers@.len() == n,
                forall|j: int|
                    i <= j < n ==> (#[trigger] self.registry.handlers@[j]) == old(
                        self,
                    ).registry.handlers@[j],
                forall|j: int|
                    0 <= j < i ==> (#[trigger] self.registry.handlers@[j]) == (if old(
                        self,
                    ).registry.handlers@[j].field == field {
                        (HandlerRecord {
                            id: old(self).registry.handlers@[j].id,
                            transform: old(self).registry.handlers@[j].transform,
                            field: old(self).registry.handlers@[j].field,
                            active: false,
                        })
                    } else {
                        old(self).registry.handlers@[j]
                    }),
                self.captures.wf(),
                forall|m: u64|
                    #[trigger] self.captures@.contains_key(m) ==> old(
                        self,
                    ).captures@.contains_key(m) && self.captures@[m] == old(self).captures@[m],
                forall|m: u64|
                    old(self).captures@.contains_key(m) && !(old(self).registry.handler_field(
                        (#[trigger] old(self).captures@[m]).holder(),
                    ) == field && old(self).registry.handler_at(old(self).captures@[m].holder())
                        < i) ==> self.captures@.contains_key(m) && self.captures@[m] == old(
                        self,
                    ).captures@[m],
                forall|m: u64|
                    #[trigger] self.captures@.contains_key(m) ==> !(old(
                        self,
                    ).registry.handler_field(self.captures@[m].holder()) == field && old(
                        self,
                    ).registry.handler_at(self.captures@[m].holder()) < i),
            decreases n - i,
        {
            let rec = self.registry.handlers[i];
            if rec.field == field {
                let deactivated = HandlerRecord {
                    id: rec.id,
                    transform: rec.transform,
                    field: rec.field,
                    active: false,
                };
                self.registry.handlers.set(i, deactivated);
                self.captures.purge_handler(rec.id);
                proof {
                    let ohs = old(self).registry.handlers@;
                    assert(ohs[i as int] == rec);
                    lemma_handler_at(old(self).registry, rec.id, i as int);
                    assert forall|m: u64| #[trigger] self.captures@.contains_key(m) implies !(
                    old(self).registry.handler_field(self.captures@[m].holder()) == field && old(
                        self,
                    ).registry.handler_at(self.captures@[m].holder()) < i + 1) by {
                        let hh = self.captures@[m].holder();
                        if old(self).registry.handler_at(hh) == i {
                            assert(old(self).registry.has_handler(hh)) by {
                                assert(old(self).captures@.contains_key(m));
                            }
                            assert(ohs[old(self).registry.handler_at(hh)].id == hh);
                            assert(hh == rec.id);
                            assert(self.captures@[m].holder() != rec.id);
                        }
                    }
                }
            } else {
                proof {
                    let ohs = old(self).registry.handlers@;
                    assert forall|m: u64| #[trigger] self.captures@.contains_key(m) implies !(
                    old(self).registry.handler_field(self.captures@[m].holder()) == field && old(
                        self,
                    ).registry.handler_at(self.captures@[m].holder()) < i + 1) by {
                        let hh = self.captures@[m].holder();
                        if old(self).registry.handler_at(hh) == i {
                            assert(old(self).registry.has_handler(hh)) by {
                                assert(old(self).captures@.contains_key(m));
                            }
                            assert(old(self).registry.handler_field(hh) == ohs[i as int].field);
                        }
                    }
                }
            }
            i += 1;
        }
        proof {
            let ohs = old(self).registry.handlers@;
            let hs = self.registry.handlers@;
            assert forall|a: int, b: int| 0 <= a < b < hs.len() implies (#[trigger] hs[a]).id != (
            #[trigger] hs[b]).id by {
                assert(hs[a].id == ohs[a].id);
                assert(hs[b].id == ohs[b].id);
            }
            assert(self.registry.wf()) by {
                assert forall|a: int| 0 <= a < hs.len() implies {
                    &&& (#[trigger] hs[a]).id < self.registry.next_id
                    &&& hs[a].wf()
                    &&& hs[a].field < self.registry.next_id
                    &&& hs[a].active <==> self.registry.fields@.contains(hs[a].field)
                } by {
                    assert(ohs[a].active <==> old(self).registry.fields@.contains(ohs[a].field));
                    if ohs[a].field == field {
                        assert(hs[a].active == false);
                        assert(!self.registry.fields@.contains(hs[a].field));
                    } else {
                        assert(hs[a] == ohs[a]);
                        assert(self.registry.fields@.contains(hs[a].field) <==> old(
                            self,
                        ).registry.fields@.contains(hs[a].field));
                    }
                }
                assert forall|a: int, b: int|
                    0 <= a < b < self.registry.fields@.len() implies (
                #[trigger] self.registry.fields@[a]) != (#[trigger] self.registry.fields@[b]) by {
                    let ofs = old(self).registry.fields@;
                    assert(self.registry.fields@[a] == (if a < fidx {
                        ofs[a]
                    } else {
                        ofs[a + 1]
                    }));
                    assert(self.registry.fields@[b] == (if b < fidx {
                        ofs[b]
                    } else {
                        ofs[b + 1]
                    }));
                }
            }
            assert(self.captures@ =~= (Map::new(
                |m: u64|
                    old(self).captures@.contains_key(m) && old(self).registry.handler_field(
                        old(self).captures@[m].holder(),
                    ) != field,
                |m: u64| old(self).captures@[m],
            ))) by {
                assert forall|m: u64| #[trigger] self.captures@.contains_key(m) implies old(
                    self,
                ).captures@.contains_key(m) && old(self).registry.handler_field(
                    old(self).captures@[m].holder(),
                ) != field by {
                    let hh = self.captures@[m].holder();
                    assert(old(self).registry.has_handler(hh));
                    assert(0 <= old(self).registry.handler_at(hh) < n);
                }
            }
            assert forall|m: u64| #[trigger] self.captures@.contains_key(m) implies {
                &&& self.registry.has_method(m)
                &&& self.registry.has_handler(self.captures@[m].holder())
                &&& self.registry.handler_is_active(self.captures@[m].holder())
            } by {
                let hh = self.captures@[m].holder();
                let k = old(self).registry.method_at(m);
                assert(old(self).registry.methods@[k].id == m);
                lemma_method_at(self.registry, m, k);
                let j = old(self).registry.handler_at(hh);
                assert(ohs[j].id == hh);
                assert(ohs[j].active);
                assert(old(self).registry.handler_field(hh) == ohs[j].field);
                assert(ohs[j].field != field);
                assert(hs[j] == ohs[j]);
                lemma_handler_at(self.registry, hh, j);
            }
            assert(!self.registry.field_live(field));
        }
        Ok(())
    }
}

} // verus!