//! Frame Dispatcher: once per frame, decide which handlers receive which
//! methods' input, in what order, and who captures.
//!
//! For every live method: a method with a capture record is delivered to its
//! holder alone — a committed capture stays committed (captor exclusivity,
//! O(1) once captured), a pending request is promoted to a capture stamped
//! with the current frame (delayed capture).  An uncaptured method is ranked
//! and delivered in ascending-distance order until a handler's intent is
//! `Capture`; a stale entry is cleared when nobody captures.  A handler that
//! fails during delivery is treated as non-capturing and dispatch continues.
//! After all methods, the frame lifecycle event goes to every live handler
//! and method, strictly after all of that frame's input events.
//!
//! Handlers never see world-space data: every delivered snapshot is
//! relativized into the receiving handler's local frame.
//!
//! The whole frame is pinned by a spec mirror: `run_frame`'s event log and
//! capture-table update are stated exactly, so the exclusivity and ordering
//! laws are theorems about every frame.

use vstd::prelude::*;
use vstd::relations::sorted_by;
use vstd::seq_lib::lemma_sorted_unique;

use crate::capture::CaptureState;
use crate::datamap::{clone_datamap, Datamap, ValView};
use crate::engine::Engine;
use crate::rank::{
    lemma_rank_le_total, rank, rank_leq, spec_candidates, RankEntry,
};
use crate::registry::{lemma_handler_at, lemma_method_at, MethodVariant};
use crate::vecmath::Vec3;

verus! {

/// A handler's answer to one delivery: capture the method, decline it, or
/// the handler failed while handling it (isolated; treated as declining).
#[derive(Clone, Copy, Debug, PartialEq, Eq, Structural)]
pub enum CaptureIntent {
    Capture,
    Decline,
    Failed,
}

/// Per-frame data the geometric edge supplies: for every method index and
/// handler index, the signed field distance and the handler's intent.
pub struct FrameInput {
    pub distances: Vec<Vec<i64>>,
    pub intents: Vec<Vec<CaptureIntent>>,
}

impl FrameInput {
    /// Shape agreement with the engine's registry snapshot.
    pub open spec fn wf_for(self, eng: Engine) -> bool {
        &&& self.distances@.len() == eng.registry.methods@.len()
        &&& self.intents@.len() == eng.registry.methods@.len()
        &&& forall|i: int|
            0 <= i < eng.registry.methods@.len() ==> (#[trigger] self.distances@[i])@.len()
                == eng.registry.handlers@.len()
        &&& forall|i: int|
            0 <= i < eng.registry.methods@.len() ==> (#[trigger] self.intents@[i])@.len()
                == eng.registry.handlers@.len()
    }
}

/// The spatial snapshot delivered to one handler, relative to that handler.
pub struct InputData {
    pub method: u64,
    pub rel_position: Vec3,
    pub variant: MethodVariant,
    pub distance: i64,
    pub datamap: Datamap,
}

/// One emitted event: an input delivery, or the frame lifecycle tick.
pub enum Event {
    Input { handler: u64, data: InputData },
    Frame { target: u64 },
}

/// Mathematical value of a method payload.
pub enum VariantView {
    Pointer { origin: Vec3, direction: Vec3, deepest_point: Vec3 },
    Hand { joints: Seq<Vec3> },
    Tip { radius: u64 },
}

/// Mathematical value of an emitted event.
pub enum EventView {
    Input {
        handler: u64,
        method: u64,
        rel_position: Vec3,
        variant: VariantView,
        distance: i64,
        datamap: Seq<(Seq<u8>, ValView)>,
    },
    Frame { target: u64 },
}

pub open spec fn variant_view(v: MethodVariant) -> VariantView {
    match v {
        MethodVariant::Pointer { origin, direction, deepest_point } => VariantView::Pointer {
            origin,
            direction,
            deepest_point,
        },
        MethodVariant::Hand { joints } => VariantView::Hand { joints: joints@ },
        MethodVariant::Tip { tip } => VariantView::Tip { radius: tip.radius },
    }
}

pub open spec fn event_view(e: Event) -> EventView {
    match e {
        Event::Input { handler, data } => EventView::Input {
            handler,
            method: data.method,
            rel_position: data.rel_position,
            variant: variant_view(data.variant),
            distance: data.distance,
            datamap: data.datamap@,
        },
        Event::Frame { target } => EventView::Frame { target },
    }
}

pub open spec fn events_view(s: Seq<Event>) -> Seq<EventView> {
    s.map_values(|e: Event| event_view(e))
}

/// A point translated into the local frame anchored at `o`.
pub open spec fn spec_rel_point(p: Vec3, o: Vec3) -> Vec3 {
    Vec3 { x: (p.x - o.x) as i64, y: (p.y - o.y) as i64, z: (p.z - o.z) as i64 }
}

/// A method payload relativized against a handler at `o`: positions are
/// translated, directions are translation-invariant.
pub open spec fn spec_rel_variant(v: MethodVariant, o: Vec3) -> VariantView {
    match v {
        MethodVariant::Pointer { origin, direction, deepest_point } => VariantView::Pointer {
            origin: spec_rel_point(origin, o),
            direction,
            deepest_point: spec_rel_point(deepest_point, o),
        },
        MethodVariant::Hand { joints } => VariantView::Hand {
            joints: joints@.map_values(|p: Vec3| spec_rel_point(p, o)),
        },
        MethodVariant::Tip { tip } => VariantView::Tip { radius: tip.radius },
    }
}

/// The input event method `mi` sends to handler `hi`.
pub open spec fn spec_input_event(eng: Engine, inp: FrameInput, mi: int, hi: int) -> EventView {
    let m = eng.registry.methods@[mi];
    let h = eng.registry.handlers@[hi];
    EventView::Input {
        handler: h.id,
        method: m.id,
        rel_position: spec_rel_point(m.transform.position, h.transform.position),
        variant: spec_rel_variant(m.variant, h.transform.position),
        distance: inp.distances@[mi]@[hi],
        datamap: m.datamap@,
    }
}

/// The ranking the Distance Ranker owes for method `mi`: the unique sorted
/// arrangement of its active candidates.
pub open spec fn spec_ranked(eng: Engine, inp: FrameInput, mi: int) -> Seq<RankEntry> {
    spec_candidates(
        eng.registry.handlers@,
        inp.distances@[mi]@,
        eng.registry.handlers@.len() as int,
    ).sort_by(rank_leq())
}

/// Position of the first ranked candidate, from `k` on, whose intent is to
/// capture.
pub open spec fn spec_first_capture(
    intents: Seq<CaptureIntent>,
    ranked: Seq<RankEntry>,
    k: int,
) -> Option<int>
    decreases ranked.len() - k,
{
    if k < 0 || k >= ranked.len() {
        None
    } else if intents[ranked[k].index as int] is Capture {
        Some(k)
    } else {
        spec_first_capture(intents, ranked, k + 1)
    }
}

/// The input events method `mi` produces this frame, in delivery order.
pub open spec fn spec_method_events(eng: Engine, inp: FrameInput, mi: int) -> Seq<EventView> {
    let m = eng.registry.methods@[mi].id;
    if eng.captures@.contains_key(m) {
        let h = eng.captures@[m].holder();
        seq![spec_input_event(eng, inp, mi, eng.registry.handler_at(h))]
    } else {
        let ranked = spec_ranked(eng, inp, mi);
        let delivered = match spec_first_capture(inp.intents@[mi]@, ranked, 0) {
            Some(k) => ranked.take(k + 1),
            None => ranked,
        };
        Seq::new(delivered.len(), |d: int| spec_input_event(eng, inp, mi, delivered[d].index as int))
    }
}

/// Method `mi`'s capture record after this frame: a committed capture is
/// sticky, a pending request is promoted, a fresh capture is stamped with
/// the current frame, and a method nobody captured is uncaptured.
pub open spec fn spec_method_capture(eng: Engine, inp: FrameInput, mi: int) -> Option<
    CaptureState,
> {
    let m = eng.registry.methods@[mi].id;
    if eng.captures@.contains_key(m) {
        match eng.captures@[m] {
            CaptureState::CapturedBy { handler, since } => Some(
                CaptureState::CapturedBy { handler, since },
            ),
            CaptureState::Pending { handler, .. } => Some(
                CaptureState::CapturedBy { handler, since: eng.frame },
            ),
        }
    } else {
        let ranked = spec_ranked(eng, inp, mi);
        match spec_first_capture(inp.intents@[mi]@, ranked, 0) {
            Some(k) => Some(
                CaptureState::CapturedBy { handler: ranked[k].handler, since: eng.frame },
            ),
            None => None,
        }
    }
}

/// All input events of the frame, methods in registry order.
pub open spec fn spec_deliveries(eng: Engine, inp: FrameInput, n: int) -> Seq<EventView>
    decreases n,
{
    if n <= 0 {
        Seq::empty()
    } else {
        spec_deliveries(eng, inp, n - 1) + spec_method_events(eng, inp, n - 1)
    }
}

/// The frame lifecycle events: every live handler, then every live method.
pub open spec fn spec_frame_events(eng: Engine) -> Seq<EventView> {
    Seq::new(
        eng.registry.handlers@.len(),
        |i: int| EventView::Frame { target: eng.registry.handlers@[i].id },
    ) + Seq::new(
        eng.registry.methods@.len(),
        |i: int| EventView::Frame { target: eng.registry.methods@[i].id },
    )
}

/// Every per-method event is an input delivery, never a frame tick.
pub proof fn lemma_deliveries_are_inputs(eng: Engine, inp: FrameInput, n: int)
    ensures
        forall|i: int|
            0 <= i < spec_deliveries(eng, inp, n).len() ==> (#[trigger] spec_deliveries(
                eng,
                inp,
                n,
            )[i]) is Input,
    decreases n,
{
    if n > 0 {
        lemma_deliveries_are_inputs(eng, inp, n - 1);
        assert forall|i: int| 0 <= i < spec_deliveries(eng, inp, n).len() implies (
        #[trigger] spec_deliveries(eng, inp, n)[i]) is Input by {
            let prev = spec_deliveries(eng, inp, n - 1);
            if i >= prev.len() {
                assert(spec_deliveries(eng, inp, n)[i] == spec_method_events(eng, inp, n - 1)[i
                    - prev.len()]);
            }
        }
    }
}

/// Captor exclusivity: while a method is captured by a live handler, that
/// handler is the sole recipient of the method's input events this frame,
/// and it still holds the capture afterwards.
pub proof fn lemma_captor_exclusivity(eng: Engine, inp: FrameInput, mi: int, h: u64, since: u64)
    requires
        eng.wf(),
        inp.wf_for(eng),
        0 <= mi < eng.registry.methods@.len(),
        eng.captures@.contains_key(eng.registry.methods@[mi].id),
        eng.captures@[eng.registry.methods@[mi].id] == (CaptureState::CapturedBy { handler: h, since }),
    ensures
        spec_method_events(eng, inp, mi).len() == 1,
        forall|k: int|
            0 <= k < spec_method_events(eng, inp, mi).len() ==> ((#[trigger] spec_method_events(
                eng,
                inp,
                mi,
            )[k]) matches EventView::Input { handler: hh, .. } && hh == h),
        spec_method_capture(eng, inp, mi) == Some(CaptureState::CapturedBy { handler: h, since }),
{
    let m = eng.registry.methods@[mi].id;
    assert(eng.captures@[m].holder() == h);
    let j = eng.registry.handler_at(h);
    assert(eng.registry.has_handler(h));
    assert(eng.registry.handlers@[j].id == h);
    assert(spec_method_events(eng, inp, mi) == seq![spec_input_event(eng, inp, mi, j)]);
}



proof fn lemma_events_view_push(s: Seq<Event>, e: Event)
    ensures
        events_view(s.push(e)) == events_view(s).push(event_view(e)),
{
    assert(events_view(s.push(e)) =~= events_view(s).push(event_view(e)));
}

proof fn lemma_first_cap_skip(intents: Seq<CaptureIntent>, ranked: Seq<RankEntry>, k: int)
    requires
        0 <= k <= ranked.len(),
        forall|d: int|
            0 <= d < k ==> !((#[trigger] intents[ranked[d].index as int]) is Capture),
    ensures
        spec_first_capture(intents, ranked, 0) == spec_first_capture(intents, ranked, k),
    decreases k,
{
    if k > 0 {
        lemma_first_cap_skip(intents, ranked, k - 1);
    }
}

/// The unique ranking that the Ranker's contract admits is `spec_ranked`,
/// and each of its entries names an active handler in range.
proof fn lemma_ranked_is(eng: Engine, inp: FrameInput, mi: int, r: Seq<RankEntry>)
    requires
        eng.wf(),
        inp.wf_for(eng),
        eng.registry.handlers@.len() <= usize::MAX,
        0 <= mi < eng.registry.methods@.len(),
        sorted_by(r, rank_leq()),
        r.to_multiset() == spec_candidates(
            eng.registry.handlers@,
            inp.distances@[mi]@,
            eng.registry.handlers@.len() as int,
        ).to_multiset(),
    ensures
        r == spec_ranked(eng, inp, mi),
        forall|d: int|
            0 <= d < r.len() ==> 0 <= (#[trigger] r[d]).index < eng.registry.handlers@.len()
                && eng.registry.handlers@[r[d].index as int].active && r[d].handler
                == eng.registry.handlers@[r[d].index as int].id,
{
    broadcast use vstd::seq_lib::group_to_multiset_ensures;

    let hs = eng.registry.handlers@;
    let ds = inp.distances@[mi]@;
    let cands = spec_candidates(hs, ds, hs.len() as int);
    cands.lemma_sort_by_ensures(rank_leq());
    lemma_rank_le_total();
    lemma_sorted_unique(r, cands.sort_by(rank_leq()), rank_leq());
    crate::rank::lemma_candidates_elems(hs, ds, hs.len() as int);
    assert forall|d: int| 0 <= d < r.len() implies 0 <= (#[trigger] r[d]).index < hs.len()
        && hs[r[d].index as int].active && r[d].handler == hs[r[d].index as int].id by {
        assert(r.contains(r[d]));
        assert(r.to_multiset().count(r[d]) > 0);
        assert(cands.to_multiset().count(r[d]) > 0);
        assert(cands.contains(r[d]));
    }
}

fn rel_point_exec(p: Vec3, o: Vec3) -> (r: Vec3)
    requires
        p.wf(),
        o.wf(),
    ensures
        r == spec_rel_point(p, o),
{
    p.sub(o)
}

fn rel_variant_exec(v: &MethodVariant, o: Vec3) -> (r: MethodVariant)
    requires
        v.wf(),
        o.wf(),
    ensures
        variant_view(r) == spec_rel_variant(*v, o),
{
    match v {
        MethodVariant::Pointer { origin, direction, deepest_point } => MethodVariant::Pointer {
            origin: rel_point_exec(*origin, o),
            direction: *direction,
            deepest_point: rel_point_exec(*deepest_point, o),
        },
        MethodVariant::Hand { joints } => {
            let n = joints.len();
            let mut js: Vec<Vec3> = Vec::new();
            let mut i: usize = 0;
            while i < n
                invariant
                    n == joints@.len(),
                    0 <= i <= n,
                    forall|j: int| 0 <= j < n ==> (#[trigger] joints@[j]).wf(),
                    o.wf(),
                    js@.len() == i,
                    forall|j: int| 0 <= j < i ==> (#[trigger] js@[j]) == spec_rel_point(
                        joints@[j],
                        o,
                    ),
                decreases n - i,
            {
                js.push(rel_point_exec(joints[i], o));
                i += 1;
            }
            let r = MethodVariant::Hand { joints: js };
            proof {
                assert(js@ =~= joints@.map_values(|p: Vec3| spec_rel_point(p, o)));
            }
            r
        },
        MethodVariant::Tip { tip } => MethodVariant::Tip { tip: *tip },
    }
}

fn build_event(
    methods: &Vec<crate::registry::MethodRecord>,
    handlers: &Vec<crate::registry::HandlerRecord>,
    dists: &Vec<i64>,
    mi: usize,
    hi: usize,
) -> (ev: Event)
    requires
        mi < methods@.len(),
        hi < handlers@.len(),
        hi < dists@.len(),
        methods@[mi as int].wf(),
        handlers@[hi as int].wf(),
    ensures
        event_view(ev) == (EventView::Input {
            handler: handlers@[hi as int].id,
            method: methods@[mi as int].id,
            rel_position: spec_rel_point(
                methods@[mi as int].transform.position,
                handlers@[hi as int].transform.position,
            ),
            variant: spec_rel_variant(
                methods@[mi as int].variant,
                handlers@[hi as int].transform.position,
            ),
            distance: dists@[hi as int],
            datamap: methods@[mi as int].datamap@,
        }),
{
    let m = &methods[mi];
    let h = &handlers[hi];
    let data = InputData {
        method: m.id,
        rel_position: rel_point_exec(m.transform.position, h.transform.position),
        variant: rel_variant_exec(&m.variant, h.transform.position),
        distance: dists[hi],
        datamap: clone_datamap(&m.datamap),
    };
    Event::Input { handler: h.id, data }
}

impl Engine {
    /// Dispatch one frame.
    ///
    /// Returns the frame's event log; the log and the new Capture Table are
    /// pinned exactly by the spec mirror, and every frame lifecycle event
    /// comes strictly after every input event of the frame.
    pub fn run_frame(&mut self, inp: &FrameInput) -> (log: Vec<Event>)
        requires
            old(self).wf(),
            inp.wf_for(*old(self)),
            old(self).frame < u64::MAX,
        ensures
            final(self).wf(),
            final(self).registry == old(self).registry,
            final(self).frame == old(self).frame + 1,
            events_view(log@) == spec_deliveries(
                *old(self),
                *inp,
                old(self).registry.methods@.len() as int,
            ) + spec_frame_events(*old(self)),
            forall|i: int, j: int|
                0 <= i < j < log@.len() && (#[trigger] log@[i]) is Frame ==> (
                #[trigger] log@[j]) is Frame,
            forall|k: int|
                0 <= k < old(self).registry.methods@.len() ==> (match spec_method_capture(
                    *old(self),
                    *inp,
                    k,
                ) {
                    Some(st) => final(self).captures@.contains_key(
                        (#[trigger] old(self).registry.methods@[k]).id,
                    ) && final(self).captures@[old(self).registry.methods@[k].id] == st,
                    None => !final(self).captures@.contains_key(
                        old(self).registry.methods@[k].id,
                    ),
                }),
            forall|m: u64|
                #[trigger] final(self).captures@.contains_key(m) ==> old(
                    self,
                ).registry.has_method(m),
    {
        let mut log: Vec<Event> = Vec::new();
        let nm = self.registry.methods.len();
        let nh = self.registry.handlers.len();
        let mut mi: usize = 0;
        while mi < nm
            invariant
                old(self).wf(),
                inp.wf_for(*old(self)),
                old(self).frame < u64::MAX,
                self.registry == old(self).registry,
                self.frame == old(self).frame,
                nm == old(self).registry.methods@.len(),
                nh == old(self).registry.handlers@.len(),
                0 <= mi <= nm,
                self.captures.wf(),
                events_view(log@) == spec_deliveries(*old(self), *inp, mi as int),
                forall|k: int|
                    0 <= k < mi ==> (match spec_method_capture(*old(self), *inp, k) {
                        Some(st) => self.captures@.contains_key(
                            (#[trigger] old(self).registry.methods@[k]).id,
                        ) && self.captures@[old(self).registry.methods@[k].id] == st,
                        None => !self.captures@.contains_key(
                            old(self).registry.methods@[k].id,
                        ),
                    }),
                forall|k: int|
                    mi <= k < nm ==> {
                        &&& (self.captures@.contains_key(
                            (#[trigger] old(self).registry.methods@[k]).id,
                        ) <==> old(self).captures@.contains_key(
                            old(self).registry.methods@[k].id,
                        ))
                        &&& (self.captures@.contains_key(old(self).registry.methods@[k].id)
                            ==> self.captures@[old(self).registry.methods@[k].id] == old(
                            self,
                        ).captures@[old(self).registry.methods@[k].id])
                    },
                forall|m: u64|
                    #[trigger] self.captures@.contains_key(m) ==> old(
                        self,
                    ).registry.has_method(m),
            decreases nm - mi,
        {
            let ghost eng0 = *old(self);
            let mid = self.registry.methods[mi].id;
            proof {
                lemma_method_at(eng0.registry, mid, mi as int);
                assert(eng0.registry.methods@[mi as int].wf());
            }
            let cur = self.captures.get(mid);
            match cur {
                Some(st) => {
                    proof {
                        assert(eng0.captures@.contains_key(mid) && eng0.captures@[mid] == st);
                        assert(eng0.registry.handler_is_active(st.holder()));
                    }
                    let h = st.held_by();
                    let hidx = match self.registry.find_handler(h) {
                        Some(i) => i,
                        None => {
                            proof {
                                assert(false);
                            }
                            0
                        },
                    };
                    let ev = build_event(
                        &self.registry.methods,
                        &self.registry.handlers,
                        &inp.distances[mi],
                        mi,
                        hidx,
                    );
                    let ghost pre_log = log@;
                    log.push(ev);
                    proof {
                        lemma_events_view_push(pre_log, ev);
                    }
                    let newst = match st {
                        CaptureState::Pending { handler, .. } => CaptureState::CapturedBy {
                            handler,
                            since: self.frame,
                        },
                        CaptureState::CapturedBy { handler, since } => CaptureState::CapturedBy {
                            handler,
                            since,
                        },
                    };
                    let ghost pre_caps = self.captures@;
                    self.captures.set(mid, newst);
                    proof {
                        assert(hidx as int == eng0.registry.handler_at(h));
                        assert(event_view(ev) == spec_input_event(eng0, *inp, mi as int, hidx as int));
                        assert(spec_method_events(eng0, *inp, mi as int) == seq![
                            spec_input_event(eng0, *inp, mi as int, hidx as int),
                        ]);
                        assert(events_view(log@) =~= spec_deliveries(eng0, *inp, mi as int)
                            + spec_method_events(eng0, *inp, mi as int));
                        assert(spec_deliveries(eng0, *inp, mi + 1) == spec_deliveries(
                            eng0,
                            *inp,
                            mi as int,
                        ) + spec_method_events(eng0, *inp, mi as int));
                        assert(spec_method_capture(eng0, *inp, mi as int) == Some(newst));
                        assert forall|k: int| 0 <= k < nm && k != mi implies (
                        #[trigger] eng0.registry.methods@[k]).id != mid by {
                            lemma_method_at(eng0.registry, mid, mi as int);
                        }
                    }
                },
                None => {
                    proof {
                        assert(!eng0.captures@.contains_key(mid));
                    }
                    let ranked = rank(&self.registry.handlers, &inp.distances[mi]);
                    proof {
                        lemma_ranked_is(eng0, *inp, mi as int, ranked@);
                    }
                    let nk = ranked.len();
                    let mut captured = false;
                    let mut k: usize = 0;
                    let ghost pre_caps = self.captures@;
                    while k < nk && !captured
                        invariant
                            old(self).wf(),
                            inp.wf_for(*old(self)),
                            eng0 == *old(self),
                            self.registry == eng0.registry,
                            self.frame == eng0.frame,
                            nm == eng0.registry.methods@.len(),
                            nh == eng0.registry.handlers@.len(),
                            0 <= mi < nm,
                            mid == eng0.registry.methods@[mi as int].id,
                            eng0.registry.method_at(mid) == mi as int,
                            !eng0.captures@.contains_key(mid),
                            self.captures.wf(),
                            ranked@ == spec_ranked(eng0, *inp, mi as int),
                            nk == ranked@.len(),
                            forall|d: int|
                                0 <= d < nk ==> 0 <= (#[trigger] ranked@[d]).index < nh
                                    && eng0.registry.handlers@[ranked@[d].index as int].active
                                    && ranked@[d].handler == eng0.registry.handlers@[ranked@[
                                    d].index as int].id,
                            0 <= k <= nk,
                            !captured ==> forall|d: int|
                                0 <= d < k ==> !((#[trigger] inp.intents@[mi as int]@[ranked@[
                                    d].index as int]) is Capture),
                            !captured ==> self.captures@ == pre_caps,
                            captured ==> k >= 1 && spec_first_capture(
                                inp.intents@[mi as int]@,
                                ranked@,
                                0,
                            ) == Some(k - 1) && self.captures@ == pre_caps.insert(
                                mid,
                                (CaptureState::CapturedBy {
                                    handler: ranked@[k - 1].handler,
                                    since: eng0.frame,
                                }),
                            ),
                            events_view(log@) == spec_deliveries(eng0, *inp, mi as int)
                                + Seq::new(
                                k as nat,
                                |d: int|
                                    spec_input_event(
                                        eng0,
                                        *inp,
                                        mi as int,
                                        ranked@[d].index as int,
                                    ),
                            ),
                        decreases nk - k,
                    {
                        let ent = ranked[k];
                        let hidx = ent.index;
                        let ev = build_event(
                            &self.registry.methods,
                            &self.registry.handlers,
                            &inp.distances[mi],
                            mi,
                            hidx,
                        );
                        let ghost pre_log = log@;
                        log.push(ev);
                        proof {
                            lemma_events_view_push(pre_log, ev);
                        }
                        let intent = inp.intents[mi][hidx];
                        let is_cap = match intent {
                            CaptureIntent::Capture => true,
                            _ => false,
                        };
                        proof {
                            assert(event_view(ev) == spec_input_event(
                                eng0,
                                *inp,
                                mi as int,
                                hidx as int,
                            ));
                            assert(events_view(log@) =~= spec_deliveries(eng0, *inp, mi as int)
                                + Seq::new(
                                (k + 1) as nat,
                                |d: int|
                                    spec_input_event(
                                        eng0,
                                        *inp,
                                        mi as int,
                                        ranked@[d].index as int,
                                    ),
                            ));
                        }
                        if is_cap {
                            self.captures.set(
                                mid,
                                CaptureState::CapturedBy { handler: ent.handler, since: self.frame },
                            );
                            captured = true;
                            proof {
                                lemma_first_cap_skip(
                                    inp.intents@[mi as int]@,
                                    ranked@,
                                    k as int,
                                );
                                assert(spec_first_capture(
                                    inp.intents@[mi as int]@,
                                    ranked@,
                                    k as int,
                                ) == Some(k as int));
                            }
                        }
                        k += 1;
                    }
                    if !captured {
                        self.captures.clear(mid);
                        proof {
                            assert(self.captures@ =~= pre_caps.remove(mid));
                        }
                    }
                    proof {
                        let intents = inp.intents@[mi as int]@;
                        let ranked_s = ranked@;
                        if captured {
                            let k0 = k - 1;
                            let delivered = ranked_s.take(k0 + 1);
                            assert(spec_method_events(eng0, *inp, mi as int) =~= Seq::new(
                                k as nat,
                                |d: int|
                                    spec_input_event(
                                        eng0,
                                        *inp,
                                        mi as int,
                                        ranked_s[d].index as int,
                                    ),
                            )) by {
                                assert(delivered.len() == k);
                                assert(forall|d: int|
                                    0 <= d < k ==> (#[trigger] delivered[d]) == ranked_s[d]);
                            }
                            assert(spec_method_capture(eng0, *inp, mi as int) == Some(
                                (CaptureState::CapturedBy {
                                    handler: ranked_s[k0].handler,
                                    since: eng0.frame,
                                }),
                            ));
                        } else {
                            lemma_first_cap_skip(intents, ranked_s, nk as int);
                            assert(spec_first_capture(intents, ranked_s, nk as int) is None);
                            assert(spec_method_events(eng0, *inp, mi as int) =~= Seq::new(
                                nk as nat,
                                |d: int|
                                    spec_input_event(
                                        eng0,
                                        *inp,
                                        mi as int,
                                        ranked_s[d].index as int,
                                    ),
                            ));
                            assert(spec_method_capture(eng0, *inp, mi as int) is None);
                        }
                        assert(events_view(log@) =~= spec_deliveries(eng0, *inp, mi as int)
                            + spec_method_events(eng0, *inp, mi as int));
                        assert(spec_deliveries(eng0, *inp, mi + 1) == spec_deliveries(
                            eng0,
                            *inp,
                            mi as int,
                        ) + spec_method_events(eng0, *inp, mi as int));
                        assert forall|k2: int| 0 <= k2 < nm && k2 != mi implies (
                        #[trigger] eng0.registry.methods@[k2]).id != mid by {}
                    }
                },
            }
            mi += 1;
        }
        let ghost eng0 = *old(self);
        let ghost dall = spec_deliveries(eng0, *inp, nm as int);
        let ghost hframes = Seq::new(
            eng0.registry.handlers@.len(),
            |i: int| EventView::Frame { target: eng0.registry.handlers@[i].id },
        );
        let ghost mframes = Seq::new(
            eng0.registry.methods@.len(),
            |i: int| EventView::Frame { target: eng0.registry.methods@[i].id },
        );
        let mut h2: usize = 0;
        while h2 < nh
            invariant
                self.registry == eng0.registry,
                self.frame == eng0.frame,
                eng0 == *old(self),
                nm == eng0.registry.methods@.len(),
                nh == eng0.registry.handlers@.len(),
                0 <= h2 <= nh,
                self.captures.wf(),
                hframes == Seq::new(
                    eng0.registry.handlers@.len(),
                    |i: int| EventView::Frame { target: eng0.registry.handlers@[i].id },
                ),
                dall == spec_deliveries(eng0, *inp, nm as int),
                forall|k: int|
                    0 <= k < nm ==> (match spec_method_capture(eng0, *inp, k) {
                        Some(st) => self.captures@.contains_key(
                            (#[trigger] eng0.registry.methods@[k]).id,
                        ) && self.captures@[eng0.registry.methods@[k].id] == st,
                        None => !self.captures@.contains_key(eng0.registry.methods@[k].id),
                    }),
                forall|m: u64|
                    #[trigger] self.captures@.contains_key(m) ==> eng0.registry.has_method(m),
                events_view(log@) == dall + hframes.take(h2 as int),
            decreases nh - h2,
        {
            let fev = Event::Frame { target: self.registry.handlers[h2].id };
            let ghost pre_log = log@;
            log.push(fev);
            proof {
                lemma_events_view_push(pre_log, fev);
                assert(events_view(log@) =~= dall + hframes.take(h2 + 1));
            }
            h2 += 1;
        }
        let mut m2: usize = 0;
        while m2 < nm
            invariant
                self.registry == eng0.registry,
                self.frame == eng0.frame,
                eng0 == *old(self),
                nm == eng0.registry.methods@.len(),
                nh == eng0.registry.handlers@.len(),
                0 <= m2 <= nm,
                self.captures.wf(),
                hframes == Seq::new(
                    eng0.registry.handlers@.len(),
                    |i: int| EventView::Frame { target: eng0.registry.handlers@[i].id },
                ),
                mframes == Seq::new(
                    eng0.registry.methods@.len(),
                    |i: int| EventView::Frame { target: eng0.registry.methods@[i].id },
                ),
                dall == spec_deliveries(eng0, *inp, nm as int),
                forall|k: int|
                    0 <= k < nm ==> (match spec_method_capture(eng0, *inp, k) {
                        Some(st) => self.captures@.contains_key(
                            (#[trigger] eng0.registry.methods@[k]).id,
                        ) && self.captures@[eng0.registry.methods@[k].id] == st,
                        None => !self.captures@.contains_key(eng0.registry.methods@[k].id),
                    }),
                forall|m: u64|
                    #[trigger] self.captures@.contains_key(m) ==> eng0.registry.has_method(m),
                events_view(log@) == dall + hframes + mframes.take(m2 as int),
            decreases nm - m2,
        {
            let fev = Event::Frame { target: self.registry.methods[m2].id };
            let ghost pre_log = log@;
            log.push(fev);
            proof {
                lemma_events_view_push(pre_log, fev);
                assert(events_view(log@) =~= dall + hframes + mframes.take(m2 + 1));
            }
            m2 += 1;
        }
        self.frame = self.frame + 1;
        proof {
            assert(hframes.take(nh as int) =~= hframes);
            assert(mframes.take(nm as int) =~= mframes);
            assert(events_view(log@) =~= dall + spec_frame_events(eng0)) by {
                assert(spec_frame_events(eng0) =~= hframes + mframes);
                assert(dall + hframes + mframes =~= dall + (hframes + mframes));
            }
            lemma_deliveries_are_inputs(eng0, *inp, nm as int);
            assert forall|i: int, j: int|
                0 <= i < j < log@.len() && (#[trigger] log@[i]) is Frame implies (
            #[trigger] log@[j]) is Frame by {
                assert(events_view(log@)[i] == event_view(log@[i]));
                assert(events_view(log@)[j] == event_view(log@[j]));
                assert(events_view(log@)[i] is Frame);
                assert(i >= dall.len());
                assert(events_view(log@)[j] is Frame) by {
                    if j - dall.len() < hframes.len() {
                        assert(events_view(log@)[j] == hframes[j - dall.len()]);
                    } else {
                        assert(events_view(log@)[j] == mframes[j - dall.len() - hframes.len()]);
                    }
                }
            }
            assert forall|m: u64| #[trigger] self.captures@.contains_key(m) implies {
                &&& self.registry.has_method(m)
                &&& self.registry.has_handler(self.captures@[m].holder())
                &&& self.registry.handler_is_active(self.captures@[m].holder())
            } by {
                broadcast use vstd::seq_lib::group_to_multiset_ensures;

                assert(eng0.registry.has_method(m));
                let k = eng0.registry.method_at(m);
                assert(eng0.registry.methods@[k].id == m);
                let st = self.captures@[m];
                assert(spec_method_capture(eng0, *inp, k) == Some(st));
                let hh = st.holder();
                if eng0.captures@.contains_key(m) {
                    assert(hh == eng0.captures@[m].holder());
                    assert(eng0.registry.handler_is_active(hh));
                    assert(eng0.registry.has_handler(hh));
                } else {
                    let ranked_s = spec_ranked(eng0, *inp, k);
                    let intents = inp.intents@[k]@;
                    let k0 = spec_first_capture(intents, ranked_s, 0)->Some_0;
                    assert(0 <= k0 < ranked_s.len()) by {
                        lemma_first_cap_some_in_range(intents, ranked_s, 0);
                    }
                    assert(hh == ranked_s[k0].handler);
                    let hs = eng0.registry.handlers@;
                    let ds = inp.distances@[k]@;
                    let cands = spec_candidates(hs, ds, hs.len() as int);
                    cands.lemma_sort_by_ensures(rank_leq());
                    assert(hs.len() == nh);
                    crate::rank::lemma_candidates_elems(hs, ds, hs.len() as int);
                    assert(ranked_s.contains(ranked_s[k0]));
                    assert(ranked_s.to_multiset().count(ranked_s[k0]) > 0);
                    assert(cands.to_multiset().count(ranked_s[k0]) > 0);
                    assert(cands.contains(ranked_s[k0]));
                    let hi = ranked_s[k0].index as int;
                    assert(hs[hi].active && hs[hi].id == hh);
                    lemma_handler_at(eng0.registry, hh, hi);
                    assert(eng0.registry.handler_is_active(hh));
                }
            }
        }
        log
    }
}

proof fn lemma_first_cap_some_in_range(
    intents: Seq<CaptureIntent>,
    ranked: Seq<RankEntry>,
    k: int,
)
    requires
        spec_first_capture(intents, ranked, k) is Some,
    ensures
        k <= spec_first_capture(intents, ranked, k)->Some_0 < ranked.len(),
    decreases ranked.len() - k,
{
    if !(k < 0 || k >= ranked.len()) {
        if !(intents[ranked[k].index as int] is Capture) {
            lemma_first_cap_some_in_range(intents, ranked, k + 1);
        }
    }
}

} // verus!
