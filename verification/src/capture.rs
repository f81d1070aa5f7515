//! Capture Table: the per-method record of who holds, or has requested, a
//! method's exclusive capture.
//!
//! A method without a row is uncaptured.  A `Pending` row is an out-of-band
//! capture request that takes effect at the next frame's dispatch; a
//! `CapturedBy` row binds the method to one handler since the stamped frame.
//! The table's invariant keeps at most one row per method, and the engine
//! keeps every row pointing at a live method and a live, active handler.

use vstd::prelude::*;

verus! {

/// State of one method's capture record.
#[derive(Clone, Copy, Debug, PartialEq, Eq, Structural)]
pub enum CaptureState {
    /// A handler asked to capture the method; the request is committed at the
    /// next dispatch of the method.
    Pending { handler: u64, since: u64 },
    /// The method is exclusively bound to the handler since the given frame.
    CapturedBy { handler: u64, since: u64 },
}

impl CaptureState {
    /// The handler this record names, whether pending or committed.
    pub open spec fn holder(self) -> u64 {
        match self {
            CaptureState::Pending { handler, .. } => handler,
            CaptureState::CapturedBy { handler, .. } => handler,
        }
    }

    /// Executable form of [`Self::holder`].
    pub fn held_by(&self) -> (r: u64)
        ensures
            r == self.holder(),
    {
        match self {
            CaptureState::Pending { handler, .. } => *handler,
            CaptureState::CapturedBy { handler, .. } => *handler,
        }
    }
}

/// One row of the table.
#[derive(Clone, Copy, Debug, PartialEq, Eq, Structural)]
pub struct CaptureEntry {
    pub method: u64,
    pub state: CaptureState,
}

/// The Capture Table itself.
pub struct CaptureTable {
    pub rows: Vec<CaptureEntry>,
}

/// No two rows name the same method.
pub open spec fn unique_methods(s: Seq<CaptureEntry>) -> bool {
    forall|i: int, j: int|
        0 <= i < j < s.len() ==> (#[trigger] s[i]).method != (#[trigger] s[j]).method
}

/// The table as a finite map from method id to capture state.
pub open spec fn rows_map(s: Seq<CaptureEntry>) -> Map<u64, CaptureState>
    decreases s.len(),
{
    if s.len() == 0 {
        Map::empty()
    } else {
        rows_map(s.drop_last()).insert(s.last().method, s.last().state)
    }
}

/// What `rows_map` holds: exactly the rows, one per method.
pub proof fn lemma_rows_map(s: Seq<CaptureEntry>)
    requires
        unique_methods(s),
    ensures
        forall|i: int|
            0 <= i < s.len() ==> rows_map(s).contains_key((#[trigger] s[i]).method) && rows_map(
                s,
            )[s[i].method] == s[i].state,
        forall|m: u64|
            rows_map(s).contains_key(m) ==> exists|i: int|
                0 <= i < s.len() && (#[trigger] s[i]).method == m,
    decreases s.len(),
{
    if s.len() > 0 {
        let d = s.drop_last();
        lemma_rows_map(d);
        assert forall|i: int| 0 <= i < s.len() implies rows_map(s).contains_key(
            (#[trigger] s[i]).method,
        ) && rows_map(s)[s[i].method] == s[i].state by {
            if i < s.len() - 1 {
                assert(s[i] == d[i]);
                assert(s[i].method != s.last().method);
            }
        }
        assert forall|m: u64| rows_map(s).contains_key(m) implies exists|i: int|
            0 <= i < s.len() && (#[trigger] s[i]).method == m by {
            if m == s.last().method {
                assert(s[s.len() - 1].method == m);
            } else {
                let i = choose|i: int| 0 <= i < d.len() && (#[trigger] d[i]).method == m;
                assert(s[i].method == m);
            }
        }
    }
}

/// The map with every record held by `h` dropped.
pub open spec fn purge_view(m: Map<u64, CaptureState>, h: u64) -> Map<u64, CaptureState> {
    Map::new(|k: u64| m.contains_key(k) && m[k].holder() != h, |k: u64| m[k])
}

proof fn lemma_rows_map_update(s: Seq<CaptureEntry>, i: int, e: CaptureEntry)
    requires
        unique_methods(s),
        0 <= i < s.len(),
        s[i].method == e.method,
    ensures
        rows_map(s.update(i, e)) =~= rows_map(s).insert(e.method, e.state),
    decreases s.len(),
{
    let d = s.drop_last();
    if i == s.len() - 1 {
        assert(s.update(i, e).drop_last() =~= d);
        assert(s.update(i, e).last() == e);
    } else {
        lemma_rows_map_update(d, i, e);
        assert(s.update(i, e).drop_last() =~= d.update(i, e));
        assert(s.update(i, e).last() == s.last());
        assert(s.last().method != e.method);
    }
}

proof fn lemma_rows_map_remove(s: Seq<CaptureEntry>, i: int)
    requires
        unique_methods(s),
        0 <= i < s.len(),
    ensures
        rows_map(s.remove(i)) =~= rows_map(s).remove(s[i].method),
        unique_methods(s.remove(i)),
    decreases s.len(),
{
    let d = s.drop_last();
    lemma_rows_map(s);
    if i == s.len() - 1 {
        assert(s.remove(i) =~= d);
        lemma_rows_map(d);
        assert forall|m: u64| #![auto] rows_map(d).contains_key(m) implies m
            != s.last().method by {}
        assert(rows_map(d) =~= rows_map(d).insert(s.last().method, s.last().state).remove(
            s.last().method,
        ));
    } else {
        lemma_rows_map_remove(d, i);
        assert(s.remove(i).drop_last() =~= d.remove(i));
        assert(s.remove(i).last() == s.last());
        assert(s.last().method != s[i].method);
    }
}

impl View for CaptureTable {
    type V = Map<u64, CaptureState>;

    open spec fn view(&self) -> Map<u64, CaptureState> {
        rows_map(self.rows@)
    }
}

impl CaptureTable {
    /// The table invariant: at most one row per method.
    pub open spec fn wf(self) -> bool {
        unique_methods(self.rows@)
    }

    /// An empty table.
    pub fn new() -> (r: CaptureTable)
        ensures
            r.wf(),
            r@ =~= Map::<u64, CaptureState>::empty(),
    {
        CaptureTable { rows: Vec::new() }
    }

    fn find_row(&self, m: u64) -> (r: Option<usize>)
        ensures
            match r {
                Some(i) => i < self.rows@.len() && self.rows@[i as int].method == m,
                None => forall|i: int|
                    0 <= i < self.rows@.len() ==> (#[trigger] self.rows@[i]).method != m,
            },
    {
        let n = self.rows.len();
        let mut i: usize = 0;
        while i < n
            invariant
                n == self.rows@.len(),
                0 <= i <= n,
                forall|j: int| 0 <= j < i ==> (#[trigger] self.rows@[j]).method != m,
            decreases n - i,
        {
            if self.rows[i].method == m {
                return Some(i);
            }
            i += 1;
        }
        None
    }

    /// The method's record, if it has one; `None` means uncaptured.
    pub fn get(&self, m: u64) -> (r: Option<CaptureState>)
        requires
            self.wf(),
        ensures
            match r {
                Some(st) => self@.contains_key(m) && self@[m] == st,
                None => !self@.contains_key(m),
            },
    {
        proof {
            lemma_rows_map(self.rows@);
        }
        match self.find_row(m) {
            Some(i) => Some(self.rows[i].state),
            None => {
                proof {
                    if self@.contains_key(m) {
                        let i = choose|i: int|
                            0 <= i < self.rows@.len() && (#[trigger] self.rows@[i]).method == m;
                    }
                }
                None
            },
        }
    }

    /// Write the method's record, replacing any earlier one.
    pub fn set(&mut self, m: u64, st: CaptureState)
        requires
            old(self).wf(),
        ensures
            final(self).wf(),
            final(self)@ == old(self)@.insert(m, st),
    {
        let e = CaptureEntry { method: m, state: st };
        match self.find_row(m) {
            Some(i) => {
                proof {
                    lemma_rows_map_update(self.rows@, i as int, e);
                }
                self.rows.set(i, e);
            },
            None => {
                self.rows.push(e);
                proof {
                    assert(self.rows@.drop_last() =~= old(self).rows@);
                }
            },
        }
    }

    /// Clear the method's record: it becomes uncaptured.
    pub fn clear(&mut self, m: u64)
        requires
            old(self).wf(),
        ensures
            final(self).wf(),
            final(self)@ == old(self)@.remove(m),
    {
        match self.find_row(m) {
            Some(i) => {
                proof {
                    lemma_rows_map_remove(self.rows@, i as int);
                }
                self.rows.remove(i);
            },
            None => {
                proof {
                    lemma_rows_map(self.rows@);
                    if self@.contains_key(m) {
                        let i = choose|i: int|
                            0 <= i < self.rows@.len() && (#[trigger] self.rows@[i]).method == m;
                    }
                    assert(self@ =~= self@.remove(m));
                }
            },
        }
    }

    fn find_holder_row(&self, h: u64) -> (r: Option<usize>)
        ensures
            match r {
                Some(i) => i < self.rows@.len() && self.rows@[i as int].state.holder() == h,
                None => forall|i: int|
                    0 <= i < self.rows@.len() ==> (#[trigger] self.rows@[i]).state.holder() != h,
            },
    {
        let n = self.rows.len();
        let mut i: usize = 0;
        while i < n
            invariant
                n == self.rows@.len(),
                0 <= i <= n,
                forall|j: int| 0 <= j < i ==> (#[trigger] self.rows@[j]).state.holder() != h,
            decreases n - i,
        {
            if self.rows[i].state.held_by() == h {
                return Some(i);
            }
            i += 1;
        }
        None
    }

    /// Drop every record held by handler `h`, pending or committed.
    pub fn purge_handler(&mut self, h: u64)
        requires
            old(self).wf(),
        ensures
            final(self).wf(),
            final(self)@ == purge_view(old(self)@, h),
    {
        loop
            invariant
                self.wf(),
                forall|k: u64|
                    self@.contains_key(k) ==> old(self)@.contains_key(k) && old(self)@[k]
                        == self@[k],
                forall|k: u64|
                    old(self)@.contains_key(k) && (#[trigger] old(self)@[k]).holder() != h
                        ==> self@.contains_key(k) && self@[k] == old(self)@[k],
            decreases self.rows@.len(),
        {
            match self.find_holder_row(h) {
                Some(i) => {
                    proof {
                        lemma_rows_map_remove(self.rows@, i as int);
                        lemma_rows_map(self.rows@);
                    }
                    self.rows.remove(i);
                },
                None => {
                    proof {
                        lemma_rows_map(self.rows@);
                        assert forall|k: u64| #![auto] self@.contains_key(k) implies self@[k].holder() != h by {
                            let j = choose|j: int|
                                0 <= j < self.rows@.len() && (#[trigger] self.rows@[j]).method
                                    == k;
                            assert(self@[k] == self.rows@[j].state);
                            assert(self.rows@[j].state.holder() != h);
                        }
                        assert(self@ =~= purge_view(old(self)@, h));
                    }
                    return ;
                },
            }
        }
    }
}

/// At-most-one capture: the Capture Table never holds two records for the
/// same method, so no method is ever captured (or claimed) by two handlers
/// at once.
pub proof fn lemma_at_most_one_capture(t: CaptureTable, i: int, j: int)
    requires
        t.wf(),
        0 <= i < t.rows@.len(),
        0 <= j < t.rows@.len(),
        t.rows@[i].method == t.rows@[j].method,
    ensures
        i == j,
{
}

} // verus!
