//! The route cache: memoizes finished routes by request fingerprint.
//!
//! The cache is a table of slots, one per fingerprint.  A slot is either a
//! finished route with its expiry instant, or a marker that a computation for
//! that fingerprint is under way, so that a second caller waits instead of
//! recomputing (the single-flight discipline).  Entries expire after the
//! configured time to live, and when the table is full the least-recently-used
//! finished entry is evicted.  Every operation's outcome and the whole new
//! table are pinned by transition functions, so that two runs from the same
//! state agree.

use vstd::prelude::*;

use crate::route::{Route, clone_route, route_view};

verus! {

/// What a slot holds: a computation under way, or a finished route.
pub enum CacheState {
    /// A computation for this fingerprint is under way.
    InProgress,
    /// A finished route, valid strictly before `expires_at`.
    Ready { route: Route, expires_at: u64 },
}

/// One cache slot.
pub struct CacheSlot {
    /// The fingerprint this slot answers.
    pub fp: u64,
    /// What the slot holds.
    pub state: CacheState,
    /// The logical time of the slot's last use, for eviction.
    pub last_used: u64,
}

/// What a lookup decided.
pub enum BeginOutcome {
    /// A fresh finished route; a copy of it.
    Hit(Route),
    /// Nothing usable is cached; the caller must compute, and the slot is
    /// marked under way.
    MustCompute,
    /// Another computation for this fingerprint is under way; wait for it.
    Wait,
}

/// The kind of a lookup outcome.
#[derive(Clone, Copy, Debug, PartialEq, Eq, Structural)]
pub enum BeginKind {
    Found,
    Compute,
    Busy,
}

/// There is a slot for the fingerprint.
pub open spec fn has_slot(slots: Seq<CacheSlot>, fp: u64) -> bool {
    exists|i: int| 0 <= i < slots.len() && slots[i].fp == fp
}

/// The position of the slot for the fingerprint (unique when fingerprints are
/// unique).
pub open spec fn slot_index(slots: Seq<CacheSlot>, fp: u64) -> int {
    choose|i: int| 0 <= i < slots.len() && slots[i].fp == fp
}

/// Every fingerprint appears in at most one slot.
pub open spec fn unique_fps(slots: Seq<CacheSlot>) -> bool {
    forall|i: int, j: int|
        0 <= i < j < slots.len() ==> (#[trigger] slots[i]).fp != (#[trigger] slots[j]).fp
}

/// Position `i` holds the least-recently-used finished slot: no finished slot
/// was used earlier, and among equally old ones it is the first.
pub open spec fn is_first_lru_ready(slots: Seq<CacheSlot>, i: int) -> bool {
    &&& 0 <= i < slots.len()
    &&& slots[i].state is Ready
    &&& forall|j: int|
        0 <= j < slots.len() && (#[trigger] slots[j]).state is Ready ==> slots[j].last_used
            >= slots[i].last_used
    &&& forall|j: int|
        0 <= j < i && (#[trigger] slots[j]).state is Ready ==> slots[j].last_used
            > slots[i].last_used
}

/// Some finished slot exists.
pub open spec fn has_ready(slots: Seq<CacheSlot>) -> bool {
    exists|i: int| 0 <= i < slots.len() && (#[trigger] slots[i]).state is Ready
}

/// What a lookup decides, as a function of the table: a fresh finished route
/// is found; a computation under way is waited for; anything else (no slot, or
/// an expired route) must be computed.
pub open spec fn spec_begin_kind(slots: Seq<CacheSlot>, fp: u64, now: u64) -> BeginKind {
    if !has_slot(slots, fp) {
        BeginKind::Compute
    } else {
        match slots[slot_index(slots, fp)].state {
            CacheState::InProgress => BeginKind::Busy,
            CacheState::Ready { route, expires_at } => if now < expires_at {
                BeginKind::Found
            } else {
                BeginKind::Compute
            },
        }
    }
}

/// The table after a lookup: a found route's slot is touched; an expired or
/// missing one is marked under way (evicting the least-recently-used finished
/// slot if the table is full); a busy one is left alone.
#[verifier::opaque]
pub open spec fn spec_begin_slots(
    slots: Seq<CacheSlot>,
    fp: u64,
    now: u64,
    tick: u64,
    cap: usize,
) -> Seq<CacheSlot> {
    if !has_slot(slots, fp) {
        let fresh = CacheSlot { fp, state: CacheState::InProgress, last_used: tick };
        if slots.len() < cap || !has_ready(slots) {
            slots.push(fresh)
        } else {
            slots.remove(choose|li: int| is_first_lru_ready(slots, li)).push(fresh)
        }
    } else {
        let i = slot_index(slots, fp);
        match slots[i].state {
            CacheState::InProgress => slots,
            CacheState::Ready { route, expires_at } => if now < expires_at {
                slots.update(i, CacheSlot { fp, state: slots[i].state, last_used: tick })
            } else {
                slots.update(i, CacheSlot { fp, state: CacheState::InProgress, last_used: tick })
            },
        }
    }
}

/// The table after a computation finished: its slot holds the route until
/// `now + ttl` (saturating), and is touched.
#[verifier::opaque]
pub open spec fn spec_complete_slots(
    slots: Seq<CacheSlot>,
    fp: u64,
    route: Route,
    now: u64,
    ttl: u64,
    tick: u64,
) -> Seq<CacheSlot> {
    let expires_at = if now + ttl <= u64::MAX {
        (now + ttl) as u64
    } else {
        u64::MAX
    };
    let fresh = CacheSlot {
        fp,
        state: CacheState::Ready { route, expires_at },
        last_used: tick,
    };
    if !has_slot(slots, fp) {
        slots.push(fresh)
    } else {
        slots.update(slot_index(slots, fp), fresh)
    }
}

/// The table after a computation failed: its under-way marker is dropped, so
/// the next caller computes instead of waiting forever.
#[verifier::opaque]
pub open spec fn spec_fail_slots(slots: Seq<CacheSlot>, fp: u64) -> Seq<CacheSlot> {
    if has_slot(slots, fp) && slots[slot_index(slots, fp)].state is InProgress {
        slots.remove(slot_index(slots, fp))
    } else {
        slots
    }
}

/// The route cache.
///
/// The capacity bounds the finished entries: inserting past it evicts the
/// least-recently-used finished slot.  Under-way markers are not evicted (a
/// waiter would lose its computation), so the table can briefly exceed the
/// capacity by the number of computations in flight.
pub struct RouteCache {
    /// The slot table.
    pub slots: Vec<CacheSlot>,
    /// How long a finished route stays valid, in the caller's time unit.
    pub ttl: u64,
    /// Most slots kept; beyond it the least-recently-used finished slot is
    /// evicted.
    pub cap: usize,
    /// Logical clock for recency; grows with every operation.
    pub tick: u64,
    /// How many lookups found a fresh route.
    pub hits: u64,
    /// How many lookups had to compute.
    pub misses: u64,
    /// How many finished slots were evicted.
    pub evictions: u64,
}

impl RouteCache {
    /// Fingerprints are unique across slots.
    pub open spec fn wf(self) -> bool {
        unique_fps(self.slots@)
    }

    /// An empty cache with the given time to live and capacity.
    pub fn new(ttl: u64, cap: usize) -> (r: RouteCache)
        ensures
            r.wf(),
            r.slots@.len() == 0,
            r.ttl == ttl,
            r.cap == cap,
            r.hits == 0,
            r.misses == 0,
            r.evictions == 0,
    {
        RouteCache { slots: Vec::new(), ttl, cap, tick: 0, hits: 0, misses: 0, evictions: 0 }
    }

    /// How many lookups found a fresh route.
    pub fn hit_count(&self) -> (r: u64)
        ensures
            r == self.hits,
    {
        self.hits
    }

    /// How many lookups had to compute.
    pub fn miss_count(&self) -> (r: u64)
        ensures
            r == self.misses,
    {
        self.misses
    }

    /// How many finished slots were evicted.
    pub fn eviction_count(&self) -> (r: u64)
        ensures
            r == self.evictions,
    {
        self.evictions
    }

    /// Position of the slot for the fingerprint, if any.
    fn find_slot(&self, fp: u64) -> (r: Option<usize>)
        requires
            self.wf(),
        ensures
            match r {
                Some(i) => i < self.slots@.len() && self.slots@[i as int].fp == fp && i as int
                    == slot_index(self.slots@, fp) && has_slot(self.slots@, fp),
                None => !has_slot(self.slots@, fp),
            },
    {
        let mut i: usize = 0;
        while i < self.slots.len()
            invariant
                self.wf(),
                i <= self.slots@.len(),
                forall|j: int| 0 <= j < i ==> (#[trigger] self.slots@[j]).fp != fp,
            decreases self.slots@.len() - i,
        {
            if self.slots[i].fp == fp {
                proof {
                    let w = slot_index(self.slots@, fp);
                    assert(0 <= w < self.slots@.len() && self.slots@[w].fp == fp);
                    if w != i as int {
                        assert(false);
                    }
                }
                return Some(i);
            }
            i = i + 1;
        }
        None
    }

    /// Position of the least-recently-used finished slot, if any.
    fn find_lru_ready(&self) -> (r: Option<usize>)
        ensures
            match r {
                Some(i) => is_first_lru_ready(self.slots@, i as int),
                None => !has_ready(self.slots@),
            },
    {
        let mut best: Option<usize> = None;
        let mut i: usize = 0;
        while i < self.slots.len()
            invariant
                i <= self.slots@.len(),
                match best {
                    Some(b) => b < i && self.slots@[b as int].state is Ready && (forall|j: int|
                        0 <= j < i && (#[trigger] self.slots@[j]).state is Ready
                            ==> self.slots@[j].last_used >= self.slots@[b as int].last_used)
                        && (forall|j: int|
                        0 <= j < b && (#[trigger] self.slots@[j]).state is Ready
                            ==> self.slots@[j].last_used > self.slots@[b as int].last_used),
                    None => forall|j: int|
                        0 <= j < i ==> !((#[trigger] self.slots@[j]).state is Ready),
                },
            decreases self.slots@.len() - i,
        {
            let is_ready = match &self.slots[i].state {
                CacheState::Ready { .. } => true,
                CacheState::InProgress => false,
            };
            if is_ready {
                best = match best {
                    None => Some(i),
                    Some(b) => {
                        if self.slots[i].last_used < self.slots[b].last_used {
                            Some(i)
                        } else {
                            Some(b)
                        }
                    },
                };
            }
            i = i + 1;
        }
        best
    }

    /// Looks the fingerprint up: returns a copy of a fresh finished route;
    /// reports that another computation is under way; or marks the slot under
    /// way and tells the caller to compute.  Outcome and new table are exact
    /// functions of the old state, so two runs from the same state agree.
    pub fn begin(&mut self, fp: u64, now: u64) -> (r: BeginOutcome)
        requires
            old(self).wf(),
        ensures
            final(self).wf(),
            final(self).ttl == old(self).ttl,
            final(self).cap == old(self).cap,
            (r is Hit <==> spec_begin_kind(old(self).slots@, fp, now) == BeginKind::Found),
            (r is Wait <==> spec_begin_kind(old(self).slots@, fp, now) == BeginKind::Busy),
            (r is MustCompute <==> spec_begin_kind(old(self).slots@, fp, now)
                == BeginKind::Compute),
            final(self).slots@ == spec_begin_slots(
                old(self).slots@,
                fp,
                now,
                old(self).tick,
                old(self).cap,
            ),
            r matches BeginOutcome::Hit(q) ==> (old(self).slots@[slot_index(
                old(self).slots@,
                fp,
            )].state matches CacheState::Ready { route, expires_at } && route_view(q)
                == route_view(route)),
            final(self).hits == if r is Hit {
                sat_add_one(old(self).hits)
            } else {
                old(self).hits as int
            },
            final(self).misses == if r is MustCompute {
                sat_add_one(old(self).misses)
            } else {
                old(self).misses as int
            },
            final(self).evictions == if !has_slot(old(self).slots@, fp) && old(self).slots@.len()
                >= old(self).cap && has_ready(old(self).slots@) {
                sat_add_one(old(self).evictions)
            } else {
                old(self).evictions as int
            },
            final(self).tick == if r is Wait {
                old(self).tick
            } else {
                sat_inc(old(self).tick)
            },
    {
        proof {
            reveal(spec_begin_slots);
        }
        let ghost slots0 = self.slots@;
        match self.find_slot(fp) {
            Some(i) => {
                let fresh_route: Option<Route> = match &self.slots[i].state {
                    CacheState::InProgress => None,
                    CacheState::Ready { route, expires_at } => {
                        if now < *expires_at {
                            Some(clone_route(route))
                        } else {
                            None
                        }
                    },
                };
                let was_busy = match &self.slots[i].state {
                    CacheState::InProgress => true,
                    CacheState::Ready { .. } => false,
                };
                if was_busy {
                    proof {
                        assert(spec_begin_kind(slots0, fp, now) == BeginKind::Busy);
                        assert(spec_begin_slots(slots0, fp, now, self.tick, self.cap) == slots0);
                    }
                    return BeginOutcome::Wait;
                }
                let tk = self.tick;
                match fresh_route {
                    Some(q) => {
                        self.slots[i].last_used = tk;
                        proof {
                            assert(self.slots@ =~= spec_begin_slots(
                                slots0,
                                fp,
                                now,
                                tk,
                                self.cap,
                            ));
                            lemma_unique_after_update(slots0, self.slots@, i as int, fp);
                        }
                        if self.hits < u64::MAX {
                            self.hits = self.hits + 1;
                        }
                        if self.tick < u64::MAX {
                            self.tick = self.tick + 1;
                        }
                        proof {
                            assert(spec_begin_kind(slots0, fp, now) == BeginKind::Found);
                        }
                        BeginOutcome::Hit(q)
                    },
                    None => {
                        self.slots[i] = CacheSlot {
                            fp,
                            state: CacheState::InProgress,
                            last_used: tk,
                        };
                        proof {
                            assert(self.slots@ =~= spec_begin_slots(
                                slots0,
                                fp,
                                now,
                                tk,
                                self.cap,
                            ));
                            lemma_unique_after_update(slots0, self.slots@, i as int, fp);
                        }
                        if self.misses < u64::MAX {
                            self.misses = self.misses + 1;
                        }
                        if self.tick < u64::MAX {
                            self.tick = self.tick + 1;
                        }
                        proof {
                            assert(spec_begin_kind(slots0, fp, now) == BeginKind::Compute);
                        }
                        BeginOutcome::MustCompute
                    },
                }
            },
            None => {
                let tk = self.tick;
                let fresh = CacheSlot { fp, state: CacheState::InProgress, last_used: tk };
                if self.slots.len() < self.cap {
                    self.slots.push(fresh);
                    proof {
                        lemma_unique_after_push(slots0, self.slots@, fp, tk);
                    }
                } else {
                    match self.find_lru_ready() {
                        Some(li) => {
                            let ghost the_lru = choose|w: int| is_first_lru_ready(slots0, w);
                            proof {
                                lemma_first_lru_unique(slots0, li as int, the_lru);
                            }
                            self.slots.remove(li);
                            let ghost removed = self.slots@;
                            self.slots.push(fresh);
                            if self.evictions < u64::MAX {
                                self.evictions = self.evictions + 1;
                            }
                            proof {
                                lemma_unique_after_remove(slots0, removed, li as int, fp);
                                lemma_unique_after_push(removed, self.slots@, fp, tk);
                            }
                        },
                        None => {
                            self.slots.push(fresh);
                            proof {
                                lemma_unique_after_push(slots0, self.slots@, fp, tk);
                            }
                        },
                    }
                }
                if self.misses < u64::MAX {
                    self.misses = self.misses + 1;
                }
                if self.tick < u64::MAX {
                    self.tick = self.tick + 1;
                }
                proof {
                    assert(spec_begin_kind(slots0, fp, now) == BeginKind::Compute);
                }
                BeginOutcome::MustCompute
            },
        }
    }

    /// Records the finished route for the fingerprint, valid for the
    /// configured time to live from `now`.
    pub fn complete(&mut self, fp: u64, route: Route, now: u64)
        requires
            old(self).wf(),
        ensures
            final(self).wf(),
            final(self).ttl == old(self).ttl,
            final(self).cap == old(self).cap,
            final(self).slots@ == spec_complete_slots(
                old(self).slots@,
                fp,
                route,
                now,
                old(self).ttl,
                old(self).tick,
            ),
            final(self).tick == sat_inc(old(self).tick),
            final(self).hits == old(self).hits,
            final(self).misses == old(self).misses,
            final(self).evictions == old(self).evictions,
    {
        proof {
            reveal(spec_complete_slots);
        }
        let ghost slots0 = self.slots@;
        let expires_at: u64 = if now <= u64::MAX - self.ttl {
            now + self.ttl
        } else {
            u64::MAX
        };
        let tk = self.tick;
        let fresh = CacheSlot { fp, state: CacheState::Ready { route, expires_at }, last_used: tk };
        match self.find_slot(fp) {
            Some(i) => {
                self.slots[i] = fresh;
                proof {
                    lemma_unique_after_update(slots0, self.slots@, i as int, fp);
                    assert(self.slots@ =~= spec_complete_slots(
                        slots0,
                        fp,
                        route,
                        now,
                        self.ttl,
                        tk,
                    ));
                }
            },
            None => {
                self.slots.push(fresh);
                proof {
                    lemma_unique_after_push(slots0, self.slots@, fp, tk);
                    assert(self.slots@ =~= spec_complete_slots(
                        slots0,
                        fp,
                        route,
                        now,
                        self.ttl,
                        tk,
                    ));
                }
            },
        }
        if self.tick < u64::MAX {
            self.tick = self.tick + 1;
        }
    }

    /// Drops the under-way marker for the fingerprint after a failed
    /// computation, so the next caller computes instead of waiting forever.
    pub fn fail(&mut self, fp: u64)
        requires
            old(self).wf(),
        ensures
            final(self).wf(),
            final(self).ttl == old(self).ttl,
            final(self).cap == old(self).cap,
            final(self).slots@ == spec_fail_slots(old(self).slots@, fp),
            final(self).tick == old(self).tick,
            final(self).hits == old(self).hits,
            final(self).misses == old(self).misses,
            final(self).evictions == old(self).evictions,
    {
        proof {
            reveal(spec_fail_slots);
        }
        let ghost slots0 = self.slots@;
        match self.find_slot(fp) {
            Some(i) => {
                let busy = match &self.slots[i].state {
                    CacheState::InProgress => true,
                    CacheState::Ready { .. } => false,
                };
                if busy {
                    self.slots.remove(i);
                    proof {
                        lemma_unique_after_remove(slots0, self.slots@, i as int, fp);
                    }
                }
            },
            None => {},
        }
    }
}

/// Saturating increment, for counters.
pub open spec fn sat_add_one(x: u64) -> int {
    if x < u64::MAX {
        x + 1
    } else {
        x as int
    }
}

/// Saturating increment on the machine word itself.
pub open spec fn sat_inc(x: u64) -> u64 {
    if x < u64::MAX {
        (x + 1) as u64
    } else {
        u64::MAX
    }
}

/// Updating a slot in place, keeping its fingerprint, keeps fingerprints unique.
proof fn lemma_unique_after_update(s0: Seq<CacheSlot>, s1: Seq<CacheSlot>, i: int, fp: u64)
    requires
        unique_fps(s0),
        0 <= i < s0.len(),
        s0[i].fp == fp,
        s1.len() == s0.len(),
        s1[i].fp == fp,
        forall|j: int| 0 <= j < s0.len() && j != i ==> s1[j] == s0[j],
    ensures
        unique_fps(s1),
{
    assert forall|a: int, b: int|
        0 <= a < b < s1.len() implies (#[trigger] s1[a]).fp != (#[trigger] s1[b]).fp by {
        assert(s0[a].fp != s0[b].fp);
    }
}

/// Appending a slot with a fingerprint not yet present keeps them unique.
proof fn lemma_unique_after_push(s0: Seq<CacheSlot>, s1: Seq<CacheSlot>, fp: u64, tk: u64)
    requires
        unique_fps(s0),
        !has_slot(s0, fp),
        s1.len() == s0.len() + 1,
        forall|j: int| 0 <= j < s0.len() ==> s1[j] == s0[j],
        s1[s1.len() - 1].fp == fp,
    ensures
        unique_fps(s1),
{
    assert forall|a: int, b: int|
        0 <= a < b < s1.len() implies (#[trigger] s1[a]).fp != (#[trigger] s1[b]).fp by {
        if b < s1.len() - 1 {
            assert(s0[a].fp != s0[b].fp);
        } else {
            assert(s1[a] == s0[a]);
            if s1[a].fp == fp {
                assert(has_slot(s0, fp));
            }
        }
    }
}

/// Removing a slot keeps fingerprints unique, and a fingerprint not at the
/// removed position keeps its absence.
proof fn lemma_unique_after_remove(s0: Seq<CacheSlot>, s1: Seq<CacheSlot>, i: int, fp: u64)
    requires
        unique_fps(s0),
        0 <= i < s0.len(),
        s1 == s0.remove(i),
    ensures
        unique_fps(s1),
        !has_slot(s0, fp) ==> !has_slot(s1, fp),
{
    assert forall|a: int, b: int|
        0 <= a < b < s1.len() implies (#[trigger] s1[a]).fp != (#[trigger] s1[b]).fp by {
        let a0 = if a < i { a } else { a + 1 };
        let b0 = if b < i { b } else { b + 1 };
        assert(s1[a] == s0[a0]);
        assert(s1[b] == s0[b0]);
        assert(s0[a0].fp != s0[b0].fp);
    }
    if !has_slot(s0, fp) {
        assert forall|j: int| 0 <= j < s1.len() implies (#[trigger] s1[j]).fp != fp by {
            let j0 = if j < i { j } else { j + 1 };
            assert(s1[j] == s0[j0]);
        }
    }
}

/// Two positions that both hold the first least-recently-used finished slot
/// are the same position.
proof fn lemma_first_lru_unique(slots: Seq<CacheSlot>, a: int, b: int)
    requires
        is_first_lru_ready(slots, a),
        is_first_lru_ready(slots, b),
    ensures
        a == b,
{
    if a < b {
        assert(slots[a].last_used > slots[b].last_used);
        assert(slots[a].last_used >= slots[b].last_used);
        assert(slots[b].last_used >= slots[a].last_used);
    }
    if b < a {
        assert(slots[b].last_used > slots[a].last_used);
        assert(slots[a].last_used >= slots[b].last_used);
        assert(slots[b].last_used >= slots[a].last_used);
    }
}

/// Some finished slot exists, so a first least-recently-used one exists.
proof fn lemma_first_lru_exists(slots: Seq<CacheSlot>)
    requires
        has_ready(slots),
    ensures
        exists|i: int| is_first_lru_ready(slots, i),
{
    let w = choose|i: int| 0 <= i < slots.len() && (#[trigger] slots[i]).state is Ready;
    lemma_first_lru_from_witness(slots, w);
}

proof fn lemma_first_lru_from_witness(slots: Seq<CacheSlot>, w: int)
    requires
        0 <= w < slots.len(),
        slots[w].state is Ready,
    ensures
        exists|i: int| is_first_lru_ready(slots, i),
    decreases slots[w].last_used, w,
{
    if is_first_lru_ready(slots, w) {
    } else if exists|j: int|
        0 <= j < slots.len() && (#[trigger] slots[j]).state is Ready && slots[j].last_used
            < slots[w].last_used {
        let j = choose|j: int|
            0 <= j < slots.len() && (#[trigger] slots[j]).state is Ready && slots[j].last_used
                < slots[w].last_used;
        lemma_first_lru_from_witness(slots, j);
    } else {
        let j = choose|j: int|
            0 <= j < w && (#[trigger] slots[j]).state is Ready && slots[j].last_used
                <= slots[w].last_used;
        assert(0 <= j < slots.len() && slots[j].state is Ready);
        assert(slots[j].last_used >= slots[w].last_used);
        assert(slots[j].last_used == slots[w].last_used);
        lemma_first_lru_from_witness(slots, j);
    }
}

/// The single-flight law: when a lookup tells its caller to compute, a second
/// lookup for the same fingerprint, made before the computation finishes or
/// fails, waits instead of computing, whatever the clock says.  Two concurrent
/// identical requests therefore trigger exactly one computation.
pub proof fn lemma_single_flight(
    slots: Seq<CacheSlot>,
    fp: u64,
    now1: u64,
    now2: u64,
    tick: u64,
    cap: usize,
)
    requires
        unique_fps(slots),
        spec_begin_kind(slots, fp, now1) == BeginKind::Compute,
    ensures
        spec_begin_kind(spec_begin_slots(slots, fp, now1, tick, cap), fp, now2)
            == BeginKind::Busy,
{
    reveal(spec_begin_slots);
    let s1 = spec_begin_slots(slots, fp, now1, tick, cap);
    if !has_slot(slots, fp) {
        let fresh = CacheSlot { fp, state: CacheState::InProgress, last_used: tick };
        if slots.len() < cap || !has_ready(slots) {
            assert(s1 == slots.push(fresh));
            lemma_unique_after_push(slots, s1, fp, tick);
            assert(s1[s1.len() - 1].fp == fp);
            assert(has_slot(s1, fp));
            let i = slot_index(s1, fp);
            assert(0 <= i < s1.len() && s1[i].fp == fp);
            if i != s1.len() - 1 {
                assert(s1[i].fp != s1[s1.len() - 1].fp);
            }
            assert(s1[i].state is InProgress);
        } else {
            lemma_first_lru_exists(slots);
            let li = choose|li: int| is_first_lru_ready(slots, li);
            let removed = slots.remove(li);
            assert(s1 == removed.push(fresh));
            lemma_unique_after_remove(slots, removed, li, fp);
            lemma_unique_after_push(removed, s1, fp, tick);
            assert(s1[s1.len() - 1].fp == fp);
            assert(has_slot(s1, fp));
            let i = slot_index(s1, fp);
            assert(0 <= i < s1.len() && s1[i].fp == fp);
            if i != s1.len() - 1 {
                assert(s1[i].fp != s1[s1.len() - 1].fp);
            }
            assert(s1[i].state is InProgress);
        }
    } else {
        let i0 = slot_index(slots, fp);
        assert(0 <= i0 < slots.len() && slots[i0].fp == fp);
        assert(slots[i0].state matches CacheState::Ready { route, expires_at } && now1
            >= expires_at);
        assert(s1 == slots.update(
            i0,
            CacheSlot { fp, state: CacheState::InProgress, last_used: tick },
        ));
        lemma_unique_after_update(slots, s1, i0, fp);
        assert(s1[i0].fp == fp);
        assert(has_slot(s1, fp));
        let i = slot_index(s1, fp);
        assert(0 <= i < s1.len() && s1[i].fp == fp);
        if i != i0 {
            if i < i0 {
                assert(s1[i].fp != s1[i0].fp);
            } else {
                assert(s1[i0].fp != s1[i].fp);
            }
        }
        assert(s1[i].state is InProgress);
    }
}

/// After a computation for a fingerprint finishes at time `t`, a lookup made
/// at `t + ttl` or later must compute again: the entry has expired and is not
/// reused.
pub proof fn lemma_cache_expiry(
    slots: Seq<CacheSlot>,
    fp: u64,
    route: Route,
    t: u64,
    ttl: u64,
    now2: u64,
    tick: u64,
)
    requires
        unique_fps(slots),
        t + ttl <= u64::MAX,
        now2 >= t + ttl,
    ensures
        spec_begin_kind(spec_complete_slots(slots, fp, route, t, ttl, tick), fp, now2)
            == BeginKind::Compute,
{
    reveal(spec_complete_slots);
    let s1 = spec_complete_slots(slots, fp, route, t, ttl, tick);
    let expires_at = (t + ttl) as u64;
    let fresh = CacheSlot {
        fp,
        state: CacheState::Ready { route, expires_at },
        last_used: tick,
    };
    if !has_slot(slots, fp) {
        assert(s1 == slots.push(fresh));
        lemma_unique_after_push(slots, s1, fp, tick);
        assert(s1[s1.len() - 1].fp == fp);
        assert(has_slot(s1, fp));
        let i = slot_index(s1, fp);
        assert(0 <= i < s1.len() && s1[i].fp == fp);
        if i != s1.len() - 1 {
            assert(s1[i].fp != s1[s1.len() - 1].fp);
        }
        assert(s1[i] == fresh);
    } else {
        let i0 = slot_index(slots, fp);
        assert(0 <= i0 < slots.len() && slots[i0].fp == fp);
        assert(s1 == slots.update(i0, fresh));
        lemma_unique_after_update(slots, s1, i0, fp);
        assert(has_slot(s1, fp));
        let i = slot_index(s1, fp);
        assert(0 <= i < s1.len() && s1[i].fp == fp);
        if i != i0 {
            if i < i0 {
                assert(s1[i].fp != s1[i0].fp);
            } else {
                assert(s1[i0].fp != s1[i].fp);
            }
        }
        assert(s1[i] == fresh);
    }
}

/// Before its expiry, a completed entry is found and reused, and what is
/// found is exactly the completed route: a second caller receives the first
/// computation's result, not a recomputation or a substitute.
pub proof fn lemma_cache_fresh(
    slots: Seq<CacheSlot>,
    fp: u64,
    route: Route,
    t: u64,
    ttl: u64,
    now2: u64,
    tick: u64,
)
    requires
        unique_fps(slots),
        t + ttl <= u64::MAX,
        now2 < t + ttl,
    ensures
        spec_begin_kind(spec_complete_slots(slots, fp, route, t, ttl, tick), fp, now2)
            == BeginKind::Found,
        ({
            let s1 = spec_complete_slots(slots, fp, route, t, ttl, tick);
            s1[slot_index(s1, fp)].state == (CacheState::Ready {
                route,
                expires_at: (t + ttl) as u64,
            })
        }),
{
    reveal(spec_complete_slots);
    let s1 = spec_complete_slots(slots, fp, route, t, ttl, tick);
    let expires_at = (t + ttl) as u64;
    let fresh = CacheSlot {
        fp,
        state: CacheState::Ready { route, expires_at },
        last_used: tick,
    };
    if !has_slot(slots, fp) {
        assert(s1 == slots.push(fresh));
        lemma_unique_after_push(slots, s1, fp, tick);
        assert(s1[s1.len() - 1].fp == fp);
        assert(has_slot(s1, fp));
        let i = slot_index(s1, fp);
        assert(0 <= i < s1.len() && s1[i].fp == fp);
        if i != s1.len() - 1 {
            assert(s1[i].fp != s1[s1.len() - 1].fp);
        }
        assert(s1[i] == fresh);
    } else {
        let i0 = slot_index(slots, fp);
        assert(0 <= i0 < slots.len() && slots[i0].fp == fp);
        assert(s1 == slots.update(i0, fresh));
        lemma_unique_after_update(slots, s1, i0, fp);
        assert(has_slot(s1, fp));
        let i = slot_index(s1, fp);
        assert(0 <= i < s1.len() && s1[i].fp == fp);
        if i != i0 {
            if i < i0 {
                assert(s1[i].fp != s1[i0].fp);
            } else {
                assert(s1[i0].fp != s1[i].fp);
            }
        }
        assert(s1[i] == fresh);
    }
}

} // verus!

