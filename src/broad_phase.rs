use vstd::prelude::*;

verus! {

use crate::collision::GameObjectId;

/// Lexicographic order of index entries `(key, id)`.
pub open spec fn entry_lt(a: (u32, GameObjectId), b: (u32, GameObjectId)) -> bool {
    a.0 < b.0 || (a.0 == b.0 && a.1 < b.1)
}

/// An ordered index of `(key, id)` entries, each held once.
///
/// The sweep asks it for every entry whose key lies in a range. A sorted
/// vector answers that with a scan that stops at the first key past the
/// range, and its order is stated and checked here; `BTreeSet::range` has no
/// specification to check a caller against.
pub struct SortedIndex {
    entries: Vec<(u32, GameObjectId)>,
}

impl SortedIndex {
    pub closed spec fn has(&self, e: (u32, GameObjectId)) -> bool {
        self.entries@.contains(e)
    }

    pub closed spec fn wf(&self) -> bool {
        forall|i: int, j: int|
            0 <= i < j < self.entries@.len() ==> entry_lt(self.entries@[i], self.entries@[j])
    }

    pub fn new() -> (r: Self)
        ensures
            r.wf(),
            forall|e: (u32, GameObjectId)| !r.has(e),
    {
        SortedIndex { entries: Vec::new() }
    }

    /// Adds an entry that is not held yet, at its place in the order.
    pub fn insert(&mut self, e: (u32, GameObjectId))
        requires
            old(self).wf(),
            !old(self).has(e),
        ensures
            final(self).wf(),
            forall|x: (u32, GameObjectId)| #[trigger]
                final(self).has(x) <==> old(self).has(x) || x == e,
    {
        let n = self.entries.len();
        let mut i: usize = 0;
        while i < n && (self.entries[i].0 < e.0 || (self.entries[i].0 == e.0
            && self.entries[i].1 < e.1))
            invariant
                n == self.entries@.len(),
                i <= n,
                forall|k: int| 0 <= k < i ==> entry_lt(self.entries@[k], e),
            decreases n - i,
        {
            i = i + 1;
        }
        let ghost old_entries = self.entries@;
        self.entries.insert(i, e);
        proof {
            let s = self.entries@;
            assert(s =~= old_entries.insert(i as int, e));
            if i < n {
                assert(old_entries[i as int] != e);
                assert(entry_lt(e, old_entries[i as int]));
            }
            assert forall|p: int, q: int| 0 <= p < q < s.len() implies entry_lt(s[p], s[q]) by {
                if p < i && q > i {
                    assert(entry_lt(s[p], e));
                    assert(q - 1 >= i);
                    if q - 1 > i {
                        assert(entry_lt(old_entries[i as int], old_entries[q - 1]));
                    }
                } else if p == i && q > i + 1 {
                    assert(entry_lt(old_entries[i as int], old_entries[q - 1]));
                }
            }
            assert forall|x: (u32, GameObjectId)| #[trigger]
                self.has(x) <==> old_entries.contains(x) || x == e by {
                if old_entries.contains(x) {
                    let k = choose|k: int| 0 <= k < old_entries.len() && old_entries[k] == x;
                    if k < i {
                        assert(s[k] == x);
                    } else {
                        assert(s[k + 1] == x);
                    }
                }
                if x == e {
                    assert(s[i as int] == e);
                }
                if s.contains(x) {
                    let k = choose|k: int| 0 <= k < s.len() && s[k] == x;
                    if k < i {
                        assert(old_entries[k] == x);
                    } else if k > i {
                        assert(old_entries[k - 1] == x);
                    }
                }
            }
        }
    }

    /// Removes an entry that is held.
    pub fn remove(&mut self, e: (u32, GameObjectId))
        requires
            old(self).wf(),
            old(self).has(e),
        ensures
            final(self).wf(),
            forall|x: (u32, GameObjectId)| #[trigger]
                final(self).has(x) <==> old(self).has(x) && x != e,
    {
        let n = self.entries.len();
        let mut i: usize = 0;
        while i < n && !(self.entries[i].0 == e.0 && self.entries[i].1 == e.1)
            invariant
                n == self.entries@.len(),
                i <= n,
                self.entries@.contains(e),
                forall|k: int| 0 <= k < i ==> self.entries@[k] != e,
            decreases n - i,
        {
            i = i + 1;
        }
        let ghost old_entries = self.entries@;
        proof {
            if i == n {
                let k = choose|k: int| 0 <= k < old_entries.len() && old_entries[k] == e;
                assert(false);
            }
        }
        self.entries.remove(i);
        proof {
            let s = self.entries@;
            assert(s =~= old_entries.remove(i as int));
            assert forall|p: int, q: int| 0 <= p < q < s.len() implies entry_lt(s[p], s[q]) by {
                if p < i && q >= i {
                    assert(entry_lt(old_entries[p], old_entries[q + 1]));
                }
            }
            assert forall|x: (u32, GameObjectId)| #[trigger]
                self.has(x) <==> old_entries.contains(x) && x != e by {
                if old_entries.contains(x) && x != e {
                    let k = choose|k: int| 0 <= k < old_entries.len() && old_entries[k] == x;
                    if k < i {
                        assert(s[k] == x);
                    } else {
                        assert(k != i);
                        assert(s[k - 1] == x);
                    }
                }
                if s.contains(x) {
                    let k = choose|k: int| 0 <= k < s.len() && s[k] == x;
                    if k < i {
                        assert(old_entries[k] == x);
                        assert(entry_lt(x, e));
                    } else {
                        assert(old_entries[k + 1] == x);
                        assert(entry_lt(e, x));
                    }
                }
            }
        }
    }

    /// Appends to `out` the id of every entry whose key lies in `[lo, hi]`.
    pub fn collect_range(&self, lo: u32, hi: u32, out: &mut Vec<GameObjectId>)
        requires
            self.wf(),
        ensures
            forall|id: GameObjectId| #[trigger]
                final(out)@.contains(id) <==> old(out)@.contains(id) || exists|k: u32|
                    lo <= k <= hi && self.has((k, id)),
    {
        let n = self.entries.len();
        let mut i: usize = 0;
        let ghost start = out@;
        while i < n
            invariant
                n == self.entries@.len(),
                i <= n,
                self.wf(),
                forall|id: GameObjectId| #[trigger]
                    out@.contains(id) <==> start.contains(id) || exists|k: int|
                        0 <= k < i && lo <= self.entries@[k].0 <= hi && self.entries@[k].1 == id,
            ensures
                i == n,
                forall|id: GameObjectId| #[trigger]
                    out@.contains(id) <==> start.contains(id) || exists|k: int|
                        0 <= k < n && lo <= self.entries@[k].0 <= hi && self.entries@[k].1 == id,
            decreases n - i,
        {
            let (key, id) = self.entries[i];
            if key > hi {
                proof {
                    assert forall|k: int| i <= k < n implies self.entries@[k].0 > hi by {
                        if k > i {
                            assert(entry_lt(self.entries@[i as int], self.entries@[k]));
                        }
                    }
                    assert forall|id: GameObjectId| #[trigger]
                        out@.contains(id) <==> start.contains(id) || exists|k: int|
                            0 <= k < n && lo <= self.entries@[k].0 <= hi && self.entries@[k].1
                                == id by {
                        if exists|k: int|
                            0 <= k < n && lo <= self.entries@[k].0 <= hi && self.entries@[k].1
                                == id {
                            let k = choose|k: int|
                                0 <= k < n && lo <= self.entries@[k].0 <= hi && self.entries@[k].1
                                    == id;
                            assert(k < i);
                        }
                    }
                }
                i = n;
                break;
            }
            if lo <= key {
                let ghost before = out@;
                out.push(id);
                proof {
                    assert forall|x: GameObjectId| #[trigger]
                        out@.contains(x) <==> before.contains(x) || x == id by {
                        if out@.contains(x) {
                            let k = choose|k: int| 0 <= k < out@.len() && out@[k] == x;
                            if k < before.len() {
                                assert(before[k] == x);
                            }
                        }
                        if before.contains(x) {
                            let k = choose|k: int| 0 <= k < before.len() && before[k] == x;
                            assert(out@[k] == x);
                        }
                        if x == id {
                            assert(out@[before.len() as int] == x);
                        }
                    }
                }
            }
            i = i + 1;
        }
        proof {
            assert forall|id: GameObjectId| #[trigger]
                out@.contains(id) <==> start.contains(id) || exists|k: u32|
                    lo <= k <= hi && self.has((k, id)) by {
                if exists|k: int|
                    0 <= k < n && lo <= self.entries@[k].0 <= hi && self.entries@[k].1 == id {
                    let k = choose|k: int|
                        0 <= k < n && lo <= self.entries@[k].0 <= hi && self.entries@[k].1 == id;
                    assert(self.entries@[k] == (self.entries@[k].0, id));
                    assert(self.has((self.entries@[k].0, id)));
                }
                if exists|k: u32| lo <= k <= hi && self.has((k, id)) {
                    let k = choose|k: u32| lo <= k <= hi && self.has((k, id));
                    let j = choose|j: int|
                        0 <= j < self.entries@.len() && self.entries@[j] == (k, id);
                    assert(lo <= self.entries@[j].0 <= hi && self.entries@[j].1 == id);
                }
            }
        }
    }
}

/// The swept x-extent of one object over the rest of the tick, as order keys
/// of its smallest and largest x-coordinate.
#[derive(Clone, Copy, Debug, PartialEq, Eq, Structural)]
pub struct XBound {
    pub start: u32,
    pub end: u32,
    pub id: GameObjectId,
}

impl XBound {
    /// The extent of object `id` whose vertices, at both poses, have the
    /// x-coordinate keys `keys`: their smallest and largest key. An object
    /// without vertices has no extent.
    pub fn from_keys(id: GameObjectId, keys: &Vec<u32>) -> (r: Option<XBound>)
        ensures
            keys@.len() == 0 <==> r is None,
            r matches Some(b) ==> {
                &&& b.id == id
                &&& keys@.contains(b.start)
                &&& keys@.contains(b.end)
                &&& forall|k: u32| #[trigger] keys@.contains(k) ==> b.start <= k && k <= b.end
            },
    {
        let n = keys.len();
        if n == 0 {
            return None;
        }
        let mut lo = keys[0];
        let mut hi = keys[0];
        let mut i: usize = 1;
        while i < n
            invariant
                n == keys@.len(),
                1 <= i <= n,
                keys@.contains(lo),
                keys@.contains(hi),
                forall|k: int| 0 <= k < i ==> lo <= #[trigger] keys@[k] && keys@[k] <= hi,
            decreases n - i,
        {
            if keys[i] < lo {
                lo = keys[i];
            }
            if keys[i] > hi {
                hi = keys[i];
            }
            i = i + 1;
        }
        Some(XBound { start: lo, end: hi, id })
    }
}

/// `b` is reported by a query over `[lo, hi]`: its start or its end lies there.
pub open spec fn spec_reaches(lo: u32, hi: u32, b: XBound) -> bool {
    (lo <= b.start && b.start <= hi) || (lo <= b.end && b.end <= hi)
}

/// Two extents share at least one point.
pub open spec fn spec_overlaps(a: XBound, b: XBound) -> bool {
    a.start <= b.end && b.start <= a.end
}

/// Any two overlapping extents are found by the query of at least one of
/// them, so querying every tracked object misses no overlapping pair.
pub proof fn lemma_overlap_is_reached(a: XBound, b: XBound)
    requires
        a.start <= a.end,
        b.start <= b.end,
        spec_overlaps(a, b),
    ensures
        spec_reaches(a.start, a.end, b) || spec_reaches(b.start, b.end, a),
{
}

/// `other` is a candidate of `id` in the tracked extents `m`: both are tracked
/// and the extent of `other` starts or ends within that of `id`.
pub open spec fn spec_is_candidate(
    m: Map<GameObjectId, XBound>,
    id: GameObjectId,
    other: GameObjectId,
) -> bool {
    m.contains_key(id) && m.contains_key(other) && spec_reaches(m[id].start, m[id].end, m[other])
}

/// The interval sweep: every tracked object's extent, indexed by start and
/// by end.
pub struct BroadPhase {
    starts: SortedIndex,
    ends: SortedIndex,
    bounds: Vec<XBound>,
    model: Ghost<Map<GameObjectId, XBound>>,
}

impl BroadPhase {
    /// The extent of each tracked object, by id.
    pub closed spec fn view(&self) -> Map<GameObjectId, XBound> {
        self.model@
    }

    pub closed spec fn wf(&self) -> bool {
        &&& self.starts.wf()
        &&& self.ends.wf()
        &&& forall|e: (u32, GameObjectId)| #[trigger]
            self.starts.has(e) <==> self.model@.contains_key(e.1) && self.model@[e.1].start
                == e.0
        &&& forall|e: (u32, GameObjectId)| #[trigger]
            self.ends.has(e) <==> self.model@.contains_key(e.1) && self.model@[e.1].end == e.0
        &&& forall|i: int|
            0 <= i < self.bounds@.len() ==> #[trigger] self.model@.contains_key(
                self.bounds@[i].id,
            ) && self.model@[self.bounds@[i].id] == self.bounds@[i]
        &&& forall|id: GameObjectId| #[trigger]
            self.model@.contains_key(id) ==> exists|i: int|
                0 <= i < self.bounds@.len() && self.bounds@[i].id == id
        &&& forall|id: GameObjectId| #[trigger]
            self.model@.contains_key(id) ==> self.model@[id].id == id
        &&& forall|i: int, j: int|
            0 <= i < j < self.bounds@.len() ==> self.bounds@[i].id != self.bounds@[j].id
    }

    pub fn new() -> (r: Self)
        ensures
            r.wf(),
            r@ == Map::<GameObjectId, XBound>::empty(),
    {
        BroadPhase {
            starts: SortedIndex::new(),
            ends: SortedIndex::new(),
            bounds: Vec::new(),
            model: Ghost(Map::empty()),
        }
    }

    /// Returns the tracked extent of `id`, if any.
    pub fn bound_of(&self, id: GameObjectId) -> (r: Option<XBound>)
        requires
            self.wf(),
        ensures
            r == (if self@.contains_key(id) {
                Some(self@[id])
            } else {
                None
            }),
    {
        let n = self.bounds.len();
        let mut i: usize = 0;
        while i < n
            invariant
                n == self.bounds@.len(),
                i <= n,
                self.wf(),
                forall|k: int| 0 <= k < i ==> self.bounds@[k].id != id,
            decreases n - i,
        {
            if self.bounds[i].id == id {
                assert(self.model@.contains_key(self.bounds@[i as int].id));
                return Some(self.bounds[i]);
            }
            i = i + 1;
        }
        proof {
            if self@.contains_key(id) {
                let k = choose|k: int| 0 <= k < self.bounds@.len() && self.bounds@[k].id == id;
                assert(false);
            }
        }
        None
    }

    /// Tracks `b` as the extent of object `b.id`, in place of the one tracked
    /// before, if any.
    pub fn update(&mut self, b: XBound)
        requires
            old(self).wf(),
        ensures
            final(self).wf(),
            final(self)@ == old(self)@.insert(b.id, b),
    {
        let ghost m0 = self.model@;
        let ghost b0 = self.bounds@;
        let n = self.bounds.len();
        let mut i: usize = 0;
        while i < n && self.bounds[i].id != b.id
            invariant
                n == self.bounds@.len(),
                i <= n,
                forall|k: int| 0 <= k < i ==> self.bounds@[k].id != b.id,
            decreases n - i,
        {
            i = i + 1;
        }
        if i < n {
            let prev = self.bounds[i];
            assert(m0.contains_key(b0[i as int].id));
            assert(self.starts.has((prev.start, b.id)));
            assert(self.ends.has((prev.end, b.id)));
            self.starts.remove((prev.start, b.id));
            self.ends.remove((prev.end, b.id));
            self.bounds.set(i, b);
        } else {
            proof {
                if m0.contains_key(b.id) {
                    let k = choose|k: int| 0 <= k < b0.len() && b0[k].id == b.id;
                    assert(false);
                }
            }
            self.bounds.push(b);
        }
        assert(!self.starts.has((b.start, b.id)));
        assert(!self.ends.has((b.end, b.id)));
        self.starts.insert((b.start, b.id));
        self.ends.insert((b.end, b.id));
        self.model = Ghost(m0.insert(b.id, b));
        proof {
            let m = self.model@;
            let s = self.bounds@;
            assert(s[i as int] == b);
            assert forall|k: int| 0 <= k < s.len() && k != i implies s[k] == b0[k] && b0[k].id
                != b.id by {
                if i < n {
                    assert(b0[i as int].id == b.id);
                }
            }
            assert forall|k: int| 0 <= k < s.len() implies #[trigger] m.contains_key(s[k].id)
                && m[s[k].id] == s[k] by {
                if k != i {
                    assert(m0.contains_key(b0[k].id));
                }
            }
            assert forall|id: GameObjectId| #[trigger] m.contains_key(id) implies exists|k: int|
                0 <= k < s.len() && s[k].id == id by {
                if id == b.id {
                    assert(s[i as int].id == id);
                } else {
                    let k = choose|k: int| 0 <= k < b0.len() && b0[k].id == id;
                    assert(s[k].id == id);
                }
            }
            assert forall|p: int, q: int| 0 <= p < q < s.len() implies s[p].id != s[q].id by {
                if p != i && q != i {
                    assert(b0[p].id != b0[q].id);
                }
            }
        }
    }

    /// Stops tracking object `id`.
    pub fn remove(&mut self, id: GameObjectId)
        requires
            old(self).wf(),
            old(self)@.contains_key(id),
        ensures
            final(self).wf(),
            final(self)@ == old(self)@.remove(id),
    {
        let ghost m0 = self.model@;
        let ghost b0 = self.bounds@;
        let n = self.bounds.len();
        let mut i: usize = 0;
        while i < n && self.bounds[i].id != id
            invariant
                n == self.bounds@.len(),
                i <= n,
                forall|k: int| 0 <= k < i ==> self.bounds@[k].id != id,
            decreases n - i,
        {
            i = i + 1;
        }
        proof {
            if i == n {
                let k = choose|k: int| 0 <= k < b0.len() && b0[k].id == id;
                assert(false);
            }
        }
        let prev = self.bounds[i];
        assert(m0.contains_key(b0[i as int].id));
        assert(self.starts.has((prev.start, id)));
        assert(self.ends.has((prev.end, id)));
        self.starts.remove((prev.start, id));
        self.ends.remove((prev.end, id));
        self.bounds.remove(i);
        self.model = Ghost(m0.remove(id));
        proof {
            let m = self.model@;
            let s = self.bounds@;
            assert(s =~= b0.remove(i as int));
            assert forall|k: int| 0 <= k < s.len() implies #[trigger] m.contains_key(s[k].id)
                && m[s[k].id] == s[k] by {
                let j = if k < i { k } else { k + 1 };
                assert(s[k] == b0[j]);
                assert(b0[j].id != id);
                assert(m0.contains_key(b0[j].id));
            }
            assert forall|x: GameObjectId| #[trigger] m.contains_key(x) implies exists|k: int|
                0 <= k < s.len() && s[k].id == x by {
                let j = choose|j: int| 0 <= j < b0.len() && b0[j].id == x;
                if j < i {
                    assert(s[j].id == x);
                } else {
                    assert(j != i);
                    assert(s[j - 1].id == x);
                }
            }
            assert forall|p: int, q: int| 0 <= p < q < s.len() implies s[p].id != s[q].id by {
                let pp = if p < i { p } else { p + 1 };
                let qq = if q < i { q } else { q + 1 };
                assert(b0[pp].id != b0[qq].id);
            }
        }
    }

    /// Appends to `out` every tracked object whose extent starts or ends in
    /// `[lo, hi]`. An id may be appended twice.
    pub fn collect_candidates(&self, lo: u32, hi: u32, out: &mut Vec<GameObjectId>)
        requires
            self.wf(),
        ensures
            forall|id: GameObjectId| #[trigger]
                final(out)@.contains(id) <==> old(out)@.contains(id) || (self@.contains_key(id)
                    && spec_reaches(lo, hi, self@[id])),
    {
        let ghost start = out@;
        self.starts.collect_range(lo, hi, out);
        let ghost mid = out@;
        self.ends.collect_range(lo, hi, out);
        proof {
            assert forall|id: GameObjectId| #[trigger]
                out@.contains(id) <==> start.contains(id) || (self@.contains_key(id)
                    && spec_reaches(lo, hi, self@[id])) by {
                if self@.contains_key(id) && spec_reaches(lo, hi, self@[id]) {
                    let b = self@[id];
                    if lo <= b.start && b.start <= hi {
                        assert(self.starts.has((b.start, id)));
                    } else {
                        assert(self.ends.has((b.end, id)));
                    }
                }
                if exists|k: u32| lo <= k <= hi && self.starts.has((k, id)) {
                    let k = choose|k: u32| lo <= k <= hi && self.starts.has((k, id));
                    assert(self.starts.has((k, id)));
                }
                if exists|k: u32| lo <= k <= hi && self.ends.has((k, id)) {
                    let k = choose|k: u32| lo <= k <= hi && self.ends.has((k, id));
                    assert(self.ends.has((k, id)));
                }
            }
        }
    }

    /// The candidates of a tracked object: every tracked object whose extent
    /// starts or ends within its own. The object itself is among them.
    pub fn candidates(&self, id: GameObjectId) -> (r: Vec<GameObjectId>)
        requires
            self.wf(),
        ensures
            forall|other: GameObjectId| #[trigger]
                r@.contains(other) <==> spec_is_candidate(self@, id, other),
    {
        let mut r: Vec<GameObjectId> = Vec::new();
        match self.bound_of(id) {
            Some(b) => {
                self.collect_candidates(b.start, b.end, &mut r);
            },
            None => {},
        }
        r
    }

    /// Every tracked object whose extent overlaps that of `id`, the object
    /// itself included: a complete set to re-test an object against after it
    /// has changed within a tick.
    pub fn overlapping(&self, id: GameObjectId) -> (r: Vec<GameObjectId>)
        requires
            self.wf(),
        ensures
            forall|other: GameObjectId| #[trigger]
                r@.contains(other) <==> self@.contains_key(id) && self@.contains_key(other)
                    && spec_overlaps(self@[id], self@[other]),
    {
        let mut r: Vec<GameObjectId> = Vec::new();
        let a = match self.bound_of(id) {
            Some(a) => a,
            None => {
                return r;
            },
        };
        let n = self.bounds.len();
        let mut i: usize = 0;
        while i < n
            invariant
                n == self.bounds@.len(),
                i <= n,
                self.wf(),
                self@.contains_key(id) && self@[id] == a,
                forall|other: GameObjectId| #[trigger]
                    r@.contains(other) <==> exists|k: int|
                        0 <= k < i && self.bounds@[k].id == other && spec_overlaps(
                            a,
                            self.bounds@[k],
                        ),
            decreases n - i,
        {
            let b = self.bounds[i];
            if a.start <= b.end && b.start <= a.end {
                let ghost before = r@;
                r.push(b.id);
                proof {
                    assert forall|x: GameObjectId| #[trigger]
                        r@.contains(x) <==> before.contains(x) || x == b.id by {
                        if r@.contains(x) {
                            let k = choose|k: int| 0 <= k < r@.len() && r@[k] == x;
                            if k < before.len() {
                                assert(before[k] == x);
                            }
                        }
                        if before.contains(x) {
                            let k = choose|k: int| 0 <= k < before.len() && before[k] == x;
                            assert(r@[k] == x);
                        }
                        if x == b.id {
                            assert(r@[before.len() as int] == x);
                        }
                    }
                }
            }
            proof {
                assert forall|other: GameObjectId| #[trigger]
                    r@.contains(other) <==> exists|k: int|
                        0 <= k < i + 1 && self.bounds@[k].id == other && spec_overlaps(
                            a,
                            self.bounds@[k],
                        ) by {
                    if exists|k: int|
                        0 <= k < i + 1 && self.bounds@[k].id == other && spec_overlaps(
                            a,
                            self.bounds@[k],
                        ) {
                        let k = choose|k: int|
                            0 <= k < i + 1 && self.bounds@[k].id == other && spec_overlaps(
                                a,
                                self.bounds@[k],
                            );
                        if k < i {
                        } else {
                            assert(self.bounds@[k] == b);
                        }
                    }
                }
            }
            i = i + 1;
        }
        proof {
            assert forall|other: GameObjectId| #[trigger]
                r@.contains(other) <==> self@.contains_key(id) && self@.contains_key(other)
                    && spec_overlaps(self@[id], self@[other]) by {
                if r@.contains(other) {
                    let k = choose|k: int|
                        0 <= k < n && self.bounds@[k].id == other && spec_overlaps(
                            a,
                            self.bounds@[k],
                        );
                    assert(self.model@.contains_key(self.bounds@[k].id));
                }
                if self@.contains_key(other) && spec_overlaps(self@[id], self@[other]) {
                    let k = choose|k: int| 0 <= k < n && self.bounds@[k].id == other;
                    assert(self.model@.contains_key(self.bounds@[k].id));
                }
            }
        }
        r
    }

    /// Every ordered pair `(id, other)` where `other` is a candidate of `id`,
    /// over all tracked objects: the pairs to seed a tick with.
    pub fn candidate_pairs(&self) -> (r: Vec<(GameObjectId, GameObjectId)>)
        requires
            self.wf(),
        ensures
            forall|id: GameObjectId, other: GameObjectId| #[trigger]
                r@.contains((id, other)) <==> spec_is_candidate(self@, id, other),
    {
        let mut r: Vec<(GameObjectId, GameObjectId)> = Vec::new();
        let n = self.bounds.len();
        let mut i: usize = 0;
        while i < n
            invariant
                n == self.bounds@.len(),
                i <= n,
                self.wf(),
                forall|id: GameObjectId, other: GameObjectId| #[trigger]
                    r@.contains((id, other)) <==> (exists|k: int|
                        0 <= k < i && self.bounds@[k].id == id) && spec_is_candidate(
                        self@,
                        id,
                        other,
                    ),
            decreases n - i,
        {
            let b = self.bounds[i];
            assert(self.model@.contains_key(self.bounds@[i as int].id));
            let mut found: Vec<GameObjectId> = Vec::new();
            self.collect_candidates(b.start, b.end, &mut found);
            let m = found.len();
            let mut j: usize = 0;
            let ghost r0 = r@;
            while j < m
                invariant
                    m == found@.len(),
                    j <= m,
                    forall|x: (GameObjectId, GameObjectId)| #[trigger]
                        r@.contains(x) <==> r0.contains(x) || (x.0 == b.id && exists|k: int|
                            0 <= k < j && found@[k] == x.1),
                decreases m - j,
            {
                let ghost before = r@;
                r.push((b.id, found[j]));
                proof {
                    assert forall|x: (GameObjectId, GameObjectId)| #[trigger]
                        r@.contains(x) <==> before.contains(x) || x == (b.id, found@[j as int]) by {
                        if r@.contains(x) {
                            let k = choose|k: int| 0 <= k < r@.len() && r@[k] == x;
                            if k < before.len() {
                                assert(before[k] == x);
                            }
                        }
                        if before.contains(x) {
                            let k = choose|k: int| 0 <= k < before.len() && before[k] == x;
                            assert(r@[k] == x);
                        }
                        if x == (b.id, found@[j as int]) {
                            assert(r@[before.len() as int] == x);
                        }
                    }
                    assert forall|x: (GameObjectId, GameObjectId)| #[trigger]
                        r@.contains(x) <==> r0.contains(x) || (x.0 == b.id && exists|k: int|
                            0 <= k < j + 1 && found@[k] == x.1) by {
                        if x.0 == b.id && exists|k: int| 0 <= k < j + 1 && found@[k] == x.1 {
                            let k = choose|k: int| 0 <= k < j + 1 && found@[k] == x.1;
                            if k < j {
                            } else {
                                assert(x == (b.id, found@[j as int]));
                            }
                        }
                    }
                }
                j = j + 1;
            }
            proof {
                assert forall|id: GameObjectId, other: GameObjectId| #[trigger]
                    r@.contains((id, other)) <==> (exists|k: int|
                        0 <= k < i + 1 && self.bounds@[k].id == id) && spec_is_candidate(
                        self@,
                        id,
                        other,
                    ) by {
                    assert(found@.contains(other) <==> exists|k: int|
                        0 <= k < m && found@[k] == other);
                    if exists|k: int| 0 <= k < i + 1 && self.bounds@[k].id == id {
                        let k = choose|k: int| 0 <= k < i + 1 && self.bounds@[k].id == id;
                        if k < i {
                            assert(exists|k: int| 0 <= k < i && self.bounds@[k].id == id);
                        } else {
                            assert(id == b.id);
                        }
                    }
                    if id == b.id {
                        assert(self.bounds@[i as int].id == id);
                    }
                    if r0.contains((id, other)) {
                        let k = choose|k: int| 0 <= k < i && self.bounds@[k].id == id;
                        assert(self.bounds@[k].id == id);
                    }
                }
            }
            i = i + 1;
        }
        proof {
            assert forall|id: GameObjectId, other: GameObjectId| #[trigger]
                r@.contains((id, other)) <==> spec_is_candidate(self@, id, other) by {
                if self@.contains_key(id) {
                    let k = choose|k: int| 0 <= k < n && self.bounds@[k].id == id;
                    assert(self.bounds@[k].id == id);
                }
            }
        }
        r
    }
}

/// Seeding a tick misses no overlap: for any two tracked objects whose
/// well-formed extents overlap, the pair is among the candidate pairs in
/// at least one order.
pub proof fn lemma_candidate_pairs_sound(bp: &BroadPhase, a: GameObjectId, b: GameObjectId)
    requires
        bp.wf(),
        bp@.contains_key(a),
        bp@.contains_key(b),
        bp@[a].start <= bp@[a].end,
        bp@[b].start <= bp@[b].end,
        spec_overlaps(bp@[a], bp@[b]),
    ensures
        spec_is_candidate(bp@, a, b) || spec_is_candidate(bp@, b, a),
{
    lemma_overlap_is_reached(bp@[a], bp@[b]);
}

} // verus!
