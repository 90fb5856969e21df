use vstd::prelude::*;

verus! {

use crate::broad_phase::{spec_is_candidate, spec_overlaps, BroadPhase, XBound};
use crate::collision::{
    directed_tests,
    spec_directed_tests,
    spec_earliest,
    spec_may_collide,
    spec_no_later,
    CollisionInfo,
    CollisionQueue,
    GameObjectId,
    PlayerToken,
};
use crate::structure::lemma_push_contains;
use std::collections::HashMap;
use vstd::multiset::Multiset;

broadcast use vstd::std_specs::hash::group_hash_axioms;

/// What the collision phase of a tick needs of one live object: its swept
/// extent and its owner. The object's id is `bound.id`.
#[derive(Clone, Copy, Debug, PartialEq, Eq, Structural)]
pub struct TrackedObject {
    pub bound: XBound,
    pub owner: Option<PlayerToken>,
}

/// The next thing the caller has to do for the collision phase.
#[derive(Clone, Copy, Debug, PartialEq, Eq, Structural)]
pub enum PhaseStep {
    /// Run the narrow-phase test with the first object as the sharp one and
    /// report the outcome with `report_hit`.
    Test(GameObjectId, GameObjectId),
    /// The earliest predicted impact: resolve it if it is still current
    /// (see `collision::is_current`) and then call `report_resolution`.
    Resolve(CollisionInfo),
    /// No test is pending and no impact is predicted: the phase is over.
    Finished,
}

/// The owner recorded for `id`.
fn owner_of(owners: &HashMap<GameObjectId, Option<PlayerToken>>, id: GameObjectId) -> (r: Option<
    PlayerToken,
>)
    requires
        owners@.contains_key(id),
    ensures
        r == owners@[id],
{
    match owners.get(&id) {
        Some(owner) => *owner,
        None => None,
    }
}

/// The step that follows from pending tests `pending` and held events
/// `events`: the last pending test, else the earliest event, else the end.
/// Being a function of these two values alone, it makes the order of tests
/// and resolutions the same on every run from the same state.
pub open spec fn spec_next_step(
    pending: Seq<(GameObjectId, GameObjectId)>,
    events: Multiset<CollisionInfo>,
) -> PhaseStep {
    if pending.len() > 0 {
        PhaseStep::Test(pending.last().0, pending.last().1)
    } else if events.len() > 0 {
        PhaseStep::Resolve(spec_earliest(events))
    } else {
        PhaseStep::Finished
    }
}

/// The collision phase of one tick, as a state machine: it decides which
/// narrow-phase tests to run and in which order impacts are resolved, while
/// the caller performs the geometry and the physics.
pub struct CollisionPhase {
    sweep: BroadPhase,
    owners: HashMap<GameObjectId, Option<PlayerToken>>,
    pending: Vec<(GameObjectId, GameObjectId)>,
    queue: CollisionQueue,
}

/// `(x, y)` is a test for the objects in `owners`: two distinct objects that
/// do not share an owner.
pub open spec fn spec_allowed_test(
    owners: Map<GameObjectId, Option<PlayerToken>>,
    t: (GameObjectId, GameObjectId),
) -> bool {
    &&& owners.contains_key(t.0)
    &&& owners.contains_key(t.1)
    &&& t.0 != t.1
    &&& spec_may_collide(owners[t.0], owners[t.1])
}

/// Adds the tests of the pair `a`, `b` to `pending`, each at most once.
fn add_tests(
    pending: &mut Vec<(GameObjectId, GameObjectId)>,
    a: GameObjectId,
    owner_a: Option<PlayerToken>,
    b: GameObjectId,
    owner_b: Option<PlayerToken>,
)
    ensures
        forall|t: (GameObjectId, GameObjectId)| #[trigger]
            final(pending)@.contains(t) <==> old(pending)@.contains(t) || spec_directed_tests(
                a,
                owner_a,
                b,
                owner_b,
            ).contains(t),
{
    let tests = directed_tests(a, owner_a, b, owner_b);
    let n = tests.len();
    let mut i: usize = 0;
    let ghost start = pending@;
    while i < n
        invariant
            n == tests@.len(),
            i <= n,
            tests@ == spec_directed_tests(a, owner_a, b, owner_b),
            forall|t: (GameObjectId, GameObjectId)| #[trigger]
                pending@.contains(t) <==> start.contains(t) || tests@.take(i as int).contains(t),
        decreases n - i,
    {
        let t = tests[i];
        let ghost before = pending@;
        let mut present = false;
        let m = pending.len();
        let mut k: usize = 0;
        while k < m
            invariant
                m == pending@.len(),
                k <= m,
                present == exists|q: int| 0 <= q < k && pending@[q] == t,
            decreases m - k,
        {
            if pending[k].0 == t.0 && pending[k].1 == t.1 {
                present = true;
            }
            k = k + 1;
        }
        if !present {
            pending.push(t);
        }
        proof {
            lemma_push_contains(before, t);
            lemma_push_contains(tests@.take(i as int), t);
            assert(tests@.take(i + 1) =~= tests@.take(i as int).push(t));
        }
        i = i + 1;
    }
    assert(tests@.take(n as int) =~= tests@);
}

impl CollisionPhase {
    /// The tracked extent of each object.
    pub closed spec fn extents(&self) -> Map<GameObjectId, XBound> {
        self.sweep@
    }

    /// The owner of each tracked object.
    pub closed spec fn owner_map(&self) -> Map<GameObjectId, Option<PlayerToken>> {
        self.owners@
    }

    /// The tests still to run, each as `(sharp, other)`.
    pub closed spec fn pending(&self) -> Seq<(GameObjectId, GameObjectId)> {
        self.pending@
    }

    /// The predicted impacts not yet handed out.
    pub closed spec fn events(&self) -> Multiset<CollisionInfo> {
        self.queue@
    }

    pub closed spec fn wf(&self) -> bool {
        &&& self.sweep.wf()
        &&& self.queue.wf()
        &&& self.owners@.dom() == self.sweep@.dom()
        &&& forall|t: (GameObjectId, GameObjectId)| #[trigger]
            self.pending@.contains(t) ==> spec_allowed_test(self.owners@, t)
    }

    /// Starts the collision phase for the live objects: tracks their extents
    /// and owners, and schedules both tests of every pair that the sweep
    /// finds and that does not share an owner.
    pub fn start(objects: &Vec<TrackedObject>) -> (r: Self)
        requires
            forall|i: int, j: int|
                0 <= i < j < objects@.len() ==> objects@[i].bound.id != objects@[j].bound.id,
        ensures
            r.wf(),
            r.events() == Multiset::<CollisionInfo>::empty(),
            r.owner_map().dom() == r.extents().dom(),
            forall|id: GameObjectId| #[trigger]
                r.extents().contains_key(id) <==> exists|i: int|
                    0 <= i < objects@.len() && objects@[i].bound.id == id,
            forall|i: int|
                0 <= i < objects@.len() ==> r.extents()[objects@[i].bound.id] == objects@[i].bound
                    && r.owner_map()[objects@[i].bound.id] == objects@[i].owner,
            forall|t: (GameObjectId, GameObjectId)| #[trigger]
                r.pending().contains(t) <==> spec_allowed_test(r.owner_map(), t) && (
                spec_is_candidate(r.extents(), t.0, t.1) || spec_is_candidate(
                    r.extents(),
                    t.1,
                    t.0,
                )),
            forall|x: GameObjectId, y: GameObjectId|
                #![trigger r.pending().contains((x, y))]
                spec_allowed_test(r.owner_map(), (x, y)) && r.extents()[x].start
                    <= r.extents()[x].end && r.extents()[y].start <= r.extents()[y].end
                    && spec_overlaps(r.extents()[x], r.extents()[y]) ==> r.pending().contains(
                    (x, y),
                ),
    {
        let mut sweep = BroadPhase::new();
        let mut owners: HashMap<GameObjectId, Option<PlayerToken>> = HashMap::new();
        let n = objects.len();
        let mut i: usize = 0;
        while i < n
            invariant
                n == objects@.len(),
                i <= n,
                forall|p: int, q: int|
                    0 <= p < q < objects@.len() ==> objects@[p].bound.id != objects@[q].bound.id,
                sweep.wf(),
                owners@.dom() == sweep@.dom(),
                forall|id: GameObjectId| #[trigger]
                    sweep@.contains_key(id) <==> exists|k: int|
                        0 <= k < i && objects@[k].bound.id == id,
                forall|k: int|
                    0 <= k < i ==> sweep@[objects@[k].bound.id] == objects@[k].bound
                        && owners@[objects@[k].bound.id] == objects@[k].owner,
            decreases n - i,
        {
            let o = objects[i];
            proof {
                if sweep@.contains_key(o.bound.id) {
                    let k = choose|k: int| 0 <= k < i && objects@[k].bound.id == o.bound.id;
                    assert(false);
                }
            }
            sweep.update(o.bound);
            owners.insert(o.bound.id, o.owner);
            proof {
                assert(owners@.dom() =~= sweep@.dom());
                assert forall|id: GameObjectId| #[trigger]
                    sweep@.contains_key(id) <==> exists|k: int|
                        0 <= k < i + 1 && objects@[k].bound.id == id by {
                    if id == o.bound.id {
                        assert(objects@[i as int].bound.id == id);
                    }
                }
                assert forall|k: int| 0 <= k < i + 1 implies sweep@[objects@[k].bound.id]
                    == objects@[k].bound && owners@[objects@[k].bound.id] == objects@[k].owner by {
                    if k < i {
                        assert(objects@[k].bound.id != o.bound.id);
                    }
                }
            }
            i = i + 1;
        }
        let ghost om = owners@;
        let mut phase = CollisionPhase { sweep, owners, pending: Vec::new(), queue: CollisionQueue::new() };
        assert(phase.pending@ =~= Seq::<(GameObjectId, GameObjectId)>::empty());
        let pairs = phase.sweep.candidate_pairs();
        let m = pairs.len();
        let mut j: usize = 0;
        while j < m
            invariant
                m == pairs@.len(),
                j <= m,
                phase.wf(),
                phase.sweep@ == sweep@,
                phase.owners@ == om,
                phase.events() == Multiset::<CollisionInfo>::empty(),
                forall|a: GameObjectId, b: GameObjectId| #[trigger]
                    pairs@.contains((a, b)) <==> spec_is_candidate(sweep@, a, b),
                forall|t: (GameObjectId, GameObjectId)| #[trigger]
                    phase.pending@.contains(t) <==> exists|k: int|
                        0 <= k < j && #[trigger] spec_directed_tests(
                            pairs@[k].0,
                            om[pairs@[k].0],
                            pairs@[k].1,
                            om[pairs@[k].1],
                        ).contains(t),
            decreases m - j,
        {
            let (a, b) = pairs[j];
            proof {
                assert(pairs@.contains((a, b)));
            }
            let owner_a = owner_of(&phase.owners, a);
            let owner_b = owner_of(&phase.owners, b);
            let ghost before = phase.pending@;
            add_tests(&mut phase.pending, a, owner_a, b, owner_b);
            proof {
                assert forall|t: (GameObjectId, GameObjectId)| #[trigger]
                    phase.pending@.contains(t) implies spec_allowed_test(om, t) by {
                    if !before.contains(t) {
                        assert(spec_directed_tests(a, owner_a, b, owner_b).contains(t));
                    }
                }
                assert forall|t: (GameObjectId, GameObjectId)| #[trigger]
                    phase.pending@.contains(t) <==> exists|k: int|
                        0 <= k < j + 1 && #[trigger] spec_directed_tests(
                            pairs@[k].0,
                            om[pairs@[k].0],
                            pairs@[k].1,
                            om[pairs@[k].1],
                        ).contains(t) by {
                    if exists|k: int|
                        0 <= k < j + 1 && #[trigger] spec_directed_tests(
                            pairs@[k].0,
                            om[pairs@[k].0],
                            pairs@[k].1,
                            om[pairs@[k].1],
                        ).contains(t) {
                        let k = choose|k: int|
                            0 <= k < j + 1 && #[trigger] spec_directed_tests(
                                pairs@[k].0,
                                om[pairs@[k].0],
                                pairs@[k].1,
                                om[pairs@[k].1],
                            ).contains(t);
                        if k == j {
                            assert(spec_directed_tests(a, owner_a, b, owner_b).contains(t));
                        }
                    }
                    if spec_directed_tests(a, owner_a, b, owner_b).contains(t) {
                        assert(pairs@[j as int] == (a, b));
                    }
                }
            }
            j = j + 1;
        }
        proof {
            assert forall|t: (GameObjectId, GameObjectId)| #[trigger]
                phase.pending@.contains(t) <==> spec_allowed_test(om, t) && (spec_is_candidate(
                    sweep@,
                    t.0,
                    t.1,
                ) || spec_is_candidate(sweep@, t.1, t.0)) by {
                let dt = |k: int|
                    spec_directed_tests(pairs@[k].0, om[pairs@[k].0], pairs@[k].1, om[pairs@[k].1]);
                if phase.pending@.contains(t) {
                    let k = choose|k: int|
                        0 <= k < m && #[trigger] spec_directed_tests(
                            pairs@[k].0,
                            om[pairs@[k].0],
                            pairs@[k].1,
                            om[pairs@[k].1],
                        ).contains(t);
                    assert(pairs@.contains(pairs@[k]));
                    let (a, b) = pairs@[k];
                    assert(spec_is_candidate(sweep@, a, b));
                    let d = spec_directed_tests(a, om[a], b, om[b]);
                    assert(d.len() == 2 && (t == d[0] || t == d[1]));
                }
                if spec_allowed_test(om, t) && spec_is_candidate(sweep@, t.0, t.1) {
                    assert(pairs@.contains((t.0, t.1)));
                    let k = choose|k: int| 0 <= k < m && pairs@[k] == (t.0, t.1);
                    assert(spec_directed_tests(t.0, om[t.0], t.1, om[t.1])[0] == t);
                    assert(dt(k).contains(t));
                }
                if spec_allowed_test(om, t) && spec_is_candidate(sweep@, t.1, t.0) {
                    assert(pairs@.contains((t.1, t.0)));
                    let k = choose|k: int| 0 <= k < m && pairs@[k] == (t.1, t.0);
                    assert(spec_may_collide(om[t.1], om[t.0]));
                    assert(spec_directed_tests(t.1, om[t.1], t.0, om[t.0])[1] == t);
                    assert(dt(k).contains(t));
                }
            }
        }
        proof {
            assert forall|x: GameObjectId, y: GameObjectId|
                #![trigger phase.pending@.contains((x, y))]
                spec_allowed_test(om, (x, y)) && sweep@[x].start <= sweep@[x].end && sweep@[y].start
                    <= sweep@[y].end && spec_overlaps(sweep@[x], sweep@[y])
                    implies phase.pending@.contains((x, y)) by {
                crate::broad_phase::lemma_overlap_is_reached(sweep@[x], sweep@[y]);
                assert(phase.pending@.contains((x, y)) <==> spec_allowed_test(om, (x, y)) && (
                spec_is_candidate(sweep@, x, y) || spec_is_candidate(sweep@, y, x)));
            }
        }
        phase
    }

    /// Hands out the next step: a pending test while there is one, else the
    /// earliest predicted impact, else `Finished`.
    pub fn next_step(&mut self) -> (r: PhaseStep)
        requires
            old(self).wf(),
        ensures
            final(self).wf(),
            final(self).extents() == old(self).extents(),
            final(self).owner_map() == old(self).owner_map(),
            r == spec_next_step(old(self).pending(), old(self).events()),
            old(self).pending().len() > 0 ==> {
                &&& r == PhaseStep::Test(old(self).pending().last().0, old(self).pending().last().1)
                &&& spec_allowed_test(old(self).owner_map(), old(self).pending().last())
                &&& final(self).pending() == old(self).pending().drop_last()
                &&& final(self).events() == old(self).events()
            },
            old(self).pending().len() == 0 && old(self).events().len() > 0 ==> {
                &&& r is Resolve
                &&& old(self).events().contains(r->Resolve_0)
                &&& forall|x: CollisionInfo| #[trigger]
                    old(self).events().contains(x) ==> spec_no_later(r->Resolve_0, x)
                &&& final(self).events() == old(self).events().remove(r->Resolve_0)
                &&& final(self).pending() == old(self).pending()
            },
            old(self).pending().len() == 0 && old(self).events().len() == 0 ==> {
                &&& r == PhaseStep::Finished
                &&& final(self).events() == old(self).events()
                &&& final(self).pending() == old(self).pending()
            },
    {
        if self.pending.len() > 0 {
            let ghost p0 = self.pending@;
            let t = self.pending.pop().unwrap();
            proof {
                assert(p0 == self.pending@.push(t));
                lemma_push_contains(self.pending@, t);
                assert(p0.contains(t));
                assert forall|u: (GameObjectId, GameObjectId)| #[trigger]
                    self.pending@.contains(u) implies spec_allowed_test(self.owners@, u) by {
                    assert(p0.contains(u));
                }
            }
            return PhaseStep::Test(t.0, t.1);
        }
        match self.queue.pop() {
            Some(ev) => PhaseStep::Resolve(ev),
            None => PhaseStep::Finished,
        }
    }

    /// Records the outcome of a narrow-phase test: a predicted impact, or
    /// none.
    pub fn report_hit(&mut self, hit: Option<CollisionInfo>)
        requires
            old(self).wf(),
        ensures
            final(self).wf(),
            final(self).extents() == old(self).extents(),
            final(self).owner_map() == old(self).owner_map(),
            final(self).pending() == old(self).pending(),
            final(self).events() == match hit {
                Some(ev) => old(self).events().insert(ev),
                None => old(self).events(),
            },
    {
        if let Some(ev) = hit {
            self.queue.push(ev);
        }
    }

    /// Records that an impact between two tracked objects was resolved and
    /// gives their new extents: both are re-indexed and tested again, in both
    /// roles, against every object whose extent overlaps theirs.
    pub fn report_resolution(&mut self, sharp: XBound, other: XBound)
        requires
            old(self).wf(),
            old(self).extents().contains_key(sharp.id),
            old(self).extents().contains_key(other.id),
        ensures
            final(self).wf(),
            final(self).extents() == old(self).extents().insert(sharp.id, sharp).insert(
                other.id,
                other,
            ),
            final(self).owner_map() == old(self).owner_map(),
            final(self).events() == old(self).events(),
            forall|t: (GameObjectId, GameObjectId)| #[trigger]
                final(self).pending().contains(t) <==> old(self).pending().contains(t) || (
                spec_allowed_test(final(self).owner_map(), t) && ((t.0 == sharp.id || t.0
                    == other.id || t.1 == sharp.id || t.1 == other.id) && (spec_retest(
                    final(self).extents(),
                    sharp.id,
                    other.id,
                    t,
                )))),
    {
        let ghost om = self.owners@;
        self.sweep.update(sharp);
        self.sweep.update(other);
        proof {
            assert(self.sweep@.dom() =~= om.dom());
        }
        let ids = [sharp.id, other.id];
        let ghost p0 = self.pending@;
        let mut i: usize = 0;
        while i < 2
            invariant
                i <= 2,
                ids@ == seq![sharp.id, other.id],
                self.wf(),
                self.owners@ == om,
                self.sweep@ == old(self).extents().insert(sharp.id, sharp).insert(other.id, other),
                self.queue@ == old(self).events(),
                forall|t: (GameObjectId, GameObjectId)| #[trigger]
                    self.pending@.contains(t) <==> p0.contains(t) || (spec_allowed_test(om, t)
                        && exists|k: int|
                        0 <= k < i && #[trigger] spec_retest_from(self.sweep@, ids@[k], t)),
            decreases 2 - i,
        {
            let x = ids[i];
            let found = self.sweep.overlapping(x);
            let owner_x = owner_of(&self.owners, x);
            let m = found.len();
            let mut j: usize = 0;
            let ghost pi = self.pending@;
            while j < m
                invariant
                    m == found@.len(),
                    j <= m,
                    self.wf(),
                    self.owners@ == om,
                    self.sweep@ == old(self).extents().insert(sharp.id, sharp).insert(other.id, other),
                    self.queue@ == old(self).events(),
                    om.contains_key(x),
                    owner_x == om[x],
                    forall|y: GameObjectId| #[trigger]
                        found@.contains(y) <==> self.sweep@.contains_key(x) && self.sweep@.contains_key(y)
                            && spec_overlaps(self.sweep@[x], self.sweep@[y]),
                    forall|t: (GameObjectId, GameObjectId)| #[trigger]
                        self.pending@.contains(t) <==> pi.contains(t) || exists|q: int|
                            0 <= q < j && #[trigger] spec_directed_tests(
                                x,
                                om[x],
                                found@[q],
                                om[found@[q]],
                            ).contains(t),
                decreases m - j,
            {
                let y = found[j];
                assert(found@.contains(y));
                let owner_y = owner_of(&self.owners, y);
                let ghost before = self.pending@;
                add_tests(&mut self.pending, x, owner_x, y, owner_y);
                proof {
                    assert forall|t: (GameObjectId, GameObjectId)| #[trigger]
                        self.pending@.contains(t) implies spec_allowed_test(self.owners@, t) by {
                        if !before.contains(t) {
                            assert(spec_directed_tests(x, owner_x, y, owner_y).contains(t));
                        }
                    }
                    assert forall|t: (GameObjectId, GameObjectId)| #[trigger]
                        self.pending@.contains(t) <==> pi.contains(t) || exists|q: int|
                            0 <= q < j + 1 && #[trigger] spec_directed_tests(
                                x,
                                om[x],
                                found@[q],
                                om[found@[q]],
                            ).contains(t) by {
                        if exists|q: int|
                            0 <= q < j + 1 && #[trigger] spec_directed_tests(
                                x,
                                om[x],
                                found@[q],
                                om[found@[q]],
                            ).contains(t) {
                            let q = choose|q: int|
                                0 <= q < j + 1 && #[trigger] spec_directed_tests(
                                    x,
                                    om[x],
                                    found@[q],
                                    om[found@[q]],
                                ).contains(t);
                            if q == j {
                                assert(spec_directed_tests(x, owner_x, y, owner_y).contains(t));
                            }
                        }
                        if spec_directed_tests(x, owner_x, y, owner_y).contains(t) {
                            assert(found@[j as int] == y);
                        }
                    }
                }
                j = j + 1;
            }
            proof {
                assert forall|t: (GameObjectId, GameObjectId)| #[trigger]
                    self.pending@.contains(t) <==> p0.contains(t) || (spec_allowed_test(om, t)
                        && exists|k: int|
                        0 <= k < i + 1 && #[trigger] spec_retest_from(self.sweep@, ids@[k], t)) by {
                    if self.pending@.contains(t) && !pi.contains(t) {
                        let q = choose|q: int|
                            0 <= q < m && #[trigger] spec_directed_tests(
                                x,
                                om[x],
                                found@[q],
                                om[found@[q]],
                            ).contains(t);
                        assert(found@.contains(found@[q]));
                        assert(spec_retest_from(self.sweep@, ids@[i as int], t));
                    }
                    if spec_allowed_test(om, t) && spec_retest_from(self.sweep@, x, t) {
                        let y = if t.0 == x { t.1 } else { t.0 };
                        assert(found@.contains(y));
                        let q = choose|q: int| 0 <= q < m && found@[q] == y;
                        let d = spec_directed_tests(x, om[x], y, om[y]);
                        assert(d.len() == 2 && d[0] == (x, y) && d[1] == (y, x));
                        assert(spec_directed_tests(x, om[x], found@[q], om[found@[q]]).contains(t));
                    }
                    if exists|k: int|
                        0 <= k < i + 1 && #[trigger] spec_retest_from(self.sweep@, ids@[k], t) {
                        let k = choose|k: int|
                            0 <= k < i + 1 && #[trigger] spec_retest_from(self.sweep@, ids@[k], t);
                        if k == i {
                            assert(ids@[k] == x);
                        }
                    }
                }
            }
            i = i + 1;
        }
        proof {
            assert forall|t: (GameObjectId, GameObjectId)| #[trigger]
                self.pending@.contains(t) <==> p0.contains(t) || (spec_allowed_test(om, t) && ((t.0
                    == sharp.id || t.0 == other.id || t.1 == sharp.id || t.1 == other.id)
                    && spec_retest(self.sweep@, sharp.id, other.id, t))) by {
                if spec_retest(self.sweep@, sharp.id, other.id, t) {
                    if spec_retest_from(self.sweep@, sharp.id, t) {
                        assert(spec_retest_from(self.sweep@, ids@[0], t));
                    } else {
                        assert(spec_retest_from(self.sweep@, ids@[1], t));
                    }
                }
            }
        }
    }

    /// Stops tracking a destroyed object: it leaves the sweep and the owner
    /// table, and every pending test that involves it is dropped. Predicted
    /// impacts already held stay; they are stale and discarded when handed out.
    pub fn retire(&mut self, id: GameObjectId)
        requires
            old(self).wf(),
            old(self).extents().contains_key(id),
        ensures
            final(self).wf(),
            final(self).extents() == old(self).extents().remove(id),
            final(self).owner_map() == old(self).owner_map().remove(id),
            final(self).events() == old(self).events(),
            forall|t: (GameObjectId, GameObjectId)| #[trigger]
                final(self).pending().contains(t) <==> old(self).pending().contains(t) && t.0 != id
                    && t.1 != id,
    {
        self.sweep.remove(id);
        self.owners.remove(&id);
        proof {
            assert(self.owners@.dom() =~= self.sweep@.dom());
        }
        let mut kept: Vec<(GameObjectId, GameObjectId)> = Vec::new();
        let n = self.pending.len();
        let mut i: usize = 0;
        while i < n
            invariant
                n == self.pending@.len(),
                i <= n,
                forall|t: (GameObjectId, GameObjectId)| #[trigger]
                    kept@.contains(t) <==> exists|k: int|
                        0 <= k < i && self.pending@[k] == t && t.0 != id && t.1 != id,
            decreases n - i,
        {
            let t = self.pending[i];
            if t.0 != id && t.1 != id {
                let ghost before = kept@;
                kept.push(t);
                proof {
                    lemma_push_contains(before, t);
                }
            }
            proof {
                assert forall|u: (GameObjectId, GameObjectId)| #[trigger]
                    kept@.contains(u) <==> exists|k: int|
                        0 <= k < i + 1 && self.pending@[k] == u && u.0 != id && u.1 != id by {
                    if exists|k: int|
                        0 <= k < i + 1 && self.pending@[k] == u && u.0 != id && u.1 != id {
                        let k = choose|k: int|
                            0 <= k < i + 1 && self.pending@[k] == u && u.0 != id && u.1 != id;
                        if k < i {
                            assert(exists|q: int|
                                0 <= q < i && self.pending@[q] == u && u.0 != id && u.1 != id);
                        }
                    }
                }
            }
            i = i + 1;
        }
        let ghost p0 = self.pending@;
        self.pending = kept;
        proof {
            assert forall|t: (GameObjectId, GameObjectId)| #[trigger]
                self.pending@.contains(t) <==> p0.contains(t) && t.0 != id && t.1 != id by {
                if p0.contains(t) && t.0 != id && t.1 != id {
                    let k = choose|k: int| 0 <= k < p0.len() && p0[k] == t;
                    assert(exists|q: int| 0 <= q < n && p0[q] == t && t.0 != id && t.1 != id);
                }
            }
            assert forall|t: (GameObjectId, GameObjectId)| #[trigger]
                self.pending@.contains(t) implies spec_allowed_test(self.owners@, t) by {
                assert(p0.contains(t));
                assert(spec_allowed_test(old(self).owners@, t));
            }
        }
    }
}

/// `t` is a test between object `x` and an object whose extent overlaps that
/// of `x`, in either role.
pub open spec fn spec_retest_from(
    extents: Map<GameObjectId, XBound>,
    x: GameObjectId,
    t: (GameObjectId, GameObjectId),
) -> bool {
    let y = if t.0 == x {
        t.1
    } else {
        t.0
    };
    (t.0 == x || t.1 == x) && extents.contains_key(x) && extents.contains_key(y) && spec_overlaps(
        extents[x],
        extents[y],
    )
}

/// `t` is a test to run again after `a` and `b` changed.
pub open spec fn spec_retest(
    extents: Map<GameObjectId, XBound>,
    a: GameObjectId,
    b: GameObjectId,
    t: (GameObjectId, GameObjectId),
) -> bool {
    spec_retest_from(extents, a, t) || spec_retest_from(extents, b, t)
}

} // verus!
