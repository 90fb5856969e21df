use vstd::prelude::*;

verus! {

use vstd::multiset::Multiset;
use vstd::seq_lib::{to_multiset_contains, to_multiset_insert, to_multiset_remove};

/// Identifier of a simulated object.
pub type GameObjectId = u16;

/// Identifier of a player who may own objects.
pub type PlayerToken = u64;

/// One side of a predicted impact: the object, its body version when the
/// impact was detected, and a vertex index (sharp role) or edge index (other role).
#[derive(Clone, Copy, Debug, PartialEq, Eq, Structural)]
pub struct Participant {
    pub id: GameObjectId,
    pub version: usize,
    pub index: usize,
}

/// A predicted impact between a vertex of the sharp object and an edge of the
/// other object.
///
/// `time` is the impact time written as an order key (see
/// `coordinate::ordered_key`): comparing keys compares the times.
#[derive(Clone, Copy, Debug, PartialEq, Eq, Structural)]
pub struct CollisionInfo {
    pub time: u32,
    pub sharp_obj: Participant,
    pub other_obj: Participant,
}

/// The current state of one body, as far as the staleness test reads it.
#[derive(Clone, Copy, Debug, PartialEq, Eq, Structural)]
pub struct BodyStamp {
    pub version: usize,
    pub alive: bool,
}

/// Strict lexicographic order of two participant records.
pub open spec fn participant_lt(a: Participant, b: Participant) -> bool {
    a.id < b.id || (a.id == b.id && (a.version < b.version || (a.version == b.version
        && a.index < b.index)))
}

/// Events are ordered by time, then by the sharp participant, then by the
/// other one: a strict total order, so equal times are broken deterministically.
pub open spec fn spec_precedes(a: CollisionInfo, b: CollisionInfo) -> bool {
    a.time < b.time || (a.time == b.time && (participant_lt(a.sharp_obj, b.sharp_obj) || (
    a.sharp_obj == b.sharp_obj && participant_lt(a.other_obj, b.other_obj))))
}

/// `a` comes no later than `b`.
pub open spec fn spec_no_later(a: CollisionInfo, b: CollisionInfo) -> bool {
    a == b || spec_precedes(a, b)
}

/// Returns whether event `a` is to be handled strictly before event `b`.
pub fn precedes(a: &CollisionInfo, b: &CollisionInfo) -> (r: bool)
    ensures
        r == spec_precedes(*a, *b),
{
    if a.time != b.time {
        return a.time < b.time;
    }
    if a.sharp_obj.id != b.sharp_obj.id {
        return a.sharp_obj.id < b.sharp_obj.id;
    }
    if a.sharp_obj.version != b.sharp_obj.version {
        return a.sharp_obj.version < b.sharp_obj.version;
    }
    if a.sharp_obj.index != b.sharp_obj.index {
        return a.sharp_obj.index < b.sharp_obj.index;
    }
    if a.other_obj.id != b.other_obj.id {
        return a.other_obj.id < b.other_obj.id;
    }
    if a.other_obj.version != b.other_obj.version {
        return a.other_obj.version < b.other_obj.version;
    }
    a.other_obj.index < b.other_obj.index
}

/// A prediction is still valid when both bodies are at the version recorded
/// at detection and both objects are alive.
pub open spec fn spec_is_current(ev: CollisionInfo, sharp: BodyStamp, other: BodyStamp) -> bool {
    &&& ev.sharp_obj.version == sharp.version
    &&& ev.other_obj.version == other.version
    &&& sharp.alive
    &&& other.alive
}

/// Decides whether a popped event is to be resolved (`true`) or discarded as
/// stale (`false`), from the current stamps of its two participants.
pub fn is_current(ev: &CollisionInfo, sharp: BodyStamp, other: BodyStamp) -> (r: bool)
    ensures
        r == spec_is_current(*ev, sharp, other),
{
    ev.sharp_obj.version == sharp.version && ev.other_obj.version == other.version && sharp.alive
        && other.alive
}

/// Two objects may collide unless they share the same owner.
pub open spec fn spec_may_collide(owner1: Option<PlayerToken>, owner2: Option<PlayerToken>) -> bool {
    owner1.is_none() || owner1 != owner2
}

/// Returns whether objects with these owners take part in collisions with
/// each other.
pub fn may_collide(owner1: Option<PlayerToken>, owner2: Option<PlayerToken>) -> (r: bool)
    ensures
        r == spec_may_collide(owner1, owner2),
{
    match (owner1, owner2) {
        (None, _) => true,
        (Some(a), Some(b)) => a != b,
        (Some(_), None) => true,
    }
}

/// The directed narrow-phase tests to run for a broad-phase candidate pair:
/// both role assignments, none for an object paired with itself or for
/// two objects of one owner.
pub open spec fn spec_directed_tests(
    a: GameObjectId,
    owner_a: Option<PlayerToken>,
    b: GameObjectId,
    owner_b: Option<PlayerToken>,
) -> Seq<(GameObjectId, GameObjectId)> {
    if a != b && spec_may_collide(owner_a, owner_b) {
        seq![(a, b), (b, a)]
    } else {
        Seq::empty()
    }
}

/// Lists the `(sharp, other)` tests to run for the candidate pair `a`, `b`.
pub fn directed_tests(
    a: GameObjectId,
    owner_a: Option<PlayerToken>,
    b: GameObjectId,
    owner_b: Option<PlayerToken>,
) -> (r: Vec<(GameObjectId, GameObjectId)>)
    ensures
        r@ == spec_directed_tests(a, owner_a, b, owner_b),
{
    let mut r: Vec<(GameObjectId, GameObjectId)> = Vec::new();
    if a != b && may_collide(owner_a, owner_b) {
        r.push((a, b));
        r.push((b, a));
    }
    assert(r@ =~= spec_directed_tests(a, owner_a, b, owner_b));
    r
}

/// Two objects that share an owner never give rise to a narrow-phase test,
/// and so never to a collision event, whatever their geometry.
pub proof fn lemma_shared_owner_excluded(a: GameObjectId, b: GameObjectId, owner: PlayerToken)
    ensures
        !spec_may_collide(Some(owner), Some(owner)),
        spec_directed_tests(a, Some(owner), b, Some(owner)).len() == 0,
{
}

/// Once a participant's body has advanced past the version recorded in an
/// event, that event is stale and is discarded whatever else holds.
pub proof fn lemma_advanced_body_makes_event_stale(
    ev: CollisionInfo,
    sharp: BodyStamp,
    other: BodyStamp,
)
    requires
        sharp.version > ev.sharp_obj.version || other.version > ev.other_obj.version,
    ensures
        !spec_is_current(ev, sharp, other),
{
}

/// The order of events is a strict total order.
pub proof fn lemma_precedes_total(a: CollisionInfo, b: CollisionInfo, c: CollisionInfo)
    ensures
        !(spec_precedes(a, b) && spec_precedes(b, a)),
        !spec_precedes(a, a),
        a == b || spec_precedes(a, b) || spec_precedes(b, a),
        spec_precedes(a, b) && spec_precedes(b, c) ==> spec_precedes(a, c),
{
}

/// The event that `pop` hands out is fixed by the events held alone: two
/// events that each come no later than every held event are the same event.
/// So identical sets of predictions are resolved in an identical order,
/// whatever order they were pushed in.
pub proof fn lemma_earliest_unique(m: Multiset<CollisionInfo>, e1: CollisionInfo, e2: CollisionInfo)
    requires
        m.contains(e1),
        m.contains(e2),
        forall|x: CollisionInfo| #[trigger] m.contains(x) ==> spec_no_later(e1, x),
        forall|x: CollisionInfo| #[trigger] m.contains(x) ==> spec_no_later(e2, x),
    ensures
        e1 == e2,
{
    assert(spec_no_later(e1, e2));
    assert(spec_no_later(e2, e1));
    lemma_precedes_total(e1, e2, e1);
}

/// The earliest of a nonempty set of events: the one event that comes no
/// later than every other (unique by `lemma_earliest_unique`).
pub open spec fn spec_earliest(m: Multiset<CollisionInfo>) -> CollisionInfo {
    choose|e: CollisionInfo|
        m.contains(e) && forall|x: CollisionInfo| #[trigger] m.contains(x) ==> spec_no_later(e, x)
}

/// A time-ordered queue of predicted collisions.
///
/// The events are kept from latest to earliest, so that the earliest one is
/// the last element.
pub struct CollisionQueue {
    events: Vec<CollisionInfo>,
}

impl CollisionQueue {
    /// The events held, without order.
    pub closed spec fn view(&self) -> Multiset<CollisionInfo> {
        self.events@.to_multiset()
    }

    pub closed spec fn wf(&self) -> bool {
        forall|i: int, j: int|
            0 <= i < j < self.events@.len() ==> spec_no_later(self.events@[j], self.events@[i])
    }

    pub fn new() -> (r: Self)
        ensures
            r.wf(),
            r@ == Multiset::<CollisionInfo>::empty(),
    {
        let r = CollisionQueue { events: Vec::new() };
        assert(r.events@ =~= Seq::<CollisionInfo>::empty());
        broadcast use vstd::seq_lib::group_to_multiset_ensures;
        r
    }

    pub fn len(&self) -> (r: usize)
        ensures
            r == self@.len(),
    {
        proof {
            broadcast use vstd::seq_lib::group_to_multiset_ensures;
        }
        self.events.len()
    }

    /// Adds an event.
    pub fn push(&mut self, ev: CollisionInfo)
        requires
            old(self).wf(),
        ensures
            final(self).wf(),
            final(self)@ == old(self)@.insert(ev),
    {
        let n = self.events.len();
        let mut i: usize = 0;
        while i < n && precedes(&ev, &self.events[i])
            invariant
                n == self.events@.len(),
                i <= n,
                forall|k: int| 0 <= k < i ==> spec_precedes(ev, self.events@[k]),
            decreases n - i,
        {
            i = i + 1;
        }
        proof {
            to_multiset_insert(self.events@, i as int, ev);
            assert forall|a: CollisionInfo, b: CollisionInfo, c: CollisionInfo|
                spec_no_later(a, b) && spec_no_later(b, c) implies spec_no_later(a, c) by {
                lemma_precedes_total(a, b, c);
            }
            assert forall|a: CollisionInfo, b: CollisionInfo|
                !spec_precedes(a, b) implies spec_no_later(b, a) by {
                lemma_precedes_total(a, b, a);
            }
        }
        let ghost old_events = self.events@;
        self.events.insert(i, ev);
        proof {
            let s = self.events@;
            assert(s =~= old_events.insert(i as int, ev));
            assert forall|p: int, q: int| 0 <= p < q < s.len() implies spec_no_later(
                s[q],
                s[p],
            ) by {
                if i < n {
                    assert(!spec_precedes(ev, old_events[i as int]));
                    assert(spec_no_later(old_events[i as int], ev));
                }
                if q < i {
                } else if q == i {
                    assert(spec_precedes(ev, s[p]));
                } else if p < i {
                    assert(spec_precedes(ev, s[p]));
                    assert(spec_no_later(s[q], old_events[i as int]));
                } else if p == i {
                    assert(spec_no_later(s[q], old_events[i as int]));
                } else {
                }
            }
        }
    }

    /// Removes and returns the earliest event, or `None` if the queue is empty.
    pub fn pop(&mut self) -> (r: Option<CollisionInfo>)
        requires
            old(self).wf(),
        ensures
            final(self).wf(),
            old(self)@.len() == 0 ==> r.is_none() && final(self)@ == old(self)@,
            old(self)@.len() > 0 ==> {
                &&& r == Some(spec_earliest(old(self)@))
                &&& old(self)@.contains(r.unwrap())
                &&& final(self)@ == old(self)@.remove(r.unwrap())
                &&& forall|x: CollisionInfo| #[trigger]
                    old(self)@.contains(x) ==> spec_no_later(r.unwrap(), x)
            },
    {
        proof {
            broadcast use vstd::seq_lib::group_to_multiset_ensures;
        }
        let ghost old_events = self.events@;
        let r = self.events.pop();
        proof {
            if old_events.len() > 0 {
                let last = old_events.len() - 1;
                assert(old_events.remove(last) =~= self.events@);
                to_multiset_remove(old_events, last);
                to_multiset_contains(old_events, old_events[last]);
                assert forall|x: CollisionInfo| #[trigger]
                    old_events.to_multiset().contains(x) implies spec_no_later(
                    old_events[last],
                    x,
                ) by {
                    to_multiset_contains(old_events, x);
                    let k = choose|k: int| 0 <= k < old_events.len() && old_events[k] == x;
                    if k < last {
                    }
                }
                let m = old_events.to_multiset();
                let w = old_events[last];
                assert(m.contains(w) && forall|x: CollisionInfo| #[trigger]
                    m.contains(x) ==> spec_no_later(w, x));
                let e = spec_earliest(m);
                assert(m.contains(e) && forall|x: CollisionInfo| #[trigger]
                    m.contains(x) ==> spec_no_later(e, x));
                lemma_earliest_unique(m, e, old_events[last]);
            }
        }
        r
    }
}

} // verus!
