use spacesim::broad_phase::{BroadPhase, XBound};
use spacesim::collision::{
    directed_tests, is_current, may_collide, precedes, BodyStamp, CollisionInfo, CollisionQueue,
    Participant,
};
use spacesim::coordinate::ordered_key;

fn event(time: f32, sharp: (u16, usize, usize), other: (u16, usize, usize)) -> CollisionInfo {
    CollisionInfo {
        time: ordered_key(time.to_bits()),
        sharp_obj: Participant { id: sharp.0, version: sharp.1, index: sharp.2 },
        other_obj: Participant { id: other.0, version: other.1, index: other.2 },
    }
}

#[test]
fn earlier_time_precedes() {
    let a = event(0.25, (9, 0, 0), (9, 0, 0));
    let b = event(0.5, (1, 0, 0), (1, 0, 0));
    assert!(precedes(&a, &b));
    assert!(!precedes(&b, &a));
    assert!(!precedes(&a, &a));
}

#[test]
fn equal_times_break_ties_by_participants() {
    let a = event(0.5, (1, 3, 0), (2, 0, 1));
    let b = event(0.5, (1, 3, 0), (4, 0, 0));
    let c = event(0.5, (2, 0, 0), (1, 0, 0));
    assert!(precedes(&a, &b));
    assert!(precedes(&b, &c));
    assert!(precedes(&a, &c));
}

#[test]
fn queue_pops_in_time_order() {
    let mut q = CollisionQueue::new();
    let times = [0.75f32, 0.125, 0.5, 0.0625, 0.9, 0.3];
    for (i, t) in times.iter().enumerate() {
        q.push(event(*t, (i as u16, 0, 0), (100, 0, 0)));
    }
    assert_eq!(q.len(), 6);
    let mut popped = vec![];
    while let Some(ev) = q.pop() {
        popped.push(ev.sharp_obj.id);
    }
    assert_eq!(popped, vec![3, 1, 5, 2, 0, 4]);
    assert_eq!(q.len(), 0);
    assert!(q.pop().is_none());
}

#[test]
fn queue_order_does_not_depend_on_push_order() {
    let evs = vec![
        event(0.5, (1, 0, 0), (2, 0, 0)),
        event(0.5, (2, 0, 0), (1, 0, 0)),
        event(0.25, (3, 1, 2), (4, 0, 1)),
        event(0.5, (1, 0, 1), (2, 0, 0)),
    ];
    let mut q1 = CollisionQueue::new();
    let mut q2 = CollisionQueue::new();
    for e in evs.iter() {
        q1.push(*e);
    }
    for e in evs.iter().rev() {
        q2.push(*e);
    }
    for _ in 0..4 {
        assert_eq!(q1.pop(), q2.pop());
    }
}

#[test]
fn stale_event_is_discarded_after_earlier_resolution() {
    // A strikes B at 0.2; B was also predicted to strike C at 0.6.
    let (a, b, c) = (1u16, 2u16, 3u16);
    let mut versions = [0usize; 4];
    let mut q = CollisionQueue::new();
    q.push(event(0.6, (b, versions[b as usize], 0), (c, versions[c as usize], 1)));
    q.push(event(0.2, (a, versions[a as usize], 2), (b, versions[b as usize], 3)));

    let first = q.pop().unwrap();
    assert_eq!((first.sharp_obj.id, first.other_obj.id), (a, b));
    let stamp = |id: u16, v: &[usize; 4]| BodyStamp { version: v[id as usize], alive: true };
    assert!(is_current(&first, stamp(a, &versions), stamp(b, &versions)));
    // Resolving it advances both bodies.
    versions[a as usize] += 1;
    versions[b as usize] += 1;

    let second = q.pop().unwrap();
    assert_eq!((second.sharp_obj.id, second.other_obj.id), (b, c));
    assert!(!is_current(&second, stamp(b, &versions), stamp(c, &versions)));
}

#[test]
fn dead_participant_makes_event_stale() {
    let ev = event(0.1, (1, 4, 0), (2, 7, 0));
    assert!(is_current(&ev, BodyStamp { version: 4, alive: true }, BodyStamp { version: 7, alive: true }));
    assert!(!is_current(&ev, BodyStamp { version: 4, alive: false }, BodyStamp { version: 7, alive: true }));
    assert!(!is_current(&ev, BodyStamp { version: 4, alive: true }, BodyStamp { version: 7, alive: false }));
    assert!(!is_current(&ev, BodyStamp { version: 4, alive: true }, BodyStamp { version: 8, alive: true }));
}

#[test]
fn shared_owner_never_tested() {
    assert!(!may_collide(Some(7), Some(7)));
    assert!(may_collide(Some(7), Some(8)));
    assert!(may_collide(None, None));
    assert!(may_collide(None, Some(7)));
    assert!(may_collide(Some(7), None));
    assert!(directed_tests(1, Some(7), 2, Some(7)).is_empty());
    assert_eq!(directed_tests(1, Some(7), 2, None), vec![(1, 2), (2, 1)]);
    assert!(directed_tests(3, None, 3, None).is_empty());
}

#[test]
fn overlapping_owned_objects_yield_no_tests() {
    let mut bp = BroadPhase::new();
    bp.update(XBound { start: 10, end: 20, id: 1 });
    bp.update(XBound { start: 15, end: 25, id: 2 });
    let owners = |id: u16| if id == 1 || id == 2 { Some(5u64) } else { None };
    let mut tests = vec![];
    for (x, y) in bp.candidate_pairs() {
        tests.extend(directed_tests(x, owners(x), y, owners(y)));
    }
    assert!(tests.is_empty());
}
