use spacesim::broad_phase::XBound;
use spacesim::collision::{is_current, BodyStamp, CollisionInfo, Participant};
use spacesim::phase::{CollisionPhase, PhaseStep, TrackedObject};

fn obj(id: u16, start: u32, end: u32, owner: Option<u64>) -> TrackedObject {
    TrackedObject { bound: XBound { start, end, id }, owner }
}

fn hit(time: u32, sharp: u16, sv: usize, other: u16, ov: usize) -> CollisionInfo {
    CollisionInfo {
        time,
        sharp_obj: Participant { id: sharp, version: sv, index: 0 },
        other_obj: Participant { id: other, version: ov, index: 0 },
    }
}

fn drain_tests(phase: &mut CollisionPhase) -> (Vec<(u16, u16)>, PhaseStep) {
    let mut tests = vec![];
    loop {
        match phase.next_step() {
            PhaseStep::Test(a, b) => {
                tests.push((a, b));
                phase.report_hit(None);
            }
            step => return (tests, step),
        }
    }
}

#[test]
fn seeding_tests_overlapping_pairs_both_ways() {
    let objects = vec![
        obj(1, 0, 10, None),
        obj(2, 5, 15, Some(9)),
        obj(3, 100, 110, None),
        obj(4, 12, 20, Some(9)),
    ];
    let mut phase = CollisionPhase::start(&objects);
    let (mut tests, step) = drain_tests(&mut phase);
    tests.sort();
    assert_eq!(tests, vec![(1, 2), (2, 1)]);
    assert_eq!(step, PhaseStep::Finished);
}

#[test]
fn shared_owner_pairs_never_tested() {
    let objects = vec![obj(1, 0, 10, Some(4)), obj(2, 0, 10, Some(4)), obj(3, 0, 10, Some(4))];
    let mut phase = CollisionPhase::start(&objects);
    let (tests, step) = drain_tests(&mut phase);
    assert!(tests.is_empty());
    assert_eq!(step, PhaseStep::Finished);
}

#[test]
fn impacts_come_out_earliest_first() {
    let objects = vec![obj(1, 0, 10, None), obj(2, 5, 15, None), obj(3, 8, 30, None)];
    let mut phase = CollisionPhase::start(&objects);
    let mut times = vec![70u32, 20, 50, 10, 90, 40];
    loop {
        match phase.next_step() {
            PhaseStep::Test(a, b) => {
                let t = times.pop();
                phase.report_hit(t.map(|t| hit(t, a, 0, b, 0)));
            }
            PhaseStep::Resolve(ev) => {
                times.push(ev.time);
            }
            PhaseStep::Finished => break,
        }
    }
    assert_eq!(times, vec![10, 20, 40, 50, 70, 90]);
}

#[test]
fn resolution_stales_earlier_prediction_and_retests() {
    // A and B overlap, B and C overlap; A strikes B first, which invalidates
    // the predicted impact of B on C.
    let (a, b, c) = (1u16, 2u16, 3u16);
    let objects = vec![obj(a, 0, 10, None), obj(b, 8, 20, None), obj(c, 18, 30, None)];
    let mut versions = [0usize; 4];
    let mut phase = CollisionPhase::start(&objects);
    loop {
        match phase.next_step() {
            PhaseStep::Test(s, o) => {
                let h = if (s, o) == (a, b) {
                    Some(hit(100, a, 0, b, 0))
                } else if (s, o) == (b, c) {
                    Some(hit(200, b, 0, c, 0))
                } else {
                    None
                };
                phase.report_hit(h);
            }
            step => {
                let PhaseStep::Resolve(ev) = step else { panic!("expected an impact") };
                assert_eq!((ev.sharp_obj.id, ev.other_obj.id), (a, b));
                break;
            }
        }
    }
    // Resolving advances A and B and moves B away from C.
    versions[a as usize] += 1;
    versions[b as usize] += 1;
    phase.report_resolution(XBound { start: 0, end: 9, id: a }, XBound { start: 50, end: 60, id: b });
    let (tests, step) = drain_tests(&mut phase);
    assert!(!tests.contains(&(b, c)));
    let PhaseStep::Resolve(stale) = step else { panic!("expected the old prediction") };
    assert_eq!((stale.sharp_obj.id, stale.other_obj.id), (b, c));
    let stamp = |id: u16| BodyStamp { version: versions[id as usize], alive: true };
    assert!(!is_current(&stale, stamp(b), stamp(c)));
    assert_eq!(phase.next_step(), PhaseStep::Finished);
}

#[test]
fn resolution_retests_new_neighbours() {
    let objects = vec![obj(1, 0, 10, None), obj(2, 5, 12, None), obj(3, 40, 50, None)];
    let mut phase = CollisionPhase::start(&objects);
    let _ = drain_tests(&mut phase);
    phase.report_resolution(XBound { start: 0, end: 8, id: 1 }, XBound { start: 35, end: 45, id: 2 });
    let (mut tests, step) = drain_tests(&mut phase);
    tests.sort();
    assert_eq!(tests, vec![(2, 3), (3, 2)]);
    assert_eq!(step, PhaseStep::Finished);
}

#[test]
fn retired_object_is_no_longer_tested() {
    let objects = vec![obj(1, 0, 10, None), obj(2, 5, 15, None), obj(3, 8, 12, None)];
    let mut phase = CollisionPhase::start(&objects);
    phase.retire(2);
    let (mut tests, step) = drain_tests(&mut phase);
    tests.sort();
    assert_eq!(tests, vec![(1, 3), (3, 1)]);
    assert_eq!(step, PhaseStep::Finished);
    phase.report_resolution(XBound { start: 0, end: 9, id: 1 }, XBound { start: 9, end: 9, id: 3 });
    let (mut tests, _) = drain_tests(&mut phase);
    tests.sort();
    assert_eq!(tests, vec![(1, 3), (3, 1)]);
}
