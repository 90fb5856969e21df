use spacesim::broad_phase::{BroadPhase, SortedIndex, XBound};
use spacesim::coordinate::{key_bits, ordered_key};

struct Lcg(u64);

impl Lcg {
    fn next(&mut self) -> u32 {
        self.0 = self.0.wrapping_mul(6364136223846793005).wrapping_add(1442695040888963407);
        (self.0 >> 33) as u32
    }
}

#[test]
fn candidates_are_objects_starting_or_ending_inside() {
    let mut bp = BroadPhase::new();
    bp.update(XBound { start: 10, end: 20, id: 1 });
    bp.update(XBound { start: 15, end: 30, id: 2 });
    bp.update(XBound { start: 0, end: 12, id: 3 });
    bp.update(XBound { start: 40, end: 50, id: 4 });
    bp.update(XBound { start: 5, end: 60, id: 5 });
    let mut c = bp.candidates(1);
    c.sort();
    c.dedup();
    assert_eq!(c, vec![1, 2, 3]);
    assert!(bp.candidates(9).is_empty());
}

#[test]
fn update_replaces_extent() {
    let mut bp = BroadPhase::new();
    bp.update(XBound { start: 10, end: 20, id: 1 });
    bp.update(XBound { start: 15, end: 16, id: 2 });
    assert!(bp.candidates(1).contains(&2));
    bp.update(XBound { start: 100, end: 120, id: 1 });
    assert_eq!(bp.bound_of(1), Some(XBound { start: 100, end: 120, id: 1 }));
    assert!(!bp.candidates(1).contains(&2));
    assert!(!bp.candidates(2).contains(&1));
    assert_eq!(bp.bound_of(7), None);
}

#[test]
fn candidate_pairs_cover_all_overlaps() {
    let mut rng = Lcg(42);
    for _round in 0..20 {
        let mut bp = BroadPhase::new();
        let mut bounds = vec![];
        for id in 0..40u16 {
            let s = rng.next() % 1000;
            let e = s + rng.next() % 80;
            bounds.push(XBound { start: s, end: e, id });
            bp.update(XBound { start: s, end: e, id });
        }
        // Move some objects, as resolutions do within a tick.
        for _ in 0..15 {
            let id = (rng.next() % 40) as u16;
            let s = rng.next() % 1000;
            let e = s + rng.next() % 80;
            bounds[id as usize] = XBound { start: s, end: e, id };
            bp.update(XBound { start: s, end: e, id });
        }
        let pairs = bp.candidate_pairs();
        for a in &bounds {
            for b in &bounds {
                if a.id != b.id && a.start <= b.end && b.start <= a.end {
                    assert!(pairs.contains(&(a.id, b.id)) || pairs.contains(&(b.id, a.id)));
                }
            }
        }
    }
}

#[test]
fn sorted_index_ranges() {
    let mut ix = SortedIndex::new();
    ix.insert((5, 1));
    ix.insert((3, 2));
    ix.insert((5, 0));
    ix.insert((9, 3));
    let mut out = vec![];
    ix.collect_range(4, 8, &mut out);
    assert_eq!(out, vec![0, 1]);
    ix.remove((5, 0));
    let mut out = vec![];
    ix.collect_range(0, 100, &mut out);
    assert_eq!(out, vec![2, 1, 3]);
}

#[test]
fn extent_from_coordinate_keys() {
    let xs = [3.5f32, -2.0, 0.25, -0.5, 7.0];
    let keys: Vec<u32> = xs.iter().map(|x| ordered_key(x.to_bits())).collect();
    let b = XBound::from_keys(4, &keys).unwrap();
    assert_eq!(b.id, 4);
    assert_eq!(f32::from_bits(key_bits(b.start)), -2.0);
    assert_eq!(f32::from_bits(key_bits(b.end)), 7.0);
    assert_eq!(XBound::from_keys(5, &vec![]), None);
}
