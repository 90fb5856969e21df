use spacesim::component::{ComponentType, GridPos, GridSize, Orient, Orientation};
use spacesim::coordinate::{key_bits, ordered_key};
use spacesim::structure::{ComponentPlaceholder, SpacecraftStructure};

#[test]
fn keys_order_like_floats() {
    let xs = [-1e9f32, -3.5, -1.0, -0.0, 0.0, 1e-30, 0.5, 2.0, 7e12];
    for w in xs.windows(2) {
        assert!(ordered_key(w[0].to_bits()) < ordered_key(w[1].to_bits()));
    }
    for x in xs {
        assert_eq!(f32::from_bits(key_bits(ordered_key(x.to_bits()))), x);
    }
    assert_eq!(ordered_key(0), 0x8000_0000);
    assert_eq!(ordered_key(0x8000_0000), 0x7FFF_FFFF);
}

#[test]
fn orientation_cycles() {
    assert_eq!(Orientation::Up.next(), Orientation::Right);
    assert_eq!(Orientation::Right.next(), Orientation::Down);
    assert_eq!(Orientation::Down.next(), Orientation::Left);
    assert_eq!(Orientation::Left.next(), Orientation::Up);
    assert_eq!(Orientation::default(), Orientation::Up);
}

#[test]
fn orient_turns_offsets() {
    let p = GridPos { x: 2, y: 1 };
    assert_eq!(p.orient(Orientation::Right), GridPos { x: 2, y: 1 });
    assert_eq!(p.orient(Orientation::Up), GridPos { x: -1, y: 2 });
    assert_eq!(p.orient(Orientation::Left), GridPos { x: -2, y: -1 });
    assert_eq!(p.orient(Orientation::Down), GridPos { x: 1, y: -2 });
}

#[test]
fn component_footprints() {
    assert_eq!(ComponentType::RaptorEngine.scale(), GridSize { x: 2, y: 1 });
    assert_eq!(ComponentType::Central.scale(), GridSize { x: 1, y: 1 });
    assert!(ComponentType::SteelBlock.top().is_none());
    assert_eq!(ComponentType::LaserWeapon.top().unwrap().occupies, vec![GridPos { x: 0, y: 0 }]);
    assert_eq!(ComponentType::MissileLauncher.top().unwrap().occupies.len(), 6);
}

fn place(t: ComponentType, x: i32, y: i32, o: Orientation) -> ComponentPlaceholder {
    ComponentPlaceholder::new(t, GridPos { x, y }, o)
}

fn structure(ps: Vec<ComponentPlaceholder>) -> SpacecraftStructure {
    SpacecraftStructure { component_placeholders: ps, tags: vec![] }
}

#[test]
fn valid_structure_accepted() {
    let s = structure(vec![
        place(ComponentType::Central, 0, 0, Orientation::Right),
        place(ComponentType::SteelBlock, 1, 0, Orientation::Right),
        place(ComponentType::RaptorEngine, -1, 0, Orientation::Left),
        place(ComponentType::LaserWeapon, 1, 0, Orientation::Up),
    ]);
    assert!(s.valid());
}

#[test]
fn design_without_central_rejected() {
    assert!(!structure(vec![]).valid());
    let s = structure(vec![
        place(ComponentType::SteelBlock, 0, 0, Orientation::Right),
        place(ComponentType::LaserWeapon, 0, 0, Orientation::Right),
    ]);
    assert!(!s.valid());
}

#[test]
fn two_centrals_rejected() {
    let s = structure(vec![
        place(ComponentType::Central, 0, 0, Orientation::Right),
        place(ComponentType::Central, 5, 5, Orientation::Right),
    ]);
    assert!(!s.valid());
}

#[test]
fn overlapping_bottom_rejected() {
    // The engine at (0,1) turned up covers (0,1) and (0,2).
    let s = structure(vec![
        place(ComponentType::Central, 0, 0, Orientation::Right),
        place(ComponentType::RaptorEngine, 0, 1, Orientation::Up),
        place(ComponentType::SteelBlock, 0, 2, Orientation::Right),
    ]);
    assert!(!s.valid());
}

#[test]
fn overlapping_top_rejected() {
    let s = structure(vec![
        place(ComponentType::Central, 0, 0, Orientation::Right),
        place(ComponentType::LaserWeapon, 0, 0, Orientation::Right),
        place(ComponentType::LaserWeapon, 0, 0, Orientation::Up),
    ]);
    assert!(!s.valid());
}

#[test]
fn unsupported_top_rejected() {
    let s = structure(vec![
        place(ComponentType::Central, 0, 0, Orientation::Right),
        place(ComponentType::LaserWeapon, 3, 0, Orientation::Right),
    ]);
    assert!(!s.valid());
    // A missile launcher needs six supported cells.
    let s = structure(vec![
        place(ComponentType::Central, 0, 0, Orientation::Right),
        place(ComponentType::SteelBlock, 1, 0, Orientation::Right),
        place(ComponentType::MissileLauncher, 0, 0, Orientation::Right),
    ]);
    assert!(!s.valid());
}
