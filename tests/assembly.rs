use spacesim::assembly::{surviving_components, PlacedComponent};
use spacesim::component::{ComponentType, GridPos, Orientation};
use spacesim::structure::{ComponentPlaceholder, SpacecraftStructure};

fn comp(id: u16, t: ComponentType, x: i32, y: i32, o: Orientation) -> PlacedComponent {
    PlacedComponent { id, placement: ComponentPlaceholder::new(t, GridPos { x, y }, o) }
}

fn sorted(mut v: Vec<u16>) -> Vec<u16> {
    v.sort();
    v.dedup();
    v
}

#[test]
fn occupied_cells_follow_orientation() {
    let p = ComponentPlaceholder::new(ComponentType::RaptorEngine, GridPos { x: 3, y: 4 }, Orientation::Up);
    assert_eq!(p.occupied_cells(), vec![(3, 4), (3, 5)]);
    let p = ComponentPlaceholder::new(ComponentType::LaserWeapon, GridPos { x: -2, y: 0 }, Orientation::Left);
    assert_eq!(p.occupied_cells(), vec![(-2, 0)]);
    let p = ComponentPlaceholder::new(ComponentType::MissileLauncher, GridPos { x: 0, y: 0 }, Orientation::Down);
    assert_eq!(p.occupied_cells(), vec![(0, 0), (0, -1), (1, 0), (1, -1), (-1, -1), (-1, 0)]);
}

#[test]
fn detached_components_are_dropped() {
    let cs = vec![
        comp(0, ComponentType::Central, 0, 0, Orientation::Right),
        comp(1, ComponentType::SteelBlock, 1, 0, Orientation::Right),
        comp(2, ComponentType::SteelBlock, 3, 0, Orientation::Right),
        comp(257, ComponentType::LaserWeapon, 1, 0, Orientation::Up),
        comp(258, ComponentType::LaserWeapon, 3, 0, Orientation::Up),
        comp(259, ComponentType::LaserWeapon, 0, 0, Orientation::Up),
    ];
    let r = surviving_components(&cs, 0).unwrap();
    assert_eq!(sorted(r), vec![0, 1, 257, 259]);
}

#[test]
fn chain_through_engine_survives() {
    let cs = vec![
        comp(0, ComponentType::Central, 0, 0, Orientation::Right),
        comp(1, ComponentType::RaptorEngine, 0, 1, Orientation::Up),
        comp(2, ComponentType::SteelBlock, 0, 3, Orientation::Right),
        comp(3, ComponentType::SteelBlock, 1, 3, Orientation::Right),
        comp(4, ComponentType::SteelBlock, 5, 5, Orientation::Right),
    ];
    let r = surviving_components(&cs, 0).unwrap();
    assert_eq!(sorted(r), vec![0, 1, 2, 3]);
}

#[test]
fn lone_central_survives_alone() {
    let cs = vec![comp(7, ComponentType::Central, 2, 2, Orientation::Right)];
    assert_eq!(sorted(surviving_components(&cs, 7).unwrap()), vec![7]);
}

#[test]
fn missing_central_leaves_nothing() {
    let cs = vec![comp(1, ComponentType::SteelBlock, 0, 0, Orientation::Right)];
    assert!(surviving_components(&cs, 0).is_none());
    assert!(surviving_components(&vec![], 0).is_none());
}

#[test]
fn placed_components_number_top_layer_apart() {
    let s = SpacecraftStructure {
        component_placeholders: vec![
            ComponentPlaceholder::new(ComponentType::SteelBlock, GridPos { x: 1, y: 0 }, Orientation::Right),
            ComponentPlaceholder::new(ComponentType::Central, GridPos { x: 0, y: 0 }, Orientation::Right),
            ComponentPlaceholder::new(ComponentType::LaserWeapon, GridPos { x: 1, y: 0 }, Orientation::Up),
        ],
        tags: vec!["scout".to_string()],
    };
    let (placed, central) = s.placed_components();
    let ids: Vec<u16> = placed.iter().map(|p| p.id).collect();
    assert_eq!(ids, vec![0, 1, 258]);
    assert_eq!(central, Some(1));
    assert_eq!(sorted(surviving_components(&placed, 1).unwrap()), vec![0, 1, 258]);
    let none = SpacecraftStructure { component_placeholders: vec![], tags: vec![] };
    assert_eq!(none.placed_components().1, None);
}
