use vstd::prelude::*;

verus! {

/// The facing of a component on the spacecraft grid.
#[derive(Clone, Copy, Debug, PartialEq, Eq, Structural)]
pub enum Orientation {
    Up,
    Down,
    Left,
    Right,
}

impl Default for Orientation {
    fn default() -> (r: Self)
        ensures
            r == Orientation::Up,
    {
        Orientation::Up
    }
}

/// A quarter turn clockwise.
pub open spec fn spec_next(o: Orientation) -> Orientation {
    match o {
        Orientation::Up => Orientation::Right,
        Orientation::Right => Orientation::Down,
        Orientation::Down => Orientation::Left,
        Orientation::Left => Orientation::Up,
    }
}

impl Orientation {
    /// The orientation one quarter turn clockwise from this one.
    pub fn next(&self) -> (r: Self)
        ensures
            r == spec_next(*self),
    {
        match self {
            Orientation::Up => Orientation::Right,
            Orientation::Right => Orientation::Down,
            Orientation::Down => Orientation::Left,
            Orientation::Left => Orientation::Up,
        }
    }
}

/// Four quarter turns bring any orientation back to itself, and each turn
/// changes it.
pub proof fn lemma_next_cycles(o: Orientation)
    ensures
        spec_next(spec_next(spec_next(spec_next(o)))) == o,
        spec_next(o) != o,
{
}

/// A cell offset or position on the spacecraft grid.
#[derive(Clone, Copy, Debug, PartialEq, Eq, Structural)]
pub struct GridPos {
    pub x: i32,
    pub y: i32,
}

/// The width and height of a component, in cells.
#[derive(Clone, Copy, Debug, PartialEq, Eq, Structural)]
pub struct GridSize {
    pub x: u32,
    pub y: u32,
}

/// Turning a grid value by an orientation, with `Right` as the identity.
pub trait Orient: Sized {
    spec fn orientable(&self) -> bool;

    spec fn spec_orient(&self, orientation: Orientation) -> Self;

    fn orient(&self, orientation: Orientation) -> (r: Self)
        requires
            self.orientable(),
        ensures
            r == self.spec_orient(orientation),
    ;
}

impl Orient for GridPos {
    /// Both coordinates can be negated.
    open spec fn orientable(&self) -> bool {
        self.x != i32::MIN && self.y != i32::MIN
    }

    open spec fn spec_orient(&self, orientation: Orientation) -> GridPos {
        match orientation {
            Orientation::Right => *self,
            Orientation::Up => GridPos { x: -self.y as i32, y: self.x },
            Orientation::Left => GridPos { x: -self.x as i32, y: -self.y as i32 },
            Orientation::Down => GridPos { x: self.y, y: -self.x as i32 },
        }
    }

    fn orient(&self, orientation: Orientation) -> (r: GridPos) {
        match orientation {
            Orientation::Right => *self,
            Orientation::Up => GridPos { x: -self.y, y: self.x },
            Orientation::Left => GridPos { x: -self.x, y: -self.y },
            Orientation::Down => GridPos { x: self.y, y: -self.x },
        }
    }
}

/// The kinds of component a spacecraft is assembled from.
#[derive(Clone, Copy, Debug, PartialEq, Eq, Structural)]
pub enum ComponentType {
    Central,
    SteelBlock,
    RaptorEngine,
    LaserWeapon,
    MissileLauncher,
}

/// Cells that a top-layer component occupies, relative to its position.
pub struct TopComponentProperties {
    pub occupies: Vec<GridPos>,
}

pub open spec fn spec_scale(t: ComponentType) -> GridSize {
    match t {
        ComponentType::Central => GridSize { x: 1, y: 1 },
        ComponentType::SteelBlock => GridSize { x: 1, y: 1 },
        ComponentType::RaptorEngine => GridSize { x: 2, y: 1 },
        ComponentType::LaserWeapon => GridSize { x: 1, y: 1 },
        ComponentType::MissileLauncher => GridSize { x: 2, y: 1 },
    }
}

/// The cells of a top-layer component, or `None` for a bottom-layer one.
pub open spec fn spec_top(t: ComponentType) -> Option<Seq<GridPos>> {
    match t {
        ComponentType::LaserWeapon => Some(seq![GridPos { x: 0, y: 0 }]),
        ComponentType::MissileLauncher => Some(
            seq![
                GridPos { x: 0, y: 0 },
                GridPos { x: 1, y: 0 },
                GridPos { x: 0, y: 1 },
                GridPos { x: 1, y: 1 },
                GridPos { x: 1, y: -1i32 },
                GridPos { x: 0, y: -1i32 },
            ],
        ),
        _ => None,
    }
}

impl ComponentType {
    /// The footprint of a bottom-layer component, in cells.
    pub fn scale(&self) -> (r: GridSize)
        ensures
            r == spec_scale(*self),
    {
        match self {
            ComponentType::Central => GridSize { x: 1, y: 1 },
            ComponentType::SteelBlock => GridSize { x: 1, y: 1 },
            ComponentType::RaptorEngine => GridSize { x: 2, y: 1 },
            ComponentType::LaserWeapon => GridSize { x: 1, y: 1 },
            ComponentType::MissileLauncher => GridSize { x: 2, y: 1 },
        }
    }

    /// The cells a top-layer component occupies; `None` for components of
    /// the bottom layer.
    pub fn top(&self) -> (r: Option<TopComponentProperties>)
        ensures
            match spec_top(*self) {
                Some(cells) => r is Some && r->Some_0.occupies@ == cells,
                None => r is None,
            },
    {
        match self {
            ComponentType::LaserWeapon => {
                let r = TopComponentProperties { occupies: vec![GridPos { x: 0, y: 0 }] };
                assert(r.occupies@ =~= seq![GridPos { x: 0, y: 0 }]);
                Some(r)
            },
            ComponentType::MissileLauncher => {
                let r = TopComponentProperties {
                    occupies: vec![
                        GridPos { x: 0, y: 0 },
                        GridPos { x: 1, y: 0 },
                        GridPos { x: 0, y: 1 },
                        GridPos { x: 1, y: 1 },
                        GridPos { x: 1, y: -1i32 },
                        GridPos { x: 0, y: -1i32 },
                    ],
                };
                assert(r.occupies@ =~= seq![
                    GridPos { x: 0, y: 0 },
                    GridPos { x: 1, y: 0 },
                    GridPos { x: 0, y: 1 },
                    GridPos { x: 1, y: 1 },
                    GridPos { x: 1, y: -1i32 },
                    GridPos { x: 0, y: -1i32 },
                ]);
                Some(r)
            },
            _ => None,
        }
    }
}

} // verus!
