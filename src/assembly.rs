use vstd::prelude::*;

verus! {

use crate::component::{spec_top, ComponentType, GridPos, Orient};
use crate::structure::{
    cell_at,
    column_cells,
    contains_cell,
    grid_cells,
    lemma_push_contains,
    lemma_push_no_duplicates,
    placeholder_cells,
    ComponentPlaceholder,
    SpacecraftStructure,
};

/// Identifier of a component within one spacecraft.
pub type ComponentId = u16;

/// A grid cell of a spacecraft.
pub type Cell = (i64, i64);

/// A built component: its id and where it stands.
#[derive(Clone, Copy, Debug, PartialEq, Eq, Structural)]
pub struct PlacedComponent {
    pub id: ComponentId,
    pub placement: ComponentPlaceholder,
}

impl ComponentPlaceholder {
    /// The cells this component occupies on its own layer.
    pub fn occupied_cells(&self) -> (r: Vec<Cell>)
        ensures
            r@ == placeholder_cells(*self),
    {
        let mut cells: Vec<Cell> = Vec::new();
        let p = *self;
        match p.component_type.top() {
            Some(top) => {
                let occupies = &top.occupies;
                let m = occupies.len();
                let mut j: usize = 0;
                while j < m
                    invariant
                        m == occupies@.len(),
                        spec_top(p.component_type) == Some(occupies@),
                        j <= m,
                        cells@ == occupies@.take(j as int).map_values(
                            |g: GridPos| cell_at(p.position, p.orientation, g),
                        ),
                    decreases m - j,
                {
                    let d = occupies[j].orient(p.orientation);
                    let c = (p.position.x as i64 + d.x as i64, p.position.y as i64 + d.y as i64);
                    cells.push(c);
                    assert(occupies@.take(j + 1).map_values(
                        |g: GridPos| cell_at(p.position, p.orientation, g),
                    ) =~= occupies@.take(j as int).map_values(
                        |g: GridPos| cell_at(p.position, p.orientation, g),
                    ).push(c));
                    j = j + 1;
                }
                assert(occupies@.take(m as int) =~= occupies@);
            },
            None => {
                let s = p.component_type.scale();
                let mut x: u32 = 0;
                while x < s.x
                    invariant
                        s == crate::component::spec_scale(p.component_type),
                        x <= s.x,
                        cells@ == grid_cells(p.position, p.orientation, x as nat, s.y as nat),
                    decreases s.x - x,
                {
                    let ghost col0 = cells@;
                    let mut y: u32 = 0;
                    while y < s.y
                        invariant
                            s == crate::component::spec_scale(p.component_type),
                            x < s.x,
                            y <= s.y,
                            cells@ == col0 + column_cells(
                                p.position,
                                p.orientation,
                                x as int,
                                y as nat,
                            ),
                        decreases s.y - y,
                    {
                        let d = GridPos { x: x as i32, y: y as i32 }.orient(p.orientation);
                        cells.push((p.position.x as i64 + d.x as i64, p.position.y as i64 + d.y as i64));
                        y = y + 1;
                    }
                    x = x + 1;
                }
            },
        }
        cells
    }
}

/// The bottom-layer claims of the components, in order: each cell of each
/// bottom-layer component, with the component's id.
pub open spec fn bottom_claims(cs: Seq<PlacedComponent>) -> Seq<(Cell, ComponentId)>
    decreases cs.len(),
{
    if cs.len() == 0 {
        Seq::empty()
    } else {
        let last = cs.last();
        bottom_claims(cs.drop_last()) + if spec_top(last.placement.component_type) is None {
            placeholder_cells(last.placement).map_values(|c: Cell| (c, last.id))
        } else {
            Seq::empty()
        }
    }
}

/// The cell a component stands on: its grid position.
pub open spec fn anchor(p: ComponentPlaceholder) -> Cell {
    (p.position.x as i64, p.position.y as i64)
}

/// The top-layer claims of the components, in order: the anchor cell of
/// each top-layer component, with the component's id.
pub open spec fn top_claims(cs: Seq<PlacedComponent>) -> Seq<(Cell, ComponentId)>
    decreases cs.len(),
{
    if cs.len() == 0 {
        Seq::empty()
    } else {
        let last = cs.last();
        top_claims(cs.drop_last()) + if spec_top(last.placement.component_type) is Some {
            seq![(anchor(last.placement), last.id)]
        } else {
            Seq::empty()
        }
    }
}

/// The component that claimed cell `c` last, if any: a later claim of a
/// cell replaces an earlier one.
pub open spec fn last_claim(claims: Seq<(Cell, ComponentId)>, c: Cell) -> Option<ComponentId>
    decreases claims.len(),
{
    if claims.len() == 0 {
        None
    } else if claims.last().0 == c {
        Some(claims.last().1)
    } else {
        last_claim(claims.drop_last(), c)
    }
}

/// `b` is one of the four cells next to `a`.
pub open spec fn adjacent(a: Cell, b: Cell) -> bool {
    (a.0 == b.0 && (b.1 == a.1 + 1 || b.1 == a.1 - 1)) || (a.1 == b.1 && (b.0 == a.0 + 1 || b.0
        == a.0 - 1))
}

/// The claimed cells reached from `seeds` in at most `n + 1` steps between
/// adjacent claimed cells.
pub open spec fn reach_within(
    claims: Seq<(Cell, ComponentId)>,
    seeds: Seq<Cell>,
    n: nat,
) -> Set<Cell>
    decreases n,
{
    if n == 0 {
        Set::new(
            |c: Cell|
                last_claim(claims, c) is Some && exists|s: Cell| seeds.contains(s) && adjacent(s, c),
        )
    } else {
        let r = reach_within(claims, seeds, (n - 1) as nat);
        r.union(
            Set::new(
                |c: Cell| last_claim(claims, c) is Some && exists|d: Cell| r.contains(d) && adjacent(d, c),
            ),
        )
    }
}

/// Cell `c` is claimed and is reached from `seeds` through adjacent claimed
/// cells.
pub open spec fn reached(claims: Seq<(Cell, ComponentId)>, seeds: Seq<Cell>, c: Cell) -> bool {
    exists|n: nat| #[trigger] reach_within(claims, seeds, n).contains(c)
}

/// The components that stay attached: the central one, each component that
/// owns a bottom cell reached from the central component's cells, and each
/// top-layer component standing on such a cell.
pub open spec fn spec_survives(cs: Seq<PlacedComponent>, central: PlacedComponent, id: ComponentId) -> bool {
    id == central.id || exists|c: Cell|
        #[trigger] reached(bottom_claims(cs), placeholder_cells(central.placement), c) && (
        last_claim(bottom_claims(cs), c) == Some(id) || last_claim(top_claims(cs), c) == Some(id))
}

proof fn lemma_reach_step(claims: Seq<(Cell, ComponentId)>, seeds: Seq<Cell>, d: Cell, c: Cell)
    requires
        seeds.contains(d) || reached(claims, seeds, d),
        last_claim(claims, c) is Some,
        adjacent(d, c),
    ensures
        reached(claims, seeds, c),
{
    if seeds.contains(d) {
        assert(reach_within(claims, seeds, 0).contains(c));
    } else {
        let n = choose|n: nat| #[trigger] reach_within(claims, seeds, n).contains(d);
        assert(reach_within(claims, seeds, n + 1).contains(c));
    }
}

proof fn lemma_reach_closed(
    claims: Seq<(Cell, ComponentId)>,
    seeds: Seq<Cell>,
    visited: Seq<Cell>,
    processed: Set<Cell>,
    n: nat,
)
    requires
        forall|s: Cell| seeds.contains(s) ==> processed.contains(s),
        forall|v: Cell| visited.contains(v) ==> processed.contains(v),
        forall|p: Cell, c: Cell|
            #![trigger processed.contains(p), adjacent(p, c)]
            processed.contains(p) && last_claim(claims, c) is Some && adjacent(p, c)
                ==> visited.contains(c),
    ensures
        forall|c: Cell| reach_within(claims, seeds, n).contains(c) ==> visited.contains(c),
    decreases n,
{
    if n == 0 {
        assert forall|c: Cell| reach_within(claims, seeds, n).contains(c) implies visited.contains(
            c,
        ) by {
            let s = choose|s: Cell| seeds.contains(s) && adjacent(s, c);
            assert(processed.contains(s));
        }
    } else {
        lemma_reach_closed(claims, seeds, visited, processed, (n - 1) as nat);
        let r = reach_within(claims, seeds, (n - 1) as nat);
        assert forall|c: Cell| reach_within(claims, seeds, n).contains(c) implies visited.contains(
            c,
        ) by {
            if !r.contains(c) {
                let d = choose|d: Cell| r.contains(d) && adjacent(d, c);
                assert(visited.contains(d));
                assert(processed.contains(d));
            }
        }
    }
}

/// The id of the last claim of `c`, searching from the end.
fn find_claim(claims: &Vec<(Cell, ComponentId)>, c: Cell) -> (r: Option<ComponentId>)
    ensures
        r == last_claim(claims@, c),
{
    let mut i: usize = claims.len();
    assert(claims@.take(i as int) =~= claims@);
    while i > 0
        invariant
            i <= claims@.len(),
            last_claim(claims@, c) == last_claim(claims@.take(i as int), c),
        decreases i,
    {
        assert(claims@.take(i as int).drop_last() =~= claims@.take(i - 1));
        if claims[i - 1].0.0 == c.0 && claims[i - 1].0.1 == c.1 {
            return Some(claims[i - 1].1);
        }
        i = i - 1;
    }
    None
}

proof fn lemma_claimed_cell_listed(claims: Seq<(Cell, ComponentId)>, c: Cell)
    requires
        last_claim(claims, c) is Some,
    ensures
        claims.map_values(|e: (Cell, ComponentId)| e.0).contains(c),
    decreases claims.len(),
{
    let cells = claims.map_values(|e: (Cell, ComponentId)| e.0);
    if claims.last().0 == c {
        assert(cells[claims.len() - 1] == c);
    } else {
        lemma_claimed_cell_listed(claims.drop_last(), c);
        let prev = claims.drop_last().map_values(|e: (Cell, ComponentId)| e.0);
        let k = choose|k: int| 0 <= k < prev.len() && #[trigger] prev[k] == c;
        assert(prev[k] == cells[k]);
        assert(cells[k] == c);
    }
}

/// Distinct claimed cells are no more than the claims.
proof fn lemma_visited_bound(claims: Seq<(Cell, ComponentId)>, visited: Seq<Cell>)
    requires
        visited.no_duplicates(),
        forall|v: Cell| visited.contains(v) ==> last_claim(claims, v) is Some,
    ensures
        visited.len() <= claims.len(),
{
    let cells = claims.map_values(|e: (Cell, ComponentId)| e.0);
    assert forall|v: Cell| visited.to_set().contains(v) implies cells.to_set().contains(v) by {
        lemma_claimed_cell_listed(claims, v);
    }
    visited.unique_seq_to_set();
    cells.lemma_cardinality_of_set();
    vstd::seq_lib::seq_to_set_is_finite(cells);
    vstd::set_lib::lemma_len_subset(visited.to_set(), cells.to_set());
}

/// Claims cell `np` for the flood fill if it is claimed on the bottom layer
/// and not visited yet: it is visited, stacked, and its bottom and top
/// owners survive.
fn visit(
    bottom: &Vec<(Cell, ComponentId)>,
    top: &Vec<(Cell, ComponentId)>,
    np: Cell,
    visited: &mut Vec<Cell>,
    stack: &mut Vec<Cell>,
    survives: &mut Vec<ComponentId>,
)
    ensures
        if !old(visited)@.contains(np) && last_claim(bottom@, np) is Some {
            &&& final(visited)@ == old(visited)@.push(np)
            &&& final(stack)@ == old(stack)@.push(np)
            &&& forall|id: ComponentId| #[trigger]
                final(survives)@.contains(id) <==> old(survives)@.contains(id) || last_claim(
                    bottom@,
                    np,
                ) == Some(id) || last_claim(top@, np) == Some(id)
        } else {
            &&& final(visited)@ == old(visited)@
            &&& final(stack)@ == old(stack)@
            &&& final(survives)@ == old(survives)@
        },
{
    if contains_cell(visited, np) {
        return;
    }
    if let Some(id) = find_claim(bottom, np) {
        let ghost s0 = survives@;
        stack.push(np);
        survives.push(id);
        proof {
            lemma_push_contains(s0, id);
        }
        match find_claim(top, np) {
            Some(top_id) => {
                let ghost s1 = survives@;
                survives.push(top_id);
                proof {
                    lemma_push_contains(s1, top_id);
                }
            },
            None => {},
        }
        visited.push(np);
    }
}

/// The cells next to `pos`, up, right, left and down; a neighbour beyond the
/// range of `i64` is left out.
fn neighbours(pos: Cell) -> (r: Vec<Cell>)
    ensures
        forall|c: Cell| #[trigger] r@.contains(c) <==> adjacent(pos, c),
{
    let mut r: Vec<Cell> = Vec::new();
    let ghost r0 = r@;
    if pos.1 < i64::MAX {
        r.push((pos.0, pos.1 + 1));
    }
    proof { lemma_push_contains(r0, (pos.0, (pos.1 + 1) as i64)); }
    let ghost r1 = r@;
    if pos.0 < i64::MAX {
        r.push((pos.0 + 1, pos.1));
    }
    proof { lemma_push_contains(r1, ((pos.0 + 1) as i64, pos.1)); }
    let ghost r2 = r@;
    if pos.0 > i64::MIN {
        r.push((pos.0 - 1, pos.1));
    }
    proof { lemma_push_contains(r2, ((pos.0 - 1) as i64, pos.1)); }
    let ghost r3 = r@;
    if pos.1 > i64::MIN {
        r.push((pos.0, pos.1 - 1));
    }
    proof { lemma_push_contains(r3, (pos.0, (pos.1 - 1) as i64)); }
    r
}

/// The bottom-layer and top-layer claims of the components.
fn claims_of(cs: &Vec<PlacedComponent>) -> (r: (Vec<(Cell, ComponentId)>, Vec<(Cell, ComponentId)>))
    ensures
        r.0@ == bottom_claims(cs@),
        r.1@ == top_claims(cs@),
{
    let mut bottom: Vec<(Cell, ComponentId)> = Vec::new();
    let mut top: Vec<(Cell, ComponentId)> = Vec::new();
    let n = cs.len();
    let mut i: usize = 0;
    while i < n
        invariant
            n == cs@.len(),
            i <= n,
            bottom@ == bottom_claims(cs@.take(i as int)),
            top@ == top_claims(cs@.take(i as int)),
        decreases n - i,
    {
        let c = cs[i];
        assert(cs@.take(i + 1).drop_last() =~= cs@.take(i as int));
        assert(cs@.take(i + 1).last() == c);
        let is_top = match c.placement.component_type.top() {
            Some(_) => true,
            None => false,
        };
        if is_top {
            top.push(((c.placement.position.x as i64, c.placement.position.y as i64), c.id));
            assert(bottom_claims(cs@.take(i + 1)) =~= bottom@);
        } else {
            let cells = c.placement.occupied_cells();
            let m = cells.len();
            let mut j: usize = 0;
            let ghost b0 = bottom@;
            while j < m
                invariant
                    m == cells@.len(),
                    j <= m,
                    bottom@ == b0 + cells@.take(j as int).map_values(|x: Cell| (x, c.id)),
                decreases m - j,
            {
                bottom.push((cells[j], c.id));
                assert(cells@.take(j + 1).map_values(|x: Cell| (x, c.id)) =~= cells@.take(
                    j as int,
                ).map_values(|x: Cell| (x, c.id)).push((cells@[j as int], c.id)));
                j = j + 1;
            }
            assert(cells@.take(m as int) =~= cells@);
            assert(top_claims(cs@.take(i + 1)) =~= top@);
        }
        i = i + 1;
    }
    assert(cs@.take(n as int) =~= cs@);
    (bottom, top)
}

/// Which components stay attached to the central component `central`.
///
/// Starting from the central component's cells, the bottom-layer cells are
/// explored through their four neighbours; each cell reached keeps its
/// bottom-layer owner and the top-layer component standing on it. Returns
/// `None` when no component has the id `central`: then nothing survives.
/// The result may list an id more than once.
pub fn surviving_components(cs: &Vec<PlacedComponent>, central: ComponentId) -> (r: Option<
    Vec<ComponentId>,
>)
    requires
        forall|i: int, j: int| 0 <= i < j < cs@.len() ==> cs@[i].id != cs@[j].id,
    ensures
        r is None <==> forall|i: int| 0 <= i < cs@.len() ==> cs@[i].id != central,
        r is Some ==> exists|i: int|
            0 <= i < cs@.len() && cs@[i].id == central && forall|id: ComponentId| #[trigger]
                r->Some_0@.contains(id) <==> spec_survives(cs@, cs@[i], id),
{
    let n = cs.len();
    let mut ci: usize = 0;
    while ci < n && cs[ci].id != central
        invariant
            n == cs@.len(),
            ci <= n,
            forall|k: int| 0 <= k < ci ==> cs@[k].id != central,
        decreases n - ci,
    {
        ci = ci + 1;
    }
    if ci == n {
        return None;
    }
    let center = cs[ci];
    let (bottom, top) = claims_of(cs);
    let seeds = center.placement.occupied_cells();
    let mut stack = center.placement.occupied_cells();
    let mut visited: Vec<Cell> = Vec::new();
    let mut survives: Vec<ComponentId> = Vec::new();
    let ghost empty = survives@;
    survives.push(central);
    proof {
        lemma_push_contains(empty, central);
    }
    let ghost mut processed: Set<Cell> = Set::empty();
    let ghost claims = bottom@;
    let ghost sd = seeds@;
    let ghost bound = bottom@.len() as int;
    while stack.len() > 0
        invariant
            claims == bottom@,
            sd == seeds@,
            bound == claims.len(),
            visited@.no_duplicates(),
            visited@.len() <= bound,
            forall|v: Cell| #[trigger]
                visited@.contains(v) ==> last_claim(claims, v) is Some && reached(claims, sd, v),
            forall|s: Cell| #[trigger] stack@.contains(s) ==> sd.contains(s) || visited@.contains(s),
            forall|p: Cell, c: Cell|
                #![trigger processed.contains(p), adjacent(p, c)]
                processed.contains(p) && last_claim(claims, c) is Some && adjacent(p, c)
                    ==> visited@.contains(c),
            forall|s: Cell| #[trigger] sd.contains(s) ==> stack@.contains(s) || processed.contains(s),
            forall|v: Cell| #[trigger]
                visited@.contains(v) ==> stack@.contains(v) || processed.contains(v),
            forall|id: ComponentId| #[trigger]
                survives@.contains(id) <==> id == central || exists|v: Cell|
                    #[trigger] visited@.contains(v) && (last_claim(claims, v) == Some(id)
                        || last_claim(top@, v) == Some(id)),
        decreases 5 * (bound - visited@.len()) + stack@.len(),
    {
        let ghost st0 = stack@;
        let pos = stack.pop().unwrap();
        proof {
            assert(st0 == stack@.push(pos));
            lemma_push_contains(stack@, pos);
        }
        let ghost v0 = visited@;
        let ghost k0 = stack@;
        let nbrs = neighbours(pos);
        let m = nbrs.len();
        let mut j: usize = 0;
        while j < m
            invariant
                claims == bottom@,
                m == nbrs@.len(),
                j <= m,
                forall|c: Cell| #[trigger] nbrs@.contains(c) <==> adjacent(pos, c),
                visited@.no_duplicates(),
                visited@.len() - v0.len() == stack@.len() - k0.len(),
                visited@.len() >= v0.len(),
                forall|x: Cell| #[trigger] v0.contains(x) ==> visited@.contains(x),
                forall|x: Cell| #[trigger] k0.contains(x) ==> stack@.contains(x),
                forall|x: Cell| #[trigger]
                    stack@.contains(x) ==> k0.contains(x) || visited@.contains(x),
                forall|x: Cell| #[trigger]
                    visited@.contains(x) ==> v0.contains(x) || (stack@.contains(x)
                        && last_claim(claims, x) is Some && adjacent(pos, x)),
                forall|k: int|
                    0 <= k < j && last_claim(claims, #[trigger] nbrs@[k]) is Some
                        ==> visited@.contains(nbrs@[k]),
                forall|id: ComponentId| #[trigger]
                    survives@.contains(id) <==> id == central || exists|v: Cell|
                        #[trigger] visited@.contains(v) && (last_claim(claims, v) == Some(id)
                            || last_claim(top@, v) == Some(id)),
            decreases m - j,
        {
            let np = nbrs[j];
            let ghost vb = visited@;
            let ghost kb = stack@;
            let ghost ub = survives@;
            proof {
                lemma_push_contains(vb, np);
                lemma_push_contains(kb, np);
                lemma_push_no_duplicates(vb, np);
                assert(nbrs@.contains(np));
            }
            visit(&bottom, &top, np, &mut visited, &mut stack, &mut survives);
            proof {
                assert forall|id: ComponentId| #[trigger]
                    survives@.contains(id) <==> id == central || exists|v: Cell|
                        #[trigger] visited@.contains(v) && (last_claim(claims, v) == Some(id)
                            || last_claim(top@, v) == Some(id)) by {
                    if !vb.contains(np) && last_claim(claims, np) is Some {
                        if exists|v: Cell|
                            #[trigger] vb.contains(v) && (last_claim(claims, v) == Some(id)
                                || last_claim(top@, v) == Some(id)) {
                            let v = choose|v: Cell|
                                #[trigger] vb.contains(v) && (last_claim(claims, v) == Some(id)
                                    || last_claim(top@, v) == Some(id));
                            assert(visited@.contains(v));
                        }
                        if last_claim(claims, np) == Some(id) || last_claim(top@, np) == Some(id) {
                            assert(visited@.contains(np));
                        }
                    }
                }
            }
            j = j + 1;
        }
        proof {
            processed = processed.insert(pos);
            lemma_visited_bound(claims, visited@);
            assert forall|v: Cell| #[trigger]
                visited@.contains(v) implies last_claim(claims, v) is Some && reached(claims, sd, v) by {
                if !v0.contains(v) {
                    assert(st0.contains(pos));
                    lemma_reach_step(claims, sd, pos, v);
                }
            }
            assert forall|p: Cell, c: Cell|
                #![trigger processed.contains(p), adjacent(p, c)]
                processed.contains(p) && last_claim(claims, c) is Some && adjacent(p, c)
                    implies visited@.contains(c) by {
                if p == pos {
                    assert(nbrs@.contains(c));
                    let k = choose|k: int| 0 <= k < nbrs@.len() && nbrs@[k] == c;
                    assert(last_claim(claims, nbrs@[k]) is Some);
                } else {
                    assert(v0.contains(c));
                }
            }
            assert forall|s: Cell| #[trigger] sd.contains(s) implies stack@.contains(s)
                || processed.contains(s) by {
                if st0.contains(s) && s != pos {
                    assert(k0.contains(s));
                }
            }
            assert forall|v: Cell| #[trigger] visited@.contains(v) implies stack@.contains(v)
                || processed.contains(v) by {
                if v0.contains(v) && st0.contains(v) && v != pos {
                    assert(k0.contains(v));
                }
            }
            assert forall|s: Cell| #[trigger] stack@.contains(s) implies sd.contains(s)
                || visited@.contains(s) by {
                if k0.contains(s) {
                    assert(st0.contains(s));
                }
            }
        }
    }
    proof {
        assert forall|id: ComponentId| #[trigger]
            survives@.contains(id) <==> spec_survives(cs@, cs@[ci as int], id) by {
            assert(cs@[ci as int] == center);
            if exists|c: Cell|
                #[trigger] reached(claims, sd, c) && (last_claim(claims, c) == Some(id)
                    || last_claim(top@, c) == Some(id)) {
                let c = choose|c: Cell|
                    #[trigger] reached(claims, sd, c) && (last_claim(claims, c) == Some(id)
                        || last_claim(top@, c) == Some(id));
                let n = choose|n: nat| #[trigger] reach_within(claims, sd, n).contains(c);
                lemma_reach_closed(claims, sd, visited@, processed, n);
                assert(visited@.contains(c));
            }
        }
    }
    Some(survives)
}

/// The id a component gets from its place in a design: its index, offset
/// by 256 for top-layer components, wrapped to the id range.
pub open spec fn spec_component_id(index: int, top: bool) -> ComponentId {
    (if top {
        (index + 256) % 65536
    } else {
        index % 65536
    }) as ComponentId
}

impl SpacecraftStructure {
    /// The components of this design with their ids, and the id of its
    /// (last) central component, if it has one.
    pub fn placed_components(&self) -> (r: (Vec<PlacedComponent>, Option<ComponentId>))
        ensures
            r.0@.len() == self.component_placeholders@.len(),
            forall|i: int|
                0 <= i < r.0@.len() ==> #[trigger] r.0@[i] == (PlacedComponent {
                    id: spec_component_id(
                        i,
                        spec_top(self.component_placeholders@[i].component_type) is Some,
                    ),
                    placement: self.component_placeholders@[i],
                }),
            r.1 is None <==> forall|i: int|
                0 <= i < self.component_placeholders@.len()
                    ==> self.component_placeholders@[i].component_type != ComponentType::Central,
            r.1 matches Some(c) ==> exists|i: int|
                0 <= i < r.0@.len() && r.0@[i].id == c
                    && self.component_placeholders@[i].component_type == ComponentType::Central
                    && forall|j: int|
                    i < j < r.0@.len() ==> self.component_placeholders@[j].component_type
                        != ComponentType::Central,
    {
        let ps = &self.component_placeholders;
        let n = ps.len();
        let mut placed: Vec<PlacedComponent> = Vec::new();
        let mut central: Option<ComponentId> = None;
        let ghost mut central_at: int = -1;
        let mut i: usize = 0;
        while i < n
            invariant
                n == ps@.len(),
                i <= n,
                placed@.len() == i,
                forall|k: int|
                    0 <= k < i ==> #[trigger] placed@[k] == (PlacedComponent {
                        id: spec_component_id(k, spec_top(ps@[k].component_type) is Some),
                        placement: ps@[k],
                    }),
                central is None <==> forall|k: int|
                    0 <= k < i ==> ps@[k].component_type != ComponentType::Central,
                central matches Some(c) ==> 0 <= central_at < i && placed@[central_at].id == c
                    && ps@[central_at].component_type == ComponentType::Central && forall|j: int|
                    central_at < j < i ==> ps@[j].component_type != ComponentType::Central,
            decreases n - i,
        {
            let p = ps[i];
            let is_top = match p.component_type.top() {
                Some(_) => true,
                None => false,
            };
            let wrapped = (i % 65536) as u32;
            let id: ComponentId = if is_top {
                ((wrapped + 256) % 65536) as u16
            } else {
                wrapped as u16
            };
            assert(id == spec_component_id(i as int, is_top));
            placed.push(PlacedComponent { id, placement: p });
            if p.component_type == ComponentType::Central {
                central = Some(id);
                proof {
                    central_at = i as int;
                }
            }
            i = i + 1;
        }
        (placed, central)
    }
}

} // verus!
