use vstd::prelude::*;

verus! {

use crate::component::{
    spec_scale,
    spec_top,
    ComponentType,
    GridPos,
    Orient,
    Orientation,
};

/// A component of a spacecraft design: its kind, grid position and facing.
#[derive(Clone, Copy, Debug, PartialEq, Eq, Structural)]
pub struct ComponentPlaceholder {
    pub component_type: ComponentType,
    pub position: GridPos,
    pub orientation: Orientation,
}

impl ComponentPlaceholder {
    pub fn new(component_type: ComponentType, position: GridPos, orientation: Orientation) -> (r:
        Self)
        ensures
            r == (ComponentPlaceholder { component_type, position, orientation }),
    {
        ComponentPlaceholder { component_type, position, orientation }
    }
}

/// A spacecraft design: its components and free-form tags.
#[derive(Clone, Debug)]
pub struct SpacecraftStructure {
    pub component_placeholders: Vec<ComponentPlaceholder>,
    pub tags: Vec<String>,
}

/// What a hangar reports from an update.
#[derive(Clone, Debug)]
pub enum HangarEffect {
    Deploy(SpacecraftStructure),
}

/// The grid cell that offset `off`, turned by `o`, reaches from `pos`.
pub open spec fn cell_at(pos: GridPos, o: Orientation, off: GridPos) -> (i64, i64) {
    let d = off.spec_orient(o);
    ((pos.x + d.x) as i64, (pos.y + d.y) as i64)
}

/// The cells of column `x`, rows `0..sy`, of a component's footprint.
pub open spec fn column_cells(pos: GridPos, o: Orientation, x: int, sy: nat) -> Seq<(i64, i64)>
    decreases sy,
{
    if sy == 0 {
        Seq::empty()
    } else {
        column_cells(pos, o, x, (sy - 1) as nat).push(
            cell_at(pos, o, GridPos { x: x as i32, y: (sy - 1) as i32 }),
        )
    }
}

/// The cells of a `sx` by `sy` footprint, column by column.
pub open spec fn grid_cells(pos: GridPos, o: Orientation, sx: nat, sy: nat) -> Seq<(i64, i64)>
    decreases sx,
{
    if sx == 0 {
        Seq::empty()
    } else {
        grid_cells(pos, o, (sx - 1) as nat, sy) + column_cells(pos, o, sx - 1, sy)
    }
}

/// The cells a placed component occupies, on its own layer.
pub open spec fn placeholder_cells(p: ComponentPlaceholder) -> Seq<(i64, i64)> {
    match spec_top(p.component_type) {
        Some(occupies) => occupies.map_values(|g: GridPos| cell_at(p.position, p.orientation, g)),
        None => grid_cells(
            p.position,
            p.orientation,
            spec_scale(p.component_type).x as nat,
            spec_scale(p.component_type).y as nat,
        ),
    }
}

/// The cells occupied on the top layer (`top`) or on the bottom layer, in
/// component order, each as often as it is claimed.
pub open spec fn layer_cells(ps: Seq<ComponentPlaceholder>, top: bool) -> Seq<(i64, i64)>
    decreases ps.len(),
{
    if ps.len() == 0 {
        Seq::empty()
    } else {
        let last = ps.last();
        layer_cells(ps.drop_last(), top) + if spec_top(last.component_type).is_some() == top {
            placeholder_cells(last)
        } else {
            Seq::empty()
        }
    }
}

/// The number of central components.
pub open spec fn central_count(ps: Seq<ComponentPlaceholder>) -> nat
    decreases ps.len(),
{
    if ps.len() == 0 {
        0
    } else {
        central_count(ps.drop_last()) + if ps.last().component_type == ComponentType::Central {
            1nat
        } else {
            0nat
        }
    }
}

/// A design is valid when it has exactly one central component, no two
/// components claim one cell of the same layer, and every top-layer cell
/// rests on a bottom-layer cell.
pub open spec fn spec_valid(ps: Seq<ComponentPlaceholder>) -> bool {
    &&& central_count(ps) == 1
    &&& layer_cells(ps, true).no_duplicates()
    &&& layer_cells(ps, false).no_duplicates()
    &&& forall|c: (i64, i64)|
        #[trigger] layer_cells(ps, true).contains(c) ==> layer_cells(ps, false).contains(c)
}

pub(crate) proof fn lemma_push_contains<A>(s: Seq<A>, x: A)
    ensures
        forall|y: A| #[trigger] s.push(x).contains(y) <==> s.contains(y) || y == x,
{
    assert forall|y: A| #[trigger] s.push(x).contains(y) <==> s.contains(y) || y == x by {
        if s.push(x).contains(y) {
            let k = choose|k: int| 0 <= k < s.push(x).len() && s.push(x)[k] == y;
            if k < s.len() {
                assert(s[k] == y);
            }
        }
        if s.contains(y) {
            let k = choose|k: int| 0 <= k < s.len() && s[k] == y;
            assert(s.push(x)[k] == y);
        }
        if y == x {
            assert(s.push(x)[s.len() as int] == y);
        }
    }
}

pub(crate) proof fn lemma_push_no_duplicates(s: Seq<(i64, i64)>, c: (i64, i64))
    ensures
        s.push(c).no_duplicates() <==> s.no_duplicates() && !s.contains(c),
{
    let t = s.push(c);
    if t.no_duplicates() {
        assert forall|i: int, j: int|
            0 <= i < s.len() && 0 <= j < s.len() && i != j implies s[i] != s[j] by {
            assert(t[i] == s[i] && t[j] == s[j]);
        }
        if s.contains(c) {
            let k = choose|k: int| 0 <= k < s.len() && s[k] == c;
            assert(t[k] == t[s.len() as int]);
        }
    }
    if s.no_duplicates() && !s.contains(c) {
        assert forall|i: int, j: int|
            0 <= i < t.len() && 0 <= j < t.len() && i != j implies t[i] != t[j] by {
            if i < s.len() && j < s.len() {
            } else if i < s.len() {
                assert(s[i] == t[i]);
            } else {
                assert(s[j] == t[j]);
            }
        }
    }
}

pub(crate) fn contains_cell(v: &Vec<(i64, i64)>, c: (i64, i64)) -> (r: bool)
    ensures
        r == v@.contains(c),
{
    let n = v.len();
    let mut i: usize = 0;
    while i < n
        invariant
            n == v@.len(),
            i <= n,
            forall|k: int| 0 <= k < i ==> v@[k] != c,
        decreases n - i,
    {
        if v[i].0 == c.0 && v[i].1 == c.1 {
            assert(v@[i as int] == c);
            return true;
        }
        i = i + 1;
    }
    false
}

/// Appends cell `c` to `cells`, clearing `distinct` if it was already there.
fn claim_cell(cells: &mut Vec<(i64, i64)>, distinct: &mut bool, c: (i64, i64))
    ensures
        final(cells)@ == old(cells)@.push(c),
        *final(distinct) == (*old(distinct) && !old(cells)@.contains(c)),
{
    if contains_cell(cells, c) {
        *distinct = false;
    }
    cells.push(c);
}

impl SpacecraftStructure {
    /// Checks the design rules: exactly one central component, no two
    /// components on one cell of the same layer, and every top-layer cell
    /// resting on a bottom-layer cell.
    pub fn valid(&self) -> (r: bool)
        ensures
            r == spec_valid(self.component_placeholders@),
    {
        let ps = &self.component_placeholders;
        let n = ps.len();
        let mut central = false;
        let mut single_central = true;
        let mut top_distinct = true;
        let mut bot_distinct = true;
        let mut top_cells: Vec<(i64, i64)> = Vec::new();
        let mut bot_cells: Vec<(i64, i64)> = Vec::new();
        let mut i: usize = 0;
        while i < n
            invariant
                n == ps@.len(),
                i <= n,
                top_cells@ == layer_cells(ps@.take(i as int), true),
                bot_cells@ == layer_cells(ps@.take(i as int), false),
                central == (central_count(ps@.take(i as int)) >= 1),
                single_central == (central_count(ps@.take(i as int)) <= 1),
                top_distinct == top_cells@.no_duplicates(),
                bot_distinct == bot_cells@.no_duplicates(),
            decreases n - i,
        {
            let p = ps[i];
            let ghost pre = ps@.take(i as int);
            let ghost top0 = top_cells@;
            let ghost bot0 = bot_cells@;
            assert(ps@.take(i + 1).drop_last() =~= pre);
            assert(ps@.take(i + 1).last() == p);
            if p.component_type == ComponentType::Central {
                if central {
                    single_central = false;
                }
                central = true;
            }
            match p.component_type.top() {
                Some(top) => {
                    let occupies = &top.occupies;
                    let m = occupies.len();
                    let mut j: usize = 0;
                    while j < m
                        invariant
                            m == occupies@.len(),
                            spec_top(p.component_type) == Some(occupies@),
                            j <= m,
                            top_cells@ == top0 + occupies@.take(j as int).map_values(
                                |g: GridPos| cell_at(p.position, p.orientation, g),
                            ),
                            top_distinct == top_cells@.no_duplicates(),
                        decreases m - j,
                    {
                        let off = occupies[j];
                        let d = off.orient(p.orientation);
                        let c = (p.position.x as i64 + d.x as i64, p.position.y as i64 + d.y as i64);
                        proof {
                            lemma_push_no_duplicates(top_cells@, c);
                        }
                        claim_cell(&mut top_cells, &mut top_distinct, c);
                        assert(occupies@.take(j + 1).map_values(
                            |g: GridPos| cell_at(p.position, p.orientation, g),
                        ) =~= occupies@.take(j as int).map_values(
                            |g: GridPos| cell_at(p.position, p.orientation, g),
                        ).push(c));
                        j = j + 1;
                    }
                    assert(occupies@.take(m as int) =~= occupies@);
                },
                None => {
                    let s = p.component_type.scale();
                    let mut x: u32 = 0;
                    while x < s.x
                        invariant
                            s == spec_scale(p.component_type),
                            x <= s.x,
                            bot_cells@ == bot0 + grid_cells(
                                p.position,
                                p.orientation,
                                x as nat,
                                s.y as nat,
                            ),
                            bot_distinct == bot_cells@.no_duplicates(),
                        decreases s.x - x,
                    {
                        let ghost col0 = bot_cells@;
                        let mut y: u32 = 0;
                        while y < s.y
                            invariant
                                s == spec_scale(p.component_type),
                                x < s.x,
                                y <= s.y,
                                bot_cells@ == col0 + column_cells(
                                    p.position,
                                    p.orientation,
                                    x as int,
                                    y as nat,
                                ),
                                bot_distinct == bot_cells@.no_duplicates(),
                            decreases s.y - y,
                        {
                            let off = GridPos { x: x as i32, y: y as i32 };
                            let d = off.orient(p.orientation);
                            let c = (
                                p.position.x as i64 + d.x as i64,
                                p.position.y as i64 + d.y as i64,
                            );
                            proof {
                                lemma_push_no_duplicates(bot_cells@, c);
                            }
                            claim_cell(&mut bot_cells, &mut bot_distinct, c);
                            y = y + 1;
                        }
                        x = x + 1;
                    }
                },
            }
            i = i + 1;
        }
        assert(ps@.take(n as int) =~= ps@);
        let mut covered = true;
        let m = top_cells.len();
        let mut k: usize = 0;
        while k < m
            invariant
                m == top_cells@.len(),
                k <= m,
                covered == forall|q: int| 0 <= q < k ==> bot_cells@.contains(#[trigger] top_cells@[q]),
            decreases m - k,
        {
            if !contains_cell(&bot_cells, top_cells[k]) {
                covered = false;
            }
            k = k + 1;
        }
        proof {
            assert(covered == forall|c: (i64, i64)|
                #[trigger] top_cells@.contains(c) ==> bot_cells@.contains(c)) by {
                if covered {
                    assert forall|c: (i64, i64)| #[trigger] top_cells@.contains(c) implies bot_cells@.contains(c) by {
                        let q = choose|q: int| 0 <= q < m && top_cells@[q] == c;
                        assert(bot_cells@.contains(top_cells@[q]));
                    }
                } else {
                    let q = choose|q: int| 0 <= q < m && !bot_cells@.contains(#[trigger] top_cells@[q]);
                    assert(top_cells@.contains(top_cells@[q]));
                }
            }
        }
        central && single_central && top_distinct && bot_distinct && covered
    }
}

} // verus!
