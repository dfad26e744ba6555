//! The corridor carver: a randomized recursive-backtracking walk.
//!
//! Each strand starts at a spot whose margin-expanded footprint is free, and
//! grows step by step; every step carves at least one fresh rock cell, so
//! the count of remaining rock cells bounds the whole walk.

use vstd::prelude::*;

use crate::cell_matrix::Cell;
use crate::cell_matrix::CellMatrix;
use crate::corridor_tree::CorridorNode;
use crate::direction::Direction;
use crate::rng::rng_below;
use crate::rng::GenRng;

verus! {

/// The carver can stand at `(x, y)` with a `w` x `h` footprint: the
/// footprint, expanded by the margins, holds nothing but rock or the
/// outside sentinel, and the footprint itself is all breakable rock (which
/// also puts it inside the map).
pub open spec fn suitable_location(
    m: CellMatrix,
    x: int,
    y: int,
    w: int,
    h: int,
    ml: int,
    mt: int,
    mr: int,
    mb: int,
) -> bool {
    &&& (forall|a: int, b: int|
        x - ml <= a < x + w + mr && y - mt <= b < y + h + mb ==> ((#[trigger] m.cell_at(a, b))
            is Rock || m.cell_at(a, b) is SolidRock))
    &&& (forall|a: int, b: int|
        x <= a < x + w && y <= b < y + h ==> (#[trigger] m.cell_at(a, b)) is Rock)
}

/// Two maps with the same grid agree on every cell read.
pub proof fn lemma_same_cells(m1: CellMatrix, m2: CellMatrix)
    requires
        m1.cell_vector@ == m2.cell_vector@,
        m1.width == m2.width,
        m1.height == m2.height,
    ensures
        forall|a: int, b: int|
            #![trigger m1.cell_at(a, b)]
            #![trigger m2.cell_at(a, b)]
            m1.cell_at(a, b) == m2.cell_at(a, b),
{
}

/// Id validity carries over to any map with the same grid, rooms, corridors
/// and sections.
pub proof fn lemma_sections_valid_same(m1: CellMatrix, m2: CellMatrix)
    requires
        m1.sections_valid(),
        m2.cell_vector@ == m1.cell_vector@,
        m2.room_vec@ == m1.room_vec@,
        m2.corridor_vec@ == m1.corridor_vec@,
        m2.section_vec@.len() == m1.section_vec@.len(),
        forall|s: int|
            0 <= s < m1.section_vec@.len() ==> (#[trigger] m2.section_vec@[s]).id
                == m1.section_vec@[s].id,
    ensures
        m2.sections_valid(),
{
    assert forall|i: int|
        0 <= i < m2.cell_vector@.len() implies #[trigger] m2.tag_valid(m2.cell_vector@[i]) by {
        assert(m1.tag_valid(m1.cell_vector@[i]));
    }
}

/// A suitable footprint lies inside the map.
pub proof fn lemma_suitable_bounds(
    m: CellMatrix,
    x: int,
    y: int,
    w: int,
    h: int,
    ml: int,
    mt: int,
    mr: int,
    mb: int,
)
    requires
        suitable_location(m, x, y, w, h, ml, mt, mr, mb),
        w >= 1,
        h >= 1,
    ensures
        0 <= x,
        0 <= y,
        x + w <= m.width,
        y + h <= m.height,
        m.has_rock(x, y, w, h),
{
    assert(m.cell_at(x, y) is Rock);
    assert(m.cell_at(x + w - 1, y + h - 1) is Rock);
    assert(m.in_bounds(x, y));
    assert(m.in_bounds(x + w - 1, y + h - 1));
}

/// Whether the carver can stand at `(x, y)`: the margin ring may hold rock
/// or lie outside the map, the footprint itself must be breakable rock.
pub(crate) fn is_suitable_corridor_location(
    map: &CellMatrix,
    x: i32,
    y: i32,
    width: u8,
    height: u8,
    // left, top, right, bottom
    margins: (u8, u8, u8, u8),
) -> (r: bool)
    requires
        map.dims_ok(),
        -0x4000_0000 <= x <= 0x4000_0000,
        -0x4000_0000 <= y <= 0x4000_0000,
    ensures
        r == suitable_location(
            *map,
            x as int,
            y as int,
            width as int,
            height as int,
            margins.0 as int,
            margins.1 as int,
            margins.2 as int,
            margins.3 as int,
        ),
{
    let x0: i32 = x - margins.0 as i32;
    let y0: i32 = y - margins.1 as i32;
    let x1: i32 = x + width as i32 + margins.2 as i32;
    let y1: i32 = y + height as i32 + margins.3 as i32;
    let mut b: i32 = y0;
    while b < y1
        invariant
            map.dims_ok(),
            x0 == x - margins.0,
            y0 == y - margins.1,
            x1 == x + width + margins.2,
            y1 == y + height + margins.3,
            -0x4000_0400 <= y0 <= b <= y1 <= 0x4000_0400,
            -0x4000_0400 <= x0 <= x1 <= 0x4000_0400,
            forall|aa: int, bb: int|
                x0 <= aa < x1 && y0 <= bb < b ==> ((#[trigger] map.cell_at(aa, bb)) is Rock
                    || map.cell_at(aa, bb) is SolidRock),
        decreases y1 - b,
    {
        let mut a: i32 = x0;
        while a < x1
            invariant
                map.dims_ok(),
                x0 == x - margins.0,
                y0 == y - margins.1,
                x1 == x + width + margins.2,
                y1 == y + height + margins.3,
                -0x4000_0400 <= y0 <= b < y1 <= 0x4000_0400,
                -0x4000_0400 <= x0 <= a <= x1 <= 0x4000_0400,
                forall|aa: int, bb: int|
                    x0 <= aa < x1 && y0 <= bb < b ==> ((#[trigger] map.cell_at(aa, bb)) is Rock
                        || map.cell_at(aa, bb) is SolidRock),
                forall|aa: int|
                    x0 <= aa < a ==> ((#[trigger] map.cell_at(aa, b as int)) is Rock
                        || map.cell_at(aa, b as int) is SolidRock),
            decreases x1 - a,
        {
            let cell = map.get(a, b);
            let solid = match cell {
                Cell::SolidRock => true,
                _ => false,
            };
            if !solid && !cell.is_rock() {
                return false;
            }
            a += 1;
        }
        b += 1;
    }
    // The inner footprint must be breakable rock through and through.
    let ix1: i32 = x + width as i32;
    let iy1: i32 = y + height as i32;
    let mut b: i32 = y;
    while b < iy1
        invariant
            map.dims_ok(),
            ix1 == x + width,
            iy1 == y + height,
            -0x4000_0000 <= x <= 0x4000_0000,
            -0x4000_0000 <= y <= b <= iy1 <= 0x4000_0400,
            forall|aa: int, bb: int|
                x - margins.0 <= aa < x + width + margins.2 && y - margins.1 <= bb < y + height
                    + margins.3 ==> ((#[trigger] map.cell_at(aa, bb)) is Rock || map.cell_at(
                    aa,
                    bb,
                ) is SolidRock),
            forall|aa: int, bb: int|
                x <= aa < ix1 && y <= bb < b ==> (#[trigger] map.cell_at(aa, bb)) is Rock,
        decreases iy1 - b,
    {
        let mut a: i32 = x;
        while a < ix1
            invariant
                map.dims_ok(),
                ix1 == x + width,
                iy1 == y + height,
                -0x4000_0000 <= x <= a <= ix1 <= 0x4000_0400,
                -0x4000_0000 <= y <= b < iy1 <= 0x4000_0400,
                forall|aa: int, bb: int|
                    x - margins.0 <= aa < x + width + margins.2 && y - margins.1 <= bb < y + height
                        + margins.3 ==> ((#[trigger] map.cell_at(aa, bb)) is Rock || map.cell_at(
                        aa,
                        bb,
                    ) is SolidRock),
                forall|aa: int, bb: int|
                    x <= aa < ix1 && y <= bb < b ==> (#[trigger] map.cell_at(aa, bb)) is Rock,
                forall|aa: int|
                    x <= aa < a ==> (#[trigger] map.cell_at(aa, b as int)) is Rock,
            decreases ix1 - a,
        {
            let cell = map.get(a, b);
            if !cell.is_rock() {
                return false;
            }
            a += 1;
        }
        b += 1;
    }
    true
}

/// Remove the first occurrence of `d` from the pool.
fn pool_remove(pool: &mut Vec<Direction>, d: Direction)
    requires
        old(pool)@.contains(d),
    ensures
        final(pool)@.len() == old(pool)@.len() - 1,
        forall|t: int|
            0 <= t < final(pool)@.len() ==> old(pool)@.contains(#[trigger] final(pool)@[t]),
{
    let mut k: usize = 0;
    while k < pool.len() && !(pool[k] == d)
        invariant
            *pool == *old(pool),
            k <= pool@.len(),
            forall|t: int| 0 <= t < k ==> pool@[t] != d,
        decreases pool@.len() - k,
    {
        k += 1;
    }
    proof {
        if k == pool@.len() {
            let t = choose|t: int| 0 <= t < pool@.len() && pool@[t] == d;
            assert(false);
        }
    }
    let ghost old_pool = pool@;
    pool.remove(k);
    proof {
        assert forall|t: int| 0 <= t < pool@.len() implies old_pool.contains(
            #[trigger] pool@[t],
        ) by {
            if t < k {
                assert(pool@[t] == old_pool[t]);
            } else {
                assert(pool@[t] == old_pool[t + 1]);
            }
        }
    }
}

/// The corridor carver: holds the map being carved, the corridor footprint,
/// the per-mille momentum-loss probability, the margins kept from other
/// carved space, and the generator driving its choices.
pub struct LabyrinthGenerator {
    pub map: CellMatrix,
    pub corridor_width: u8,
    pub corridor_height: u8,
    pub corridor_errantness: u32,
    pub margins: (u8, u8),
    pub rng: GenRng,
}

/// `(cx, cy)` is exactly one cardinal step away from `(px, py)`.
pub open spec fn is_cardinal_step(px: int, py: int, cx: int, cy: int) -> bool {
    ||| (px == cx && (py == cy + 1 || py + 1 == cy))
    ||| (py == cy && (px == cx + 1 || px + 1 == cx))
}

/// Every carve step stands one cardinal step from the step that spawned
/// it.
pub open spec fn steps_cardinal(t: crate::corridor_tree::CorridorTree) -> bool {
    forall|i: int|
        0 <= i < t.nodes@.len() ==> ((#[trigger] t.nodes@[i]).parent matches Some(p)
            ==> is_cardinal_step(
                t.nodes@[p as int].x as int,
                t.nodes@[p as int].y as int,
                t.nodes@[i].x as int,
                t.nodes@[i].y as int,
            ))
}

impl LabyrinthGenerator {
    /// Every corridor-tree node's footprint lies inside the map.
    pub open spec fn nodes_in_bounds(self) -> bool {
        forall|i: int|
            0 <= i < self.map.corridor_tree.nodes@.len() ==> (
            #[trigger] self.map.corridor_tree.nodes@[i]).x + self.corridor_width
                <= self.map.width && self.map.corridor_tree.nodes@[i].y + self.corridor_height
                <= self.map.height
    }

    /// Every carve step's footprint is carved: corridor cells through and
    /// through.
    pub open spec fn footprints_carved(self) -> bool {
        forall|i: int, a: int, b: int|
            #![trigger self.map.corridor_tree.nodes@[i], self.map.cell_at(a, b)]
            0 <= i < self.map.corridor_tree.nodes@.len()
                && self.map.corridor_tree.nodes@[i].x <= a < self.map.corridor_tree.nodes@[i].x
                + self.corridor_width && self.map.corridor_tree.nodes@[i].y <= b
                < self.map.corridor_tree.nodes@[i].y + self.corridor_height ==> self.map.cell_at(
                a,
                b,
            ) is Corridor
    }

    /// What carving relies on and preserves.
    pub open spec fn wf(self) -> bool {
        &&& self.map.dims_ok()
        &&& self.map.sections_valid()
        &&& self.map.corridor_tree.wf()
        &&& self.nodes_in_bounds()
        &&& self.footprints_carved()
        &&& steps_cardinal(self.map.corridor_tree)
        &&& crate::corridor_tree::fully_attached(self.map.corridor_tree)
        &&& self.corridor_width >= 1
        &&& self.corridor_height >= 1
    }

    /// Wrap a map for carving. The corridor footprint must have at least
    /// one cell on each side; errantness is per-mille.
    pub fn new(
        map: CellMatrix,
        corridor_width: u8,
        corridor_height: u8,
        corridor_errantness: u32,
        margins: (u8, u8),
        rng: GenRng,
    ) -> (g: LabyrinthGenerator)
        requires
            corridor_width >= 1,
            corridor_height >= 1,
        ensures
            g.map == map,
            g.corridor_width == corridor_width,
            g.corridor_height == corridor_height,
            g.corridor_errantness == corridor_errantness,
            g.margins == margins,
    {
        LabyrinthGenerator { map, corridor_width, corridor_height, corridor_errantness, margins, rng }
    }

    /// Carve the footprint at `(x, y)` and record the step in the corridor
    /// tree, under `parent` when one is given.
    fn add_corridor_piece(&mut self, cell: Cell, x: u16, y: u16, parent: Option<usize>) -> (node:
        usize)
        requires
            old(self).map.dims_ok(),
            old(self).map.corridor_tree.wf(),
            x + old(self).corridor_width <= old(self).map.width,
            y + old(self).corridor_height <= old(self).map.height,
            parent matches Some(p) ==> p < old(self).map.corridor_tree.nodes@.len(),
        ensures
            final(self).map.dims_ok(),
            final(self).map.width == old(self).map.width,
            final(self).map.height == old(self).map.height,
            final(self).map.room_vec == old(self).map.room_vec,
            final(self).map.corridor_vec == old(self).map.corridor_vec,
            final(self).map.section_vec == old(self).map.section_vec,
            final(self).corridor_width == old(self).corridor_width,
            final(self).corridor_height == old(self).corridor_height,
            final(self).corridor_errantness == old(self).corridor_errantness,
            final(self).margins == old(self).margins,
            final(self).rng == old(self).rng,
            forall|a: int, b: int|
                #[trigger] final(self).map.cell_at(a, b) == (if x as int <= a < x as int + old(
                    self,
                ).corridor_width as int && y as int <= b < y as int + old(
                    self,
                ).corridor_height as int {
                    cell
                } else {
                    old(self).map.cell_at(a, b)
                }),
            final(self).map.corridor_tree.wf(),
            node == old(self).map.corridor_tree.nodes@.len(),
            final(self).map.corridor_tree.nodes@.len() == old(
                self,
            ).map.corridor_tree.nodes@.len() + 1,
            final(self).map.corridor_tree.roots@ == old(self).map.corridor_tree.roots@,
            final(self).map.corridor_tree.nodes@[node as int].x == x,
            final(self).map.corridor_tree.nodes@[node as int].y == y,
            final(self).map.corridor_tree.nodes@[node as int].parent == parent,
            final(self).map.corridor_tree.nodes@[node as int].children@.len() == 0,
            forall|i: int|
                0 <= i < old(self).map.corridor_tree.nodes@.len()
                    ==> (#[trigger] final(self).map.corridor_tree.nodes@[i]).x == old(self).map.corridor_tree.nodes@[i].x
                    && final(self).map.corridor_tree.nodes@[i].y == old(self).map.corridor_tree.nodes@[i].y
                    && final(self).map.corridor_tree.nodes@[i].parent == old(self).map.corridor_tree.nodes@[i].parent,
            (parent matches Some(p) ==> {
                &&& final(self).map.corridor_tree.nodes@[p as int].children@
                    == old(self).map.corridor_tree.nodes@[p as int].children@.push(node)
                &&& forall|i: int|
                    0 <= i < old(self).map.corridor_tree.nodes@.len() && i != p
                        ==> #[trigger] final(self).map.corridor_tree.nodes@[i].children
                        == old(self).map.corridor_tree.nodes@[i].children
            }),
            (parent is None ==> forall|i: int|
                0 <= i < old(self).map.corridor_tree.nodes@.len()
                    ==> #[trigger] final(self).map.corridor_tree.nodes@[i].children
                    == old(self).map.corridor_tree.nodes@[i].children),
    {
        let w = self.corridor_width;
        let h = self.corridor_height;
        self.map.set_rect(cell, x, y, w as u16, h as u16);
        let ghost mid = self.map;
        let node = CorridorNode::new(&mut self.map.corridor_tree, parent, x, y);
        proof {
            assert forall|a: int, b: int| #[trigger]
                self.map.cell_at(a, b) == mid.cell_at(a, b) by {
                assert(self.map.cell_vector@ == mid.cell_vector@);
            }
        }
        node
    }

    /// One carving step: redraw or keep the walk's direction, carve the
    /// footprint at `(x, y)` as part of strand `corridor_index`, then try to
    /// extend in up to three directions; every step consumes at least one
    /// rock cell.
    #[verifier::loop_isolation(false)]
    #[verifier::rlimit(100)]
    pub fn traverse_corridor(
        &mut self,
        x: u16,
        y: u16,
        direction: Direction,
        corridor_index: usize,
        parent: Option<usize>,
    ) -> (node: usize)
        requires
            old(self).wf(),
            corridor_index < old(self).map.corridor_vec@.len(),
            x + old(self).corridor_width <= old(self).map.width,
            y + old(self).corridor_height <= old(self).map.height,
            old(self).map.has_rock(
                x as int,
                y as int,
                old(self).corridor_width as int,
                old(self).corridor_height as int,
            ),
            carvable(
                old(self).map,
                x as int,
                y as int,
                old(self).corridor_width as int,
                old(self).corridor_height as int,
                corridor_index,
            ),
            parent matches Some(p) ==> p < old(self).map.corridor_tree.nodes@.len()
                && is_cardinal_step(
                old(self).map.corridor_tree.nodes@[p as int].x as int,
                old(self).map.corridor_tree.nodes@[p as int].y as int,
                x as int,
                y as int,
            ),
        ensures
            final(self).wf(),
            final(self).corridor_width == old(self).corridor_width,
            final(self).corridor_height == old(self).corridor_height,
            final(self).corridor_errantness == old(self).corridor_errantness,
            final(self).margins == old(self).margins,
            final(self).map.width == old(self).map.width,
            final(self).map.height == old(self).map.height,
            final(self).map.room_vec == old(self).map.room_vec,
            final(self).map.corridor_vec == old(self).map.corridor_vec,
            final(self).map.section_vec == old(self).map.section_vec,
            CellMatrix::count_rock(final(self).map.cell_vector@) < CellMatrix::count_rock(
                old(self).map.cell_vector@,
            ),
            forall|a: int, b: int|
                #[trigger] final(self).map.cell_at(a, b) == old(self).map.cell_at(a, b) || (old(
                    self,
                ).map.cell_at(a, b) is Rock && final(self).map.cell_at(a, b) == Cell::Corridor(
                    corridor_index,
                )),
            forall|a: int, b: int|
                x <= a < x + old(self).corridor_width && y <= b < y + old(self).corridor_height
                    ==> #[trigger] final(self).map.cell_at(a, b) == Cell::Corridor(corridor_index),
            node == old(self).map.corridor_tree.nodes@.len(),
            node < final(self).map.corridor_tree.nodes@.len(),
            final(self).map.corridor_tree.roots@ == old(self).map.corridor_tree.roots@,
            final(self).map.corridor_tree.nodes@[node as int].x == x,
            final(self).map.corridor_tree.nodes@[node as int].y == y,
            final(self).map.corridor_tree.nodes@[node as int].parent == parent,
            parent matches Some(p)
                ==> final(self).map.corridor_tree.nodes@[p as int].children@.contains(node),
            forall|i: int|
                0 <= i < old(self).map.corridor_tree.nodes@.len()
                    ==> (#[trigger] final(self).map.corridor_tree.nodes@[i]).x == old(self).map.corridor_tree.nodes@[i].x
                    && final(self).map.corridor_tree.nodes@[i].y == old(self).map.corridor_tree.nodes@[i].y
                    && final(self).map.corridor_tree.nodes@[i].parent == old(self).map.corridor_tree.nodes@[i].parent,
            forall|i: int, v: usize|
                #![trigger old(self).map.corridor_tree.nodes@[i].children@.contains(v)]
                0 <= i < old(self).map.corridor_tree.nodes@.len()
                    && old(self).map.corridor_tree.nodes@[i].children@.contains(v)
                    ==> final(self).map.corridor_tree.nodes@[i].children@.contains(v),
        decreases CellMatrix::count_rock(self.map.cell_vector@),
    {
        let cw = self.corridor_width;
        let ch = self.corridor_height;
        let m0 = self.margins.0;
        let m1 = self.margins.1;
        let roll = rng_below(&mut self.rng, 1000);
        // Errantness is the per-mille probability of abandoning the walk's
        // momentum for a fresh uniform draw.
        let mut direction = if roll < self.corridor_errantness {
            Direction::rand(&mut self.rng)
        } else {
            direction
        };
        let node = self.add_corridor_piece(Cell::Corridor(corridor_index), x, y, parent);
        proof {
            let (wa, wb) = choose|a: int, b: int|
                x <= a < x + old(self).corridor_width && y <= b < y + old(self).corridor_height
                    && (#[trigger] old(self).map.cell_at(a, b)) is Rock;
            CellMatrix::lemma_count_rock_grid_lt(old(self).map, self.map, wa, wb);
            assert forall|i: int|
                0 <= i < self.map.cell_vector@.len() implies #[trigger] self.map.tag_valid(
                self.map.cell_vector@[i],
            ) by {
                crate::cell_matrix::lemma_row_major_decompose(
                    self.map.width as int,
                    self.map.height as int,
                    i,
                );
                let a = i % self.map.width as int;
                let b = i / self.map.width as int;
                assert(self.map.cell_vector@[i] == self.map.cell_at(a, b));
                assert(old(self).map.tag_valid(old(self).map.cell_vector@[i]));
                assert(old(self).map.cell_vector@[i] == old(self).map.cell_at(a, b));
            }
            let t0 = old(self).map.corridor_tree;
            let t1 = self.map.corridor_tree;
            match parent {
                Some(p) => {
                    assert(t1.nodes@[p as int].children@ == t0.nodes@[p as int].children@.push(
                        node,
                    ));
                    assert(t1.nodes@[p as int].children@[t1.nodes@[p as int].children@.len() - 1]
                        == node);
                    assert(t1.nodes@[p as int].children@.contains(node));
                },
                None => {},
            }
            assert forall|i: int, v: usize|
                #![trigger t0.nodes@[i].children@.contains(v)]
                0 <= i < t0.nodes@.len() && t0.nodes@[i].children@.contains(v) implies
                t1.nodes@[i].children@.contains(v) by {
                match parent {
                    Some(p) => {
                        if i == p {
                            let k = choose|k: int|
                                0 <= k < t0.nodes@[i].children@.len() && t0.nodes@[i].children@[k]
                                    == v;
                            assert(t1.nodes@[i].children@[k] == v);
                        } else {
                            assert(t1.nodes@[i].children == t0.nodes@[i].children);
                        }
                    },
                    None => {
                        assert(t1.nodes@[i].children == t0.nodes@[i].children);
                    },
                }
            }
            assert forall|i: int|
                0 <= i < t1.nodes@.len() implies ((#[trigger] t1.nodes@[i]).parent matches Some(q)
                ==> t1.nodes@[q as int].children@.contains(i as usize)) by {
                if i < t0.nodes@.len() {
                    assert(t0.node_wf(i));
                    match t0.nodes@[i].parent {
                        Some(q) => {
                            assert(t1.nodes@[i].parent == Some(q));
                            assert(t0.nodes@[q as int].children@.contains(i as usize));
                            assert(t1.nodes@[q as int].children@.contains(i as usize));
                        },
                        None => {},
                    }
                } else {
                    assert(i == node as int);
                    match parent {
                        Some(p) => {
                            assert(t1.nodes@[p as int].children@.contains(node));
                        },
                        None => {},
                    }
                }
            }
            assert(steps_cardinal(t1)) by {
                assert forall|i: int|
                    0 <= i < t1.nodes@.len() implies ((#[trigger] t1.nodes@[i]).parent
                    matches Some(q) ==> is_cardinal_step(
                    t1.nodes@[q as int].x as int,
                    t1.nodes@[q as int].y as int,
                    t1.nodes@[i].x as int,
                    t1.nodes@[i].y as int,
                )) by {
                    if i < t0.nodes@.len() {
                        assert(t0.node_wf(i));
                        match t0.nodes@[i].parent {
                            Some(q) => {
                                assert(t1.nodes@[i].parent == Some(q));
                                assert(is_cardinal_step(
                                    t0.nodes@[q as int].x as int,
                                    t0.nodes@[q as int].y as int,
                                    t0.nodes@[i].x as int,
                                    t0.nodes@[i].y as int,
                                ));
                                assert(t1.nodes@[q as int].x == t0.nodes@[q as int].x
                                    && t1.nodes@[q as int].y == t0.nodes@[q as int].y);
                                assert(t1.nodes@[i].x == t0.nodes@[i].x && t1.nodes@[i].y
                                    == t0.nodes@[i].y);
                            },
                            None => {},
                        }
                    } else {
                        assert(i == node as int);
                        match parent {
                            Some(p) => {
                                assert(t1.nodes@[p as int].x == t0.nodes@[p as int].x
                                    && t1.nodes@[p as int].y == t0.nodes@[p as int].y);
                                assert(is_cardinal_step(
                                    t0.nodes@[p as int].x as int,
                                    t0.nodes@[p as int].y as int,
                                    x as int,
                                    y as int,
                                ));
                            },
                            None => {},
                        }
                    }
                }
            }
            assert(self.footprints_carved()) by {
                assert forall|i: int, a: int, b: int|
                    #![trigger self.map.corridor_tree.nodes@[i], self.map.cell_at(a, b)]
                    0 <= i < t1.nodes@.len() && t1.nodes@[i].x <= a < t1.nodes@[i].x
                        + self.corridor_width && t1.nodes@[i].y <= b < t1.nodes@[i].y
                        + self.corridor_height implies self.map.cell_at(a, b) is Corridor by {
                    if i < t0.nodes@.len() {
                        assert(old(self).map.cell_at(a, b) is Corridor);
                    }
                }
            }
        }
        let ghost c_bound = CellMatrix::count_rock(self.map.cell_vector@);
        let mut direction_pool: Vec<Direction> = vec![
            Direction::E,
            Direction::N,
            Direction::S,
            Direction::W,
        ];
        proof {
            match direction {
                Direction::N => assert(direction_pool@[1] == direction),
                Direction::E => assert(direction_pool@[0] == direction),
                Direction::S => assert(direction_pool@[2] == direction),
                Direction::W => assert(direction_pool@[3] == direction),
            }
        }
        let mut attempt: usize = 0;
        while attempt < 3
            invariant
                attempt <= 3,
                self.corridor_width == old(self).corridor_width,
                self.corridor_height == old(self).corridor_height,
                self.corridor_errantness == old(self).corridor_errantness,
                self.margins == old(self).margins,
                self.map.dims_ok(),
                self.map.sections_valid(),
                self.map.corridor_tree.wf(),
                self.nodes_in_bounds(),
                self.map.width == old(self).map.width,
                self.map.height == old(self).map.height,
                self.map.room_vec == old(self).map.room_vec,
                self.map.corridor_vec == old(self).map.corridor_vec,
                self.map.section_vec == old(self).map.section_vec,
                CellMatrix::count_rock(self.map.cell_vector@) <= c_bound,
                c_bound < CellMatrix::count_rock(old(self).map.cell_vector@),
                forall|a: int, b: int|
                    #[trigger] self.map.cell_at(a, b) == old(self).map.cell_at(a, b) || (old(
                        self,
                    ).map.cell_at(a, b) is Rock && self.map.cell_at(a, b) == Cell::Corridor(
                        corridor_index,
                    )),
                forall|a: int, b: int|
                    x <= a < x + cw && y <= b < y + ch ==> #[trigger] self.map.cell_at(a, b)
                        == Cell::Corridor(corridor_index),
                node == old(self).map.corridor_tree.nodes@.len(),
                node < self.map.corridor_tree.nodes@.len(),
                self.map.corridor_tree.roots@ == old(self).map.corridor_tree.roots@,
                self.map.corridor_tree.nodes@[node as int].x == x,
                self.map.corridor_tree.nodes@[node as int].y == y,
                self.map.corridor_tree.nodes@[node as int].parent == parent,
                (parent matches Some(p) ==> self.map.corridor_tree.nodes@[
                    p as int
                ].children@.contains(node)),
                self.footprints_carved(),
                steps_cardinal(self.map.corridor_tree),
                crate::corridor_tree::fully_attached(self.map.corridor_tree),
                forall|i: int|
                    0 <= i < old(self).map.corridor_tree.nodes@.len()
                        ==> (#[trigger] self.map.corridor_tree.nodes@[i]).x == old(self).map.corridor_tree.nodes@[i].x
                        && self.map.corridor_tree.nodes@[i].y == old(self).map.corridor_tree.nodes@[i].y
                        && self.map.corridor_tree.nodes@[i].parent == old(self).map.corridor_tree.nodes@[i].parent,
                forall|i: int, v: usize|
                    #![trigger old(self).map.corridor_tree.nodes@[i].children@.contains(v)]
                    0 <= i < old(self).map.corridor_tree.nodes@.len() && old(
                        self,
                    ).map.corridor_tree.nodes@[i].children@.contains(v)
                        ==> self.map.corridor_tree.nodes@[i].children@.contains(v),
                direction_pool@.len() + attempt == 4,
                direction_pool@.contains(direction),
            decreases 3 - attempt,
        {
            match direction {
                Direction::N => {
                    if is_suitable_corridor_location(
                        &self.map,
                        x as i32,
                        y as i32 - 1,
                        cw,
                        1,
                        (m0, m1, m0, 0),
                    ) {
                        proof {
                            lemma_suitable_bounds(
                                self.map,
                                x as int,
                                y as int - 1,
                                cw as int,
                                1,
                                m0 as int,
                                m1 as int,
                                m0 as int,
                                0,
                            );
                            let (wa, wb) = choose|a: int, b: int|
                                x <= a < x + cw && y - 1 <= b < y && (#[trigger] self.map.cell_at(
                                    a,
                                    b,
                                )) is Rock;
                            assert(self.map.has_rock(
                                x as int,
                                y as int - 1,
                                cw as int,
                                ch as int,
                            ));
                            assert forall|a: int, b: int|
                                x <= a < x + cw && y - 1 <= b < y - 1 + ch implies ((
                            #[trigger] self.map.cell_at(a, b)) is Rock || self.map.cell_at(a, b)
                                == Cell::Corridor(corridor_index)) by {
                                if b >= y {
                                    assert(self.map.cell_at(a, b) == Cell::Corridor(
                                        corridor_index,
                                    ));
                                }
                            }
                        }
                        self.traverse_corridor(x, y - 1, direction, corridor_index, Some(node));
                    }
                },
                Direction::E => {
                    if is_suitable_corridor_location(
                        &self.map,
                        x as i32 + cw as i32,
                        y as i32,
                        1,
                        ch,
                        (0, m1, m0, m1),
                    ) {
                        proof {
                            lemma_suitable_bounds(
                                self.map,
                                x as int + cw as int,
                                y as int,
                                1,
                                ch as int,
                                0,
                                m1 as int,
                                m0 as int,
                                m1 as int,
                            );
                            assert(self.map.has_rock(
                                x as int + 1,
                                y as int,
                                cw as int,
                                ch as int,
                            ));
                            assert forall|a: int, b: int|
                                x + 1 <= a < x + 1 + cw && y <= b < y + ch implies ((
                            #[trigger] self.map.cell_at(a, b)) is Rock || self.map.cell_at(a, b)
                                == Cell::Corridor(corridor_index)) by {
                                if a < x + cw {
                                    assert(self.map.cell_at(a, b) == Cell::Corridor(
                                        corridor_index,
                                    ));
                                }
                            }
                        }
                        self.traverse_corridor(x + 1, y, direction, corridor_index, Some(node));
                    }
                },
                Direction::S => {
                    if is_suitable_corridor_location(
                        &self.map,
                        x as i32,
                        y as i32 + ch as i32,
                        cw,
                        1,
                        (m0, 0, m0, m1),
                    ) {
                        proof {
                            lemma_suitable_bounds(
                                self.map,
                                x as int,
                                y as int + ch as int,
                                cw as int,
                                1,
                                m0 as int,
                                0,
                                m0 as int,
                                m1 as int,
                            );
                            assert(self.map.has_rock(
                                x as int,
                                y as int + 1,
                                cw as int,
                                ch as int,
                            ));
                            assert forall|a: int, b: int|
                                x <= a < x + cw && y + 1 <= b < y + 1 + ch implies ((
                            #[trigger] self.map.cell_at(a, b)) is Rock || self.map.cell_at(a, b)
                                == Cell::Corridor(corridor_index)) by {
                                if b < y + ch {
                                    assert(self.map.cell_at(a, b) == Cell::Corridor(
                                        corridor_index,
                                    ));
                                }
                            }
                        }
                        self.traverse_corridor(x, y + 1, direction, corridor_index, Some(node));
                    }
                },
                Direction::W => {
                    if is_suitable_corridor_location(
                        &self.map,
                        x as i32 - 1,
                        y as i32,
                        1,
                        ch,
                        (m0, m1, 0, m1),
                    ) {
                        proof {
                            lemma_suitable_bounds(
                                self.map,
                                x as int - 1,
                                y as int,
                                1,
                                ch as int,
                                m0 as int,
                                m1 as int,
                                0,
                                m1 as int,
                            );
                            assert(self.map.has_rock(
                                x as int - 1,
                                y as int,
                                cw as int,
                                ch as int,
                            ));
                            assert forall|a: int, b: int|
                                x - 1 <= a < x - 1 + cw && y <= b < y + ch implies ((
                            #[trigger] self.map.cell_at(a, b)) is Rock || self.map.cell_at(a, b)
                                == Cell::Corridor(corridor_index)) by {
                                if a >= x {
                                    assert(self.map.cell_at(a, b) == Cell::Corridor(
                                        corridor_index,
                                    ));
                                }
                            }
                        }
                        self.traverse_corridor(x - 1, y, direction, corridor_index, Some(node));
                    }
                },
            }
            pool_remove(&mut direction_pool, direction);
            if direction_pool.len() == 1 {
                direction = direction_pool[0];
                proof {
                    assert(direction_pool@.contains(direction));
                }
            } else {
                let k = rng_below(&mut self.rng, direction_pool.len() as u32) as usize;
                direction = direction_pool[k];
                proof {
                    assert(direction_pool@.contains(direction));
                }
            }
            attempt += 1;
        }
        node
    }
    /// Whether the carver can stand at `(px, py)` with the configured
    /// footprint and margins.
    pub open spec fn spot_suitable(self, px: int, py: int) -> bool {
        suitable_location(
            self.map,
            px,
            py,
            self.corridor_width as int,
            self.corridor_height as int,
            self.margins.0 as int,
            self.margins.1 as int,
            self.margins.0 as int,
            self.margins.1 as int,
        )
    }

    /// No position of row `py` can host the carver.
    pub open spec fn row_clear(self, py: int) -> bool {
        forall|px: int| 0 <= px < self.map.width as int ==> !(#[trigger] self.spot_suitable(px, py))
    }

    /// Scan every grid position, row-major from a random wrap-around
    /// offset, for a spot whose margin-expanded footprint is free.
    /// `Err` means the full scan found none: normal exhaustion, not failure.
    #[verifier::loop_isolation(false)]
    fn find_suitable_corridor_location(&mut self) -> (r: Result<(u16, u16), ()>)
        requires
            old(self).map.dims_ok(),
        ensures
            final(self).map == old(self).map,
            final(self).corridor_width == old(self).corridor_width,
            final(self).corridor_height == old(self).corridor_height,
            final(self).corridor_errantness == old(self).corridor_errantness,
            final(self).margins == old(self).margins,
            (r matches Ok(p) ==> suitable_location(
                old(self).map,
                p.0 as int,
                p.1 as int,
                old(self).corridor_width as int,
                old(self).corridor_height as int,
                old(self).margins.0 as int,
                old(self).margins.1 as int,
                old(self).margins.0 as int,
                old(self).margins.1 as int,
            ) && p.0 < old(self).map.width && p.1 < old(self).map.height),
            r is Err ==> forall|px: int, py: int|
                0 <= px < old(self).map.width as int && 0 <= py < old(self).map.height as int
                    ==> !suitable_location(
                    old(self).map,
                    px,
                    py,
                    old(self).corridor_width as int,
                    old(self).corridor_height as int,
                    old(self).margins.0 as int,
                    old(self).margins.1 as int,
                    old(self).margins.0 as int,
                    old(self).margins.1 as int,
                ),
    {
        if self.map.width == 0 || self.map.height == 0 {
            return Err(());
        }
        let w = self.map.width;
        let h = self.map.height;
        let start_x = rng_below(&mut self.rng, w as u32) as u16;
        let start_y = rng_below(&mut self.rng, h as u32) as u16;

        let mut j: u16 = 0;
        while j < h
            invariant
                self.map == old(self).map,
                self.corridor_width == old(self).corridor_width,
                self.corridor_height == old(self).corridor_height,
                self.margins == old(self).margins,
                w == self.map.width,
                h == self.map.height,
                1 <= h,
                1 <= w,
                start_y < h,
                start_x < w,
                j <= h,
                forall|jj: int|
                    0 <= jj < j ==> self.row_clear(
                        #[trigger] wrap_offset(start_y as int + jj, h as int),
                    ),
            decreases h - j,
        {
            let y_sum: u32 = start_y as u32 + j as u32;
            let y_pos: u16 = if y_sum >= h as u32 {
                (y_sum - h as u32) as u16
            } else {
                y_sum as u16
            };
            let mut i: u16 = 0;
            while i < w
                invariant
                    self.map == old(self).map,
                    self.corridor_width == old(self).corridor_width,
                    self.corridor_height == old(self).corridor_height,
                    self.margins == old(self).margins,
                    w == self.map.width,
                    h == self.map.height,
                    1 <= h,
                    1 <= w,
                    start_y < h,
                    start_x < w,
                    j < h,
                    i <= w,
                    y_pos == wrap_offset(start_y as int + j as int, h as int),
                    y_pos < h,
                    forall|jj: int|
                        0 <= jj < j ==> self.row_clear(
                            #[trigger] wrap_offset(start_y as int + jj, h as int),
                        ),
                    forall|ii: int|
                        0 <= ii < i ==> !self.spot_suitable(
                            #[trigger] wrap_offset(start_x as int + ii, w as int),
                            y_pos as int,
                        ),
                decreases w - i,
            {
                let x_sum: u32 = start_x as u32 + i as u32;
                let x_pos: u16 = if x_sum >= w as u32 {
                    (x_sum - w as u32) as u16
                } else {
                    x_sum as u16
                };
                if is_suitable_corridor_location(
                    &self.map,
                    x_pos as i32,
                    y_pos as i32,
                    self.corridor_width,
                    self.corridor_height,
                    (self.margins.0, self.margins.1, self.margins.0, self.margins.1),
                ) {
                    return Ok((x_pos, y_pos));
                }
                i += 1;
            }
            proof {
                assert forall|px: int| 0 <= px < w as int implies !(#[trigger] self.spot_suitable(
                    px,
                    y_pos as int,
                )) by {
                    let ii = if px >= start_x as int {
                        px - start_x as int
                    } else {
                        px + w as int - start_x as int
                    };
                    assert(wrap_offset(start_x as int + ii, w as int) == px);
                    assert(!self.spot_suitable(wrap_offset(start_x as int + ii, w as int), y_pos as int));
                }
            }
            j += 1;
        }
        proof {
            assert forall|px: int, py: int|
                0 <= px < w as int && 0 <= py < h as int implies !suitable_location(
                old(self).map,
                px,
                py,
                old(self).corridor_width as int,
                old(self).corridor_height as int,
                old(self).margins.0 as int,
                old(self).margins.1 as int,
                old(self).margins.0 as int,
                old(self).margins.1 as int,
            ) by {
                let jj = if py >= start_y as int {
                    py - start_y as int
                } else {
                    py + h as int - start_y as int
                };
                assert(wrap_offset(start_y as int + jj, h as int) == py);
                assert(self.row_clear(wrap_offset(start_y as int + jj, h as int)));
                assert(!self.spot_suitable(px, py));
                assert(self.map == old(self).map);
            }
        }
        Err(())
    }

    /// Carve corridor strands until no suitable origin remains, recording
    /// one root, one strand and one section per carving run. Existing rooms
    /// and sections are untouched; only rock is carved.
    #[verifier::loop_isolation(false)]
    pub fn generate(self) -> (m: CellMatrix)
        requires
            self.wf(),
        ensures
            m.dims_ok(),
            m.sections_valid(),
            m.corridor_tree.wf(),
            m.width == self.map.width,
            m.height == self.map.height,
            m.room_vec == self.map.room_vec,
            forall|j: int|
                0 <= j < self.map.section_vec@.len() ==> #[trigger] m.section_vec@[j]
                    == self.map.section_vec@[j],
            m.section_vec@.len() >= self.map.section_vec@.len(),
            forall|j: int|
                self.map.section_vec@.len() <= j < m.section_vec@.len() ==> (
                #[trigger] m.section_vec@[j]).connections@.len() == 0,
            crate::sections::ids_identity(self.map) ==> crate::sections::ids_identity(m),
            forall|a: int, b: int|
                #[trigger] m.cell_at(a, b) == self.map.cell_at(a, b) || (self.map.cell_at(a, b)
                    is Rock && m.cell_at(a, b) is Corridor),
            forall|i: int|
                0 <= i < m.corridor_tree.nodes@.len() ==> (#[trigger] m.corridor_tree.nodes@[i]).x
                    + self.corridor_width <= m.width && m.corridor_tree.nodes@[i].y
                    + self.corridor_height <= m.height,
            // Carving ran to exhaustion: no position of the result can host
            // the configured footprint and margins any more.
            forall|px: int, py: int|
                0 <= px < m.width as int && 0 <= py < m.height as int ==> !suitable_location(
                    m,
                    px,
                    py,
                    self.corridor_width as int,
                    self.corridor_height as int,
                    self.margins.0 as int,
                    self.margins.1 as int,
                    self.margins.0 as int,
                    self.margins.1 as int,
                ),
            // One tree root, one strand record and one fresh section per
            // carving origin found.
            m.corridor_vec@.len() >= self.map.corridor_vec@.len(),
            forall|j: int|
                0 <= j < self.map.corridor_vec@.len() ==> #[trigger] m.corridor_vec@[j]
                    == self.map.corridor_vec@[j],
            m.corridor_tree.roots@.len() == self.map.corridor_tree.roots@.len()
                + m.corridor_vec@.len() - self.map.corridor_vec@.len(),
            m.section_vec@.len() == self.map.section_vec@.len() + m.corridor_vec@.len()
                - self.map.corridor_vec@.len(),
            forall|j: int|
                self.map.corridor_vec@.len() <= j < m.corridor_vec@.len() ==> (
                #[trigger] m.corridor_vec@[j]).section_id == self.map.section_vec@.len() + j
                    - self.map.corridor_vec@.len(),
            // Every carve step's footprint is carved through, every step is
            // attached under its spawning step, one cardinal step away.
            forall|i: int, a: int, b: int|
                #![trigger m.corridor_tree.nodes@[i], m.cell_at(a, b)]
                0 <= i < m.corridor_tree.nodes@.len() && m.corridor_tree.nodes@[i].x <= a
                    < m.corridor_tree.nodes@[i].x + self.corridor_width
                    && m.corridor_tree.nodes@[i].y <= b < m.corridor_tree.nodes@[i].y
                    + self.corridor_height ==> m.cell_at(a, b) is Corridor,
            crate::corridor_tree::fully_attached(m.corridor_tree),
            steps_cardinal(m.corridor_tree),
    {
        let mut this = self;
        let mut done = false;
        while !done
            invariant
                this.wf(),
                this.corridor_width == self.corridor_width,
                this.corridor_height == self.corridor_height,
                this.corridor_errantness == self.corridor_errantness,
                this.margins == self.margins,
                this.map.width == self.map.width,
                this.map.height == self.map.height,
                this.map.room_vec == self.map.room_vec,
                forall|j: int|
                    0 <= j < self.map.section_vec@.len() ==> #[trigger] this.map.section_vec@[j]
                        == self.map.section_vec@[j],
                this.map.section_vec@.len() >= self.map.section_vec@.len(),
                forall|j: int|
                    self.map.section_vec@.len() <= j < this.map.section_vec@.len() ==> (
                    #[trigger] this.map.section_vec@[j]).connections@.len() == 0,
                crate::sections::ids_identity(self.map) ==> crate::sections::ids_identity(
                    this.map,
                ),
                forall|a: int, b: int|
                    #[trigger] this.map.cell_at(a, b) == self.map.cell_at(a, b) || (
                    self.map.cell_at(a, b) is Rock && this.map.cell_at(a, b) is Corridor),
                this.map.corridor_vec@.len() >= self.map.corridor_vec@.len(),
                forall|j: int|
                    0 <= j < self.map.corridor_vec@.len() ==> #[trigger] this.map.corridor_vec@[j]
                        == self.map.corridor_vec@[j],
                this.map.corridor_tree.roots@.len() == self.map.corridor_tree.roots@.len()
                    + this.map.corridor_vec@.len() - self.map.corridor_vec@.len(),
                this.map.section_vec@.len() == self.map.section_vec@.len()
                    + this.map.corridor_vec@.len() - self.map.corridor_vec@.len(),
                forall|j: int|
                    self.map.corridor_vec@.len() <= j < this.map.corridor_vec@.len() ==> (
                    #[trigger] this.map.corridor_vec@[j]).section_id == self.map.section_vec@.len()
                        + j - self.map.corridor_vec@.len(),
                done ==> forall|px: int, py: int|
                    0 <= px < this.map.width as int && 0 <= py < this.map.height as int
                        ==> !suitable_location(
                        this.map,
                        px,
                        py,
                        self.corridor_width as int,
                        self.corridor_height as int,
                        self.margins.0 as int,
                        self.margins.1 as int,
                        self.margins.0 as int,
                        self.margins.1 as int,
                    ),
            decreases CellMatrix::count_rock(this.map.cell_vector@), (if done {
                0int
            } else {
                1int
            }),
        {
            let found = this.find_suitable_corridor_location();
            match found {
                Ok((x, y)) => {
                    let ghost before = this;
                    let idx = this.map.add_corridor();
                    let d = Direction::rand(&mut this.rng);
                    proof {
                        lemma_same_cells(before.map, this.map);
                        let cwi = this.corridor_width as int;
                        let chi = this.corridor_height as int;
                        let mh = this.margins.0 as int;
                        let mv = this.margins.1 as int;
                        assert(suitable_location(
                            before.map,
                            x as int,
                            y as int,
                            cwi,
                            chi,
                            mh,
                            mv,
                            mh,
                            mv,
                        ));
                        assert forall|a: int, b: int|
                            x - mh <= a < x + cwi + mh && y - mv <= b < y + chi + mv implies ((
                        #[trigger] this.map.cell_at(a, b)) is Rock || this.map.cell_at(a, b)
                            is SolidRock) by {
                            assert(this.map.cell_at(a, b) == before.map.cell_at(a, b));
                        }
                        assert forall|a: int, b: int|
                            x <= a < x + cwi && y <= b < y + chi implies (
                        #[trigger] this.map.cell_at(a, b)) is Rock by {
                            assert(this.map.cell_at(a, b) == before.map.cell_at(a, b));
                        }
                        assert(suitable_location(
                            this.map,
                            x as int,
                            y as int,
                            this.corridor_width as int,
                            this.corridor_height as int,
                            this.margins.0 as int,
                            this.margins.1 as int,
                            this.margins.0 as int,
                            this.margins.1 as int,
                        ));
                        lemma_suitable_bounds(
                            this.map,
                            x as int,
                            y as int,
                            this.corridor_width as int,
                            this.corridor_height as int,
                            this.margins.0 as int,
                            this.margins.1 as int,
                            this.margins.0 as int,
                            this.margins.1 as int,
                        );
                        assert forall|i: int|
                            0 <= i < this.map.cell_vector@.len() implies #[trigger] this.map.tag_valid(
                            this.map.cell_vector@[i],
                        ) by {
                            assert(before.map.tag_valid(before.map.cell_vector@[i]));
                        }
                    }
                    let root = this.traverse_corridor(x, y, d, idx, None);
                    let ghost gpre = this;
                    let ghost mpre = this.map;
                    this.map.corridor_tree.roots.push(root);
                    proof {
                        assert(this.map.corridor_tree.nodes@ == mpre.corridor_tree.nodes@);
                        assert forall|i: int|
                            0 <= i < this.map.corridor_tree.nodes@.len() implies
                            #[trigger] this.map.corridor_tree.node_wf(i) by {
                            assert(mpre.corridor_tree.node_wf(i));
                        }
                        assert forall|r: int|
                            0 <= r < this.map.corridor_tree.roots@.len() implies (
                        #[trigger] this.map.corridor_tree.roots@[r])
                            < this.map.corridor_tree.nodes@.len() && this.map.corridor_tree.nodes@[
                            this.map.corridor_tree.roots@[r] as int
                        ].parent is None by {
                            if r < mpre.corridor_tree.roots@.len() {
                                assert(mpre.corridor_tree.roots@[r]
                                    < mpre.corridor_tree.nodes@.len()
                                    && mpre.corridor_tree.nodes@[
                                    mpre.corridor_tree.roots@[r] as int
                                ].parent is None);
                            } else {
                                assert(this.map.corridor_tree.roots@[r] == root);
                            }
                        }
                        lemma_same_cells(mpre, this.map);
                        lemma_sections_valid_same(mpre, this.map);
                        assert forall|i: int|
                            0 <= i < this.map.corridor_tree.nodes@.len() implies (
                        #[trigger] this.map.corridor_tree.nodes@[i]).x + this.corridor_width
                            <= this.map.width && this.map.corridor_tree.nodes@[i].y
                            + this.corridor_height <= this.map.height by {
                            assert(mpre.corridor_tree.nodes@[i] == this.map.corridor_tree.nodes@[i]);
                        }
                        assert(crate::corridor_tree::fully_attached(this.map.corridor_tree)) by {
                            assert forall|i: int|
                                0 <= i < this.map.corridor_tree.nodes@.len() implies ((
                            #[trigger] this.map.corridor_tree.nodes@[i]).parent matches Some(q)
                                ==> this.map.corridor_tree.nodes@[q as int].children@.contains(
                                i as usize,
                            )) by {
                                assert(gpre.map.corridor_tree.nodes@[i].parent matches Some(q)
                                    ==> gpre.map.corridor_tree.nodes@[q as int].children@.contains(
                                    i as usize,
                                ));
                            }
                        }
                        assert(steps_cardinal(this.map.corridor_tree)) by {
                            assert forall|i: int|
                                0 <= i < this.map.corridor_tree.nodes@.len() implies ((
                            #[trigger] this.map.corridor_tree.nodes@[i]).parent matches Some(q)
                                ==> is_cardinal_step(
                                this.map.corridor_tree.nodes@[q as int].x as int,
                                this.map.corridor_tree.nodes@[q as int].y as int,
                                this.map.corridor_tree.nodes@[i].x as int,
                                this.map.corridor_tree.nodes@[i].y as int,
                            )) by {
                                assert(gpre.map.corridor_tree.nodes@[i].parent matches Some(q)
                                    ==> is_cardinal_step(
                                    gpre.map.corridor_tree.nodes@[q as int].x as int,
                                    gpre.map.corridor_tree.nodes@[q as int].y as int,
                                    gpre.map.corridor_tree.nodes@[i].x as int,
                                    gpre.map.corridor_tree.nodes@[i].y as int,
                                ));
                            }
                        }
                        assert(this.footprints_carved()) by {
                            assert forall|i: int, a: int, b: int|
                                #![trigger this.map.corridor_tree.nodes@[i], this.map.cell_at(a, b)]
                                0 <= i < this.map.corridor_tree.nodes@.len()
                                    && this.map.corridor_tree.nodes@[i].x <= a
                                    < this.map.corridor_tree.nodes@[i].x + this.corridor_width
                                    && this.map.corridor_tree.nodes@[i].y <= b
                                    < this.map.corridor_tree.nodes@[i].y + this.corridor_height
                                implies this.map.cell_at(a, b) is Corridor by {
                                assert(gpre.map.corridor_tree.nodes@[i]
                                    == this.map.corridor_tree.nodes@[i]);
                                assert(gpre.footprints_carved());
                                assert(gpre.map.cell_at(a, b) is Corridor);
                            }
                        }
                    }
                },
                Err(()) => {
                    done = true;
                },
            }
        }
        this.map
    }
}

/// `s` wrapped back into `[0, n)`, for `0 <= s < 2n`.
pub open spec fn wrap_offset(s: int, n: int) -> int {
    if s < n {
        s
    } else {
        s - n
    }
}

/// Every cell of the rectangle may be carved into strand `ci`: it is either
/// fresh rock or already part of that strand.
pub open spec fn carvable(m: CellMatrix, x: int, y: int, w: int, h: int, ci: usize) -> bool {
    forall|a: int, b: int|
        x <= a < x + w && y <= b < y + h ==> ((#[trigger] m.cell_at(a, b)) is Rock || m.cell_at(
            a,
            b,
        ) == Cell::Corridor(ci))
}

} // verus!
